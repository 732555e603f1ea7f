[package]
name = "rinha2026"
version = "0.1.0"
edition = "2021"
publish = false

[dependencies]
flate2 = "1"
libc = "0.2"
mimalloc = "0.1"
serde_json = "1"
