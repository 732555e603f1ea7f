//! Numbers that are set from outside.

use crate::decimal::{
    decimal, lemma_no_number, lemma_numbers_written, parse_i64, parse_unsigned, signed_value,
    unsigned_value,
};
use vstd::prelude::*;

verus! {

/// The number that a setting stands for, or a default where it was not made,
/// cannot be read or is larger than `max`.
pub open spec fn number_or(setting: Option<&[u8]>, max: int, default: int) -> int {
    match setting {
        Some(s) => match unsigned_value(s@) {
            Some(v) => if v <= max {
                v as int
            } else {
                default
            },
            None => default,
        },
        None => default,
    }
}

/// A setting in decimal is that number, up to the largest; one that was not
/// made, or has anything but digits in it, is the default.
pub proof fn lemma_number_or(setting: Option<&[u8]>, max: int, default: int)
    ensures
        setting is None ==> number_or(setting, max, default) == default,
        forall|n: nat|
            setting matches Some(s) && s@ == #[trigger] decimal(n) ==> number_or(
                setting,
                max,
                default,
            ) == (if n <= max {
                n as int
            } else {
                default
            }),
        forall|i: int|
            setting is Some && 0 < i < setting->Some_0@.len() && !(0x30
                <= #[trigger] setting->Some_0@[i] <= 0x39) ==> number_or(setting, max, default) == default,
{
    if let Some(s) = setting {
        assert forall|n: nat| s@ == #[trigger] decimal(n) implies unsigned_value(s@) == Some(n) by {
            lemma_numbers_written(n);
        }
        assert forall|i: int|
            0 < i < s@.len() && !(0x30 <= #[trigger] s@[i] <= 0x39) implies unsigned_value(
            s@,
        ) is None by {
            lemma_no_number(s@, i);
        }
    }
}

fn read_number(setting: Option<&[u8]>, max: u64, default: u64) -> (r: u64)
    ensures
        r == number_or(setting, max as int, default as int),
        default <= max ==> r <= max,
{
    match setting {
        Some(s) => match parse_unsigned(s, max) {
            Some(v) => v,
            None => default,
        },
        None => default,
    }
}

/// Port that the load balancer listens on.
pub fn port(setting: Option<&[u8]>) -> (r: u16)
    ensures
        r == number_or(setting, u16::MAX as int, 9999),
        setting is None ==> r == 9999,
        forall|n: nat|
            setting matches Some(s) && s@ == #[trigger] decimal(n) ==> r == (if n <= u16::MAX {
                n as int
            } else {
                9999
            }),
        forall|i: int|
            setting is Some && 0 < i < setting->Some_0@.len() && !(0x30
                <= #[trigger] setting->Some_0@[i] <= 0x39) ==> r == 9999,
{
    proof {
        lemma_number_or(setting, u16::MAX as int, 9999);
    }
    read_number(setting, u16::MAX as u64, 9999) as u16
}

/// Number of threads of the load balancer.
pub fn workers(setting: Option<&[u8]>) -> (r: usize)
    ensures
        r == number_or(setting, usize::MAX as int, 2),
        setting is None ==> r == 2,
        forall|n: nat|
            setting matches Some(s) && s@ == #[trigger] decimal(n) ==> r == (if n <= usize::MAX {
                n as int
            } else {
                2
            }),
        forall|i: int|
            setting is Some && 0 < i < setting->Some_0@.len() && !(0x30
                <= #[trigger] setting->Some_0@[i] <= 0x39) ==> r == 2,
{
    proof {
        lemma_number_or(setting, usize::MAX as int, 2);
    }
    read_number(setting, usize::MAX as u64, 2) as usize
}

/// Number of made-up queries that an index is warmed up with.
pub fn warmup_count(setting: Option<&[u8]>) -> (r: usize)
    ensures
        r == number_or(setting, usize::MAX as int, 2048),
        setting is None ==> r == 2048,
        forall|n: nat|
            setting matches Some(s) && s@ == #[trigger] decimal(n) ==> r == (if n <= usize::MAX {
                n as int
            } else {
                2048
            }),
        forall|i: int|
            setting is Some && 0 < i < setting->Some_0@.len() && !(0x30
                <= #[trigger] setting->Some_0@[i] <= 0x39) ==> r == 2048,
{
    proof {
        lemma_number_or(setting, usize::MAX as int, 2048);
    }
    read_number(setting, usize::MAX as u64, 2048) as usize
}

/// Number of clusters that a search looks into.
pub fn probe_count(setting: Option<&[u8]>) -> (r: u32)
    ensures
        r == number_or(setting, u32::MAX as int, 192),
        setting is None ==> r == 192,
        forall|n: nat|
            setting matches Some(s) && s@ == #[trigger] decimal(n) ==> r == (if n <= u32::MAX {
                n as int
            } else {
                192
            }),
        forall|i: int|
            setting is Some && 0 < i < setting->Some_0@.len() && !(0x30
                <= #[trigger] setting->Some_0@[i] <= 0x39) ==> r == 192,
{
    proof {
        lemma_number_or(setting, u32::MAX as int, 192);
    }
    read_number(setting, u32::MAX as u64, 192) as u32
}

/// Microseconds that a socket is polled before its thread sleeps.
pub fn busy_poll(setting: Option<&[u8]>) -> (r: i32)
    ensures
        r == (match setting {
            Some(s) => match signed_value(s@) {
                Some(v) => if i32::MIN <= v <= i32::MAX {
                    v
                } else {
                    0
                },
                None => 0,
            },
            None => 0,
        }),
        setting is None ==> r == 0,
        forall|n: nat|
            setting matches Some(s) && s@ == #[trigger] decimal(n) ==> r == (if n <= i32::MAX {
                n as int
            } else {
                0
            }),
        forall|n: nat|
            setting matches Some(s) && s@ == seq![0x2du8] + #[trigger] decimal(n) ==> r == (if n
                <= 0x8000_0000 {
                -n
            } else {
                0
            }),
        forall|i: int|
            setting is Some && 0 < i < setting->Some_0@.len() && !(0x30
                <= #[trigger] setting->Some_0@[i] <= 0x39) ==> r == 0,
{
    proof {
        assert forall|i: int|
            setting is Some && 0 < i < setting->Some_0@.len() && !(0x30
                <= #[trigger] setting->Some_0@[i] <= 0x39) implies signed_value(
            setting->Some_0@,
        ) is None by {
            lemma_no_number(setting->Some_0@, i);
        }
        if let Some(s) = setting {
            assert forall|n: nat| s@ == #[trigger] decimal(n) implies signed_value(s@) == Some(
                n as int,
            ) by {
                lemma_numbers_written(n);
            }
            assert forall|n: nat| s@ == seq![0x2du8] + #[trigger] decimal(n) implies signed_value(
                s@,
            ) == Some(-(n as int)) by {
                lemma_numbers_written(n);
            }
        }
    }
    match setting {
        Some(s) => match parse_i64(s) {
            Some(v) => if v >= i32::MIN as i64 && v <= i32::MAX as i64 {
                v as i32
            } else {
                0
            },
            None => 0,
        },
        None => 0,
    }
}

} // verus!
