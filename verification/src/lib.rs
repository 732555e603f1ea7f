//! Fraud scoring by exact nearest neighbours.

pub mod balancer;
pub mod bytes;
pub mod decimal;
pub mod evaluation;
pub mod http;
pub mod ivf;
pub mod json;
pub mod normalize;
pub mod order;
pub mod references;
pub mod server;
pub mod settings;
pub mod specialist;
