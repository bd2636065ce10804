//! The decision-making core of a Bitcoin Core chain source and of its logging.

pub mod client;
pub mod fee_rate;
pub mod hash_table;
pub mod header_cache;
pub mod http;
pub mod json;
pub mod logger;
pub mod mempool;
pub mod mempool_history;
pub mod mempool_laws;
pub mod mempool_steps;
pub mod replies;
pub mod responses;
pub mod text;
pub mod tracing;
