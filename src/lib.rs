//! crab: a key-value database with a self-describing binary object format,
//! a sharded store with an append-only log, and a bounded link resolver.

pub mod bytes;
pub mod object;
pub mod types;
pub mod concurrent_map;
pub mod storage;
pub mod append_only_log;
pub mod server;
pub mod link_resolver;
pub mod queue;
pub mod logging;
