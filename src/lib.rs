//! A log-structured key-value store: a record codec, an append-only log
//! image with its in-memory index, recovery by replay, compaction, a second
//! engine backed by sled, and the request handling of the network server.

pub mod codec;
pub mod common_struct;
pub mod engine;
pub mod error;
pub mod kvstore;
pub mod log;
pub mod server;
pub mod sled_kvs;

pub use codec::LogRecord;
pub use common_struct::{KVPair, KVRequest, KVResponse};
pub use engine::{DirState, EngineKind, KVEngine};
pub use error::KVError;
pub use kvstore::{KVEntry, KVStore, LogSync};
pub use server::KVServer;
pub use sled_kvs::SledKVEngine;
