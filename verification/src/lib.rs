//! A persistent key-value store with a log-structured engine.
//!
//! Every write is a record appended to the segment of the active epoch. An
//! index in memory holds, for each key, the locator of its newest record, and
//! compaction copies the records that the index points at into a fresh epoch,
//! so that the older epochs can be dropped. The store keeps its segments in
//! memory and says what is to be done to the files that back them.
//!
//! Around the engine stand the wire protocol between client and server, the
//! handler that answers a request with the help of an engine, the client's
//! side of the conversation, and the scheduling rules of the server's
//! shared-queue thread pool.
//!
//! The contracts of the functions are stated over plain mathematical values
//! and are proved, as are the laws of the store in `engines::laws`. Two
//! things are taken on trust: what `serde_json` reads and writes (`json`),
//! and what the standard library makes of text in lower case (`text`).
pub mod client;
pub mod contract;
pub mod engines;
pub mod json;
pub mod server;
pub mod server_common;
pub mod text;
pub mod thread_pool;

pub use engines::engine::KvsEngine;
pub use engines::errors::KvError;
pub use engines::errors::Result;
pub use engines::kvs::KvStore;
