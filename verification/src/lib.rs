//! The core of a log-structured merge-tree key-value engine with
//! multi-version concurrency control: versioned keys and their order,
//! the block and SST formats with their checksums, write-ahead-log and
//! manifest framing with replay, the memtable, and the transaction
//! manager with its serializability check and watermark-driven garbage
//! collection. File and lock handling live outside this crate; every
//! byte and every decision is computed here.

pub mod block;
pub mod block_builder;
pub mod block_meta;
pub mod checksum;
pub mod codec;
pub mod errors;
pub mod filter;
pub mod key;
pub mod lsm_engine;
pub mod lsm_engine_inner;
pub mod hashes;
pub mod manifest;
pub mod memtable;
pub mod mvcc;
pub mod skipmap;
pub mod table;
pub mod table_builder;
pub mod txn;
pub mod wal;
pub mod watermark;
