//! A log-structured record store for NOR-flash-like memory.
//!
//! The store keeps a fixed set of tagged fields in a linear, append-only
//! region of 32-bit words that may only be written while erased (all ones).
//! Each field update appends a CRC-protected record; at startup the region
//! is scanned and the latest valid record of every tag is recovered, so the
//! store survives power loss at any point.

pub mod words;
pub mod mem;
pub mod hasher;
pub mod engine;
pub mod laws;
pub mod schema;

pub use engine::{Error, Header, InitStats, RecordDesc, Storage};
pub use schema::{Mode, PerMap};
pub use hasher::{Crc32, StorageHasher32};
pub use mem::{StorageMem, TestMem};
pub use words::{Word, WORD_SZ};
