//! A persistent key/value store built on an append-only record log.
//!
//! Every record in the log carries a 32-bit checksum over its key and value
//! bytes; an in-memory index maps each key to the byte offset of its most
//! recent record and is rebuilt from the log when a store is opened.

pub mod checksum;
pub mod codec;
pub mod format;
pub mod index;
pub mod store;
pub mod text;

pub use store::ActionKV;
pub use store::KvError;
