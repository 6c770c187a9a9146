//! An embedded, log-structured key-value engine over string keys and values.
//!
//! The engine keeps an append-only log split into numbered segments, an index
//! from each live key to the span of its newest record, and a counter of the
//! bytes that superseded records occupy. Every operation is stated over the
//! mathematical contents of the store, a map from keys to values.
pub mod codec;
pub mod command;
pub mod error;
pub mod index;
pub mod kv;
pub mod layout;
pub mod replay;
pub mod segment;

pub use command::{Command, CommandPos};
pub use error::KvsError;
pub use kv::KvStore;
