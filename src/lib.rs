//! An append-only key-value store: a log of length-prefixed, checksummed
//! records paired with an index from each key to the offset of its latest
//! record.
pub mod codec;
pub mod index;
pub mod lemmas;
pub mod snapshot;
pub mod store;
