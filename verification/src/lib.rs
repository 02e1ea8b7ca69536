//! Typed storage items over an untyped key-value store.
//!
//! The store knows raw byte keys and raw byte values. This library gives it
//! types: it derives the key of each item and entry, encodes and decodes
//! values, and keeps a list through the entries of a map that must be
//! enumerated.

pub mod check_block;
pub mod codec;
pub mod endian;
pub mod generator;
pub mod hashing;
pub mod key;
pub mod module;
pub mod sequence;
pub mod store;
pub mod top;
pub mod top_hashed;

/// The former name of `top`; use `top`.
pub use top as unhashed;
/// The former name of `top_hashed`; use `top_hashed`.
pub use top_hashed as hashed;

pub use check_block::CheckBlockCmd;
pub use module::Module;
pub use generator::{
    StorageDoubleMap, StorageLinkedMap, StorageMap, StoragePrefixedMap, StorageValue,
};
