//! The storage items: descriptors of a value, a map, a double map, a map over
//! raw keys and a map that can be enumerated, each a stateless accessor of the
//! store handed to it.

pub mod double_map;
pub mod linked_laws;
pub mod linked_map;
pub mod linked_order;
pub mod map;
pub mod prefixed_map;
pub mod value;

pub use double_map::StorageDoubleMap;
pub use linked_map::StorageLinkedMap;
pub use map::StorageMap;
pub use prefixed_map::StoragePrefixedMap;
pub use value::StorageValue;
