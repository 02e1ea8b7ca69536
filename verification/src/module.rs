//! A module and the storage items it declares: the module prefix is given
//! once, each item adds its own prefix.

use vstd::prelude::*;

use crate::codec::Codec;
use crate::generator::{
    StorageDoubleMap, StorageLinkedMap, StorageMap, StoragePrefixedMap, StorageValue,
};
use crate::hashing::{ConcatHasher, DigestHasher, Hasher};
use crate::store::to_bytes;

verus! {

/// A module that owns storage items.
pub struct Module {
    /// The prefix of the module.
    pub prefix: Vec<u8>,
}

impl Module {
    /// The module with the prefix `prefix`.
    pub fn new(prefix: &[u8]) -> (r: Self)
        ensures
            r.prefix@ == prefix@,
    {
        Module { prefix: to_bytes(prefix) }
    }

    /// Declares the value `item` of this module.
    pub fn value<V: Codec>(&self, item: &[u8]) -> (r: StorageValue<V>)
        ensures
            r.module_prefix@ == self.prefix@,
            r.item_prefix@ == item@,
    {
        StorageValue::new(self.prefix.as_slice(), item)
    }

    /// Declares the map `item` of this module.
    pub fn map<K: Codec, V: Codec>(&self, item: &[u8], hasher: Hasher) -> (r: StorageMap<K, V>)
        ensures
            r.module_prefix@ == self.prefix@,
            r.item_prefix@ == item@,
            r.hasher == hasher,
    {
        StorageMap::new(self.prefix.as_slice(), item, hasher)
    }

    /// Declares the linked map `item` of this module.
    pub fn linked_map<K: Codec, V: Codec>(&self, item: &[u8], hasher: ConcatHasher) -> (r:
        StorageLinkedMap<K, V>)
        ensures
            r.module_prefix@ == self.prefix@,
            r.item_prefix@ == item@,
            r.hasher == hasher,
    {
        StorageLinkedMap::new(self.prefix.as_slice(), item, hasher)
    }

    /// Declares the double map `item` of this module.
    pub fn double_map<K1: Codec, K2: Codec, V: Codec>(
        &self,
        item: &[u8],
        hasher1: DigestHasher,
        hasher2: Hasher,
    ) -> (r: StorageDoubleMap<K1, K2, V>)
        ensures
            r.module_prefix@ == self.prefix@,
            r.item_prefix@ == item@,
            r.hasher1 == hasher1,
            r.hasher2 == hasher2,
    {
        StorageDoubleMap::new(self.prefix.as_slice(), item, hasher1, hasher2)
    }

    /// Declares the map over raw keys `item` of this module.
    pub fn prefixed_map<V: Codec>(&self, item: &[u8]) -> (r: StoragePrefixedMap<V>)
        ensures
            r.module_prefix@ == self.prefix@,
            r.item_prefix@ == item@,
    {
        StoragePrefixedMap::new(self.prefix.as_slice(), item)
    }
}

} // verus!
