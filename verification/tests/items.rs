use runtime_storage::codec::DecodeError;
use runtime_storage::hashing::{twox_128, DigestHasher, Hasher};
use runtime_storage::key::item_prefix;
use runtime_storage::store::{MemoryStore, Store};
use runtime_storage::hashing::ConcatHasher;
use runtime_storage::{
    Module, StorageDoubleMap, StorageLinkedMap, StorageMap, StoragePrefixedMap, StorageValue,
};

#[test]
fn value_mutate_counts_from_absent() {
    let mut store = MemoryStore::new();
    let counter: StorageValue<u32> = StorageValue::new(b"Module", b"Counter");
    assert_eq!(counter.get(&store), None);
    counter.mutate(&mut store, |x| x + 1);
    assert_eq!(counter.get(&store), Some(1));
    counter.mutate(&mut store, |x| x + 1);
    assert_eq!(counter.get(&store), Some(2));
}

#[test]
fn value_operations() {
    let mut store = MemoryStore::new();
    let value: StorageValue<Vec<u8>> = StorageValue::new(b"Module", b"Name");
    assert!(!value.is_present(&store));
    assert_eq!(value.take(&mut store), None);
    value.set(&mut store, &vec![1, 2, 3]);
    assert!(value.is_present(&store));
    assert_eq!(value.get(&store), Some(vec![1, 2, 3]));
    assert_eq!(value.try_get(&store), Ok(Some(vec![1, 2, 3])));
    assert_eq!(value.take(&mut store), Some(vec![1, 2, 3]));
    assert_eq!(value.get(&store), None);
    assert_eq!(value.try_get(&store), Ok(None));
    value.set(&mut store, &vec![4]);
    value.kill(&mut store);
    assert!(!value.is_present(&store));
    assert_eq!(store.len(), 0);
}

#[test]
fn value_stands_under_the_item_prefix() {
    let mut store = MemoryStore::new();
    let value: StorageValue<u16> = StorageValue::new(b"Module", b"Item");
    assert_eq!(value.hashed_key(), item_prefix(b"Module", b"Item"));
    value.set(&mut store, &0x0102);
    assert_eq!(store.get(&item_prefix(b"Module", b"Item")), Some(vec![2, 1]));
}

#[test]
fn value_that_does_not_decode() {
    let mut store = MemoryStore::new();
    let value: StorageValue<u32> = StorageValue::new(b"Module", b"Item");
    store.set(&value.hashed_key(), &[1, 2]);
    assert!(value.is_present(&store));
    assert_eq!(value.get(&store), None);
    assert_eq!(value.try_get(&store), Err(DecodeError));
    value.mutate(&mut store, |x| x + 1);
    assert_eq!(value.get(&store), Some(1));
}

#[test]
fn values_of_two_items_do_not_meet() {
    let mut store = MemoryStore::new();
    let a: StorageValue<u32> = StorageValue::new(b"Module", b"A");
    let b: StorageValue<u32> = StorageValue::new(b"Module", b"B");
    let c: StorageValue<u32> = StorageValue::new(b"Other", b"A");
    a.set(&mut store, &1);
    b.set(&mut store, &2);
    c.set(&mut store, &3);
    assert_eq!(a.get(&store), Some(1));
    assert_eq!(b.get(&store), Some(2));
    assert_eq!(c.get(&store), Some(3));
    a.kill(&mut store);
    assert_eq!(b.get(&store), Some(2));
    assert_eq!(c.get(&store), Some(3));
}

#[test]
fn map_operations() {
    let mut store = MemoryStore::new();
    let map: StorageMap<u32, u64> = StorageMap::new(b"Module", b"Map", Hasher::Blake2_128Concat);
    assert_eq!(map.get(&store, &1), None);
    assert!(!map.contains_key(&store, &1));
    map.insert(&mut store, &1, &10);
    map.insert(&mut store, &2, &20);
    assert!(map.contains_key(&store, &1));
    assert_eq!(map.get(&store, &1), Some(10));
    assert_eq!(map.get(&store, &2), Some(20));
    assert_eq!(map.try_get(&store, &2), Ok(Some(20)));
    assert_eq!(map.try_get(&store, &3), Ok(None));
    map.insert(&mut store, &1, &11);
    assert_eq!(map.get(&store, &1), Some(11));
    assert_eq!(map.take(&mut store, &1), Some(11));
    assert_eq!(map.take(&mut store, &1), None);
    map.mutate(&mut store, &2, |x| x * 2);
    assert_eq!(map.get(&store, &2), Some(40));
    map.mutate(&mut store, &5, |x| x + 7);
    assert_eq!(map.get(&store, &5), Some(7));
    map.remove(&mut store, &2);
    map.remove(&mut store, &5);
    assert_eq!(store.len(), 0);
}

#[test]
fn map_key_layout() {
    let mut store = MemoryStore::new();
    let map: StorageMap<u16, u8> = StorageMap::new(b"Module", b"Map", Hasher::Twox128);
    map.insert(&mut store, &0x0102, &9);
    let mut key = item_prefix(b"Module", b"Map");
    key.extend_from_slice(&twox_128(&[2, 1]));
    assert_eq!(map.hashed_key_for(&0x0102), key);
    assert_eq!(store.get(&key), Some(vec![9]));
}

#[test]
fn map_entry_that_does_not_decode() {
    let mut store = MemoryStore::new();
    let map: StorageMap<u8, u32> = StorageMap::new(b"Module", b"Map", Hasher::Twox64Concat);
    store.set(&map.hashed_key_for(&1), &[1, 2, 3, 4, 5]);
    assert_eq!(map.get(&store, &1), None);
    assert_eq!(map.try_get(&store, &1), Err(DecodeError));
}

#[test]
fn double_map_remove_prefix_scenario() {
    let mut store = MemoryStore::new();
    let map: StorageDoubleMap<Vec<u8>, u32, u32> =
        StorageDoubleMap::new(b"Module", b"Double", DigestHasher::Blake2_128, Hasher::Twox64Concat);
    let a = b"A".to_vec();
    let b = b"B".to_vec();
    map.insert(&mut store, &a, &1, &10);
    map.insert(&mut store, &a, &2, &20);
    map.insert(&mut store, &b, &1, &30);
    map.remove_prefix(&mut store, &a);
    assert_eq!(map.get(&store, &a, &1), None);
    assert_eq!(map.get(&store, &a, &2), None);
    assert_eq!(map.get(&store, &b, &1), Some(30));
    assert_eq!(store.len(), 1);
}

#[test]
fn double_map_remove_prefix_leaves_other_items() {
    let mut store = MemoryStore::new();
    let map: StorageDoubleMap<u8, u8, u8> =
        StorageDoubleMap::new(b"Module", b"Double", DigestHasher::Twox128, Hasher::Blake2_256);
    let other: StorageDoubleMap<u8, u8, u8> =
        StorageDoubleMap::new(b"Module", b"Other", DigestHasher::Twox128, Hasher::Blake2_256);
    let value: StorageValue<u8> = StorageValue::new(b"Module", b"Value");
    map.insert(&mut store, &1, &1, &1);
    other.insert(&mut store, &1, &1, &2);
    value.set(&mut store, &3);
    map.remove_prefix(&mut store, &1);
    assert_eq!(map.get(&store, &1, &1), None);
    assert_eq!(other.get(&store, &1, &1), Some(2));
    assert_eq!(value.get(&store), Some(3));
    map.remove_prefix(&mut store, &1);
    assert_eq!(store.len(), 2);
}

#[test]
fn double_map_operations() {
    let mut store = MemoryStore::new();
    let map: StorageDoubleMap<u32, u32, Vec<u8>> =
        StorageDoubleMap::new(b"Module", b"Double", DigestHasher::Blake2_256, Hasher::Twox128);
    assert!(!map.contains_key(&store, &1, &2));
    map.insert(&mut store, &1, &2, &vec![7]);
    assert!(map.contains_key(&store, &1, &2));
    assert!(!map.contains_key(&store, &2, &1));
    assert_eq!(map.get(&store, &1, &2), Some(vec![7]));
    assert_eq!(map.get(&store, &2, &1), None);
    assert_eq!(map.take(&mut store, &1, &2), Some(vec![7]));
    assert_eq!(map.take(&mut store, &1, &2), None);
    map.insert(&mut store, &1, &2, &vec![8]);
    map.remove(&mut store, &1, &2);
    assert_eq!(store.len(), 0);
}

#[test]
fn double_map_key_starts_with_the_prefix_of_the_first_key() {
    let map: StorageDoubleMap<u32, u32, u8> =
        StorageDoubleMap::new(b"Module", b"Double", DigestHasher::Blake2_128, Hasher::Twox64Concat);
    let prefix = map.hashed_prefix_for(&5);
    assert_eq!(prefix.len(), 32 + 16);
    assert!(map.hashed_key_for(&5, &1).starts_with(&prefix));
    assert!(map.hashed_key_for(&5, &2).starts_with(&prefix));
    assert!(!map.hashed_key_for(&6, &1).starts_with(&prefix));
}

#[test]
fn prefixed_map_operations() {
    let mut store = MemoryStore::new();
    let map: StoragePrefixedMap<u32> = StoragePrefixedMap::new(b"Module", b"Raw");
    map.insert(&mut store, b"ab", &1);
    map.insert(&mut store, b"abc", &2);
    map.insert(&mut store, b"b", &3);
    map.insert(&mut store, b"", &4);
    assert!(map.contains_key(&store, b"ab"));
    assert_eq!(map.get(&store, b"ab"), Some(1));
    assert_eq!(map.get(&store, b""), Some(4));
    map.remove_prefix(&mut store, b"ab");
    assert_eq!(map.get(&store, b"ab"), None);
    assert_eq!(map.get(&store, b"abc"), None);
    assert_eq!(map.get(&store, b"b"), Some(3));
    assert_eq!(map.get(&store, b""), Some(4));
    assert_eq!(map.take(&mut store, b"b"), Some(3));
    assert_eq!(map.take(&mut store, b"b"), None);
    map.remove(&mut store, b"");
    assert_eq!(store.len(), 0);
}

#[test]
fn prefixed_map_remove_all_leaves_other_items() {
    let mut store = MemoryStore::new();
    let map: StoragePrefixedMap<u8> = StoragePrefixedMap::new(b"Module", b"Raw");
    let other: StoragePrefixedMap<u8> = StoragePrefixedMap::new(b"Module", b"Other");
    map.insert(&mut store, b"x", &1);
    map.insert(&mut store, b"", &2);
    other.insert(&mut store, b"x", &3);
    map.remove_all(&mut store);
    assert_eq!(map.get(&store, b"x"), None);
    assert_eq!(map.get(&store, b""), None);
    assert_eq!(other.get(&store, b"x"), Some(3));
    let mut key = item_prefix(b"Module", b"Other");
    key.extend_from_slice(b"x");
    assert_eq!(other.hashed_key_for(b"x"), key);
}

#[test]
fn entries_that_do_not_decode_in_double_and_prefixed_maps() {
    let mut store = MemoryStore::new();
    let double: StorageDoubleMap<u8, u8, u32> =
        StorageDoubleMap::new(b"Module", b"Double", DigestHasher::Twox128, Hasher::Twox128);
    assert_eq!(double.try_get(&store, &1, &2), Ok(None));
    double.insert(&mut store, &1, &2, &3);
    assert_eq!(double.try_get(&store, &1, &2), Ok(Some(3)));
    store.set(&double.hashed_key_for(&1, &2), &[1]);
    assert_eq!(double.try_get(&store, &1, &2), Err(DecodeError));
    assert_eq!(double.get(&store, &1, &2), None);
    let raw: StoragePrefixedMap<u32> = StoragePrefixedMap::new(b"Module", b"Raw");
    assert_eq!(raw.try_get(&store, b"k"), Ok(None));
    raw.insert(&mut store, b"k", &3);
    assert_eq!(raw.try_get(&store, b"k"), Ok(Some(3)));
    store.set(&raw.hashed_key_for(b"k"), &[1, 2, 3, 4, 5]);
    assert_eq!(raw.try_get(&store, b"k"), Err(DecodeError));
    assert_eq!(raw.get(&store, b"k"), None);
}

#[test]
fn items_declared_by_a_module() {
    let mut store = MemoryStore::new();
    let module = Module::new(b"Module");
    let value: StorageValue<u32> = module.value(b"Value");
    let map: StorageMap<u32, u32> = module.map(b"Map", Hasher::Twox64Concat);
    let linked: StorageLinkedMap<u32, u32> = module.linked_map(b"Linked", ConcatHasher::Twox64Concat);
    let double: StorageDoubleMap<u32, u32, u32> =
        module.double_map(b"Double", DigestHasher::Twox128, Hasher::Twox64Concat);
    let raw: StoragePrefixedMap<u32> = module.prefixed_map(b"Raw");
    assert_eq!(value.hashed_key(), item_prefix(b"Module", b"Value"));
    assert_eq!(linked.hashed_head_key(), item_prefix(b"Module", b"Linked"));
    assert!(map.hashed_key_for(&1).starts_with(&item_prefix(b"Module", b"Map")));
    assert!(double.hashed_key_for(&1, &2).starts_with(&item_prefix(b"Module", b"Double")));
    assert!(raw.hashed_key_for(b"k").starts_with(&item_prefix(b"Module", b"Raw")));
    value.set(&mut store, &1);
    map.insert(&mut store, &1, &2);
    assert_eq!(linked.insert(&mut store, &1, &3), Ok(()));
    double.insert(&mut store, &1, &1, &4);
    raw.insert(&mut store, b"k", &5);
    assert_eq!(value.get(&store), Some(1));
    assert_eq!(map.get(&store, &1), Some(2));
    assert_eq!(linked.get(&store, &1), Some(3));
    assert_eq!(double.get(&store, &1, &1), Some(4));
    assert_eq!(raw.get(&store, b"k"), Some(5));
    assert_eq!(store.len(), 6);
}
