use runtime_storage::generator::linked_map::ConsistencyFault;
use runtime_storage::hashing::ConcatHasher;
use runtime_storage::key::item_prefix;
use runtime_storage::store::{MemoryStore, Store};
use runtime_storage::StorageLinkedMap;

fn keys(items: &Vec<(u32, u64)>) -> Vec<u32> {
    items.iter().map(|item| item.0).collect()
}

fn sample() -> StorageLinkedMap<u32, u64> {
    StorageLinkedMap::new(b"Module", b"Linked", ConcatHasher::Blake2_128Concat)
}

#[test]
fn linked_map_ordering_scenario() {
    let mut store = MemoryStore::new();
    let map = sample();
    assert_eq!(map.insert(&mut store, &1, &10), Ok(()));
    assert_eq!(map.insert(&mut store, &2, &20), Ok(()));
    assert_eq!(map.insert(&mut store, &3, &30), Ok(()));
    assert_eq!(map.enumerate(&store), Ok(vec![(3, 30), (2, 20), (1, 10)]));
    assert_eq!(map.remove(&mut store, &2), Ok(()));
    assert_eq!(map.enumerate(&store), Ok(vec![(3, 30), (1, 10)]));
    assert_eq!(map.remove(&mut store, &3), Ok(()));
    assert_eq!(map.enumerate(&store), Ok(vec![(1, 10)]));
    assert_eq!(map.head(&store), Ok(Some(map.hashed_key_for(&1))));
}

#[test]
fn empty_linked_map() {
    let mut store = MemoryStore::new();
    let map = sample();
    assert_eq!(map.enumerate(&store), Ok(vec![]));
    assert_eq!(map.head(&store), Ok(None));
    assert_eq!(map.get(&store, &1), None);
    assert!(!map.contains_key(&store, &1));
    assert_eq!(map.insert(&mut store, &1, &10), Ok(()));
    assert_eq!(map.remove(&mut store, &1), Ok(()));
    assert_eq!(map.enumerate(&store), Ok(vec![]));
    assert_eq!(map.head(&store), Ok(None));
    assert_eq!(store.len(), 0);
}

#[test]
fn remove_of_an_absent_key_is_a_no_op() {
    let mut store = MemoryStore::new();
    let map = sample();
    assert_eq!(map.remove(&mut store, &7), Ok(()));
    assert_eq!(map.remove(&mut store, &7), Ok(()));
    assert_eq!(store.len(), 0);
    assert_eq!(map.insert(&mut store, &1, &10), Ok(()));
    assert_eq!(map.insert(&mut store, &2, &20), Ok(()));
    let before = store.len();
    assert_eq!(map.remove(&mut store, &7), Ok(()));
    assert_eq!(map.remove(&mut store, &7), Ok(()));
    assert_eq!(store.len(), before);
    assert_eq!(map.enumerate(&store), Ok(vec![(2, 20), (1, 10)]));
    assert_eq!(map.remove(&mut store, &1), Ok(()));
    assert_eq!(map.remove(&mut store, &1), Ok(()));
    assert_eq!(map.enumerate(&store), Ok(vec![(2, 20)]));
}

#[test]
fn insert_of_a_present_key_keeps_its_place() {
    let mut store = MemoryStore::new();
    let map = sample();
    for k in 1u32..=4 {
        assert_eq!(map.insert(&mut store, &k, &(k as u64)), Ok(()));
    }
    assert_eq!(map.insert(&mut store, &2, &200), Ok(()));
    assert_eq!(map.insert(&mut store, &4, &400), Ok(()));
    assert_eq!(map.insert(&mut store, &1, &100), Ok(()));
    assert_eq!(map.enumerate(&store), Ok(vec![(4, 400), (3, 3), (2, 200), (1, 100)]));
    assert_eq!(map.get(&store, &2), Some(200));
}

#[test]
fn remove_of_first_middle_and_last() {
    let mut store = MemoryStore::new();
    let map = sample();
    for k in 1u32..=5 {
        assert_eq!(map.insert(&mut store, &k, &(k as u64)), Ok(()));
    }
    assert_eq!(map.remove(&mut store, &1), Ok(()));
    assert_eq!(keys(&map.enumerate(&store).unwrap()), vec![5, 4, 3, 2]);
    assert_eq!(map.remove(&mut store, &5), Ok(()));
    assert_eq!(keys(&map.enumerate(&store).unwrap()), vec![4, 3, 2]);
    assert_eq!(map.head(&store), Ok(Some(map.hashed_key_for(&4))));
    assert_eq!(map.remove(&mut store, &3), Ok(()));
    assert_eq!(keys(&map.enumerate(&store).unwrap()), vec![4, 2]);
    assert_eq!(map.insert(&mut store, &9, &9), Ok(()));
    assert_eq!(keys(&map.enumerate(&store).unwrap()), vec![9, 4, 2]);
}

#[test]
fn enumerate_yields_the_keys_present_each_once() {
    let mut store = MemoryStore::new();
    let map = sample();
    let mut present: Vec<u32> = Vec::new();
    let mut seed: u32 = 12345;
    for _ in 0..300 {
        seed = seed.wrapping_mul(1103515245).wrapping_add(12345);
        let k = (seed >> 16) % 12;
        if (seed >> 8) % 3 == 0 {
            assert_eq!(map.remove(&mut store, &k), Ok(()));
            present.retain(|x| *x != k);
        } else {
            assert_eq!(map.insert(&mut store, &k, &(seed as u64)), Ok(()));
            if !present.contains(&k) {
                present.insert(0, k);
            }
        }
        let listed = map.enumerate(&store).unwrap();
        assert_eq!(keys(&listed), present);
        for (k, v) in listed {
            assert_eq!(map.get(&store, &k), Some(v));
            assert!(map.contains_key(&store, &k));
        }
        let entries = if present.is_empty() { 0 } else { present.len() + 1 };
        assert_eq!(store.len(), entries);
    }
}

#[test]
fn take_returns_the_value_and_relinks() {
    let mut store = MemoryStore::new();
    let map = sample();
    for k in 1u32..=3 {
        assert_eq!(map.insert(&mut store, &k, &(k as u64 * 10)), Ok(()));
    }
    assert_eq!(map.take(&mut store, &2), Ok(Some(20)));
    assert_eq!(map.take(&mut store, &2), Ok(None));
    assert_eq!(map.enumerate(&store), Ok(vec![(3, 30), (1, 10)]));
}

#[test]
fn mutate_inserts_what_the_function_gives() {
    let mut store = MemoryStore::new();
    let map = sample();
    assert_eq!(map.mutate(&mut store, &1, |x| x + 1), Ok(()));
    assert_eq!(map.mutate(&mut store, &2, |x| x + 5), Ok(()));
    assert_eq!(map.mutate(&mut store, &1, |x| x + 1), Ok(()));
    assert_eq!(map.enumerate(&store), Ok(vec![(2, 5), (1, 2)]));
}

#[test]
fn mutate_to_removal_relinks() {
    let mut store = MemoryStore::new();
    let map = sample();
    for k in 1u32..=3 {
        assert_eq!(map.insert(&mut store, &k, &(k as u64)), Ok(()));
    }
    assert_eq!(map.mutate_exists(&mut store, &2, |_| None), Ok(()));
    assert_eq!(map.enumerate(&store), Ok(vec![(3, 3), (1, 1)]));
    assert_eq!(map.mutate_exists(&mut store, &3, |v| v.map(|x| x + 1)), Ok(()));
    assert_eq!(map.mutate_exists(&mut store, &7, |v| Some(v.unwrap_or(70))), Ok(()));
    assert_eq!(map.mutate_exists(&mut store, &8, |_| None), Ok(()));
    assert_eq!(map.enumerate(&store), Ok(vec![(7, 70), (3, 4), (1, 1)]));
}

#[test]
fn head_pointer_stands_under_the_item_prefix() {
    let mut store = MemoryStore::new();
    let map = sample();
    assert_eq!(map.hashed_head_key(), item_prefix(b"Module", b"Linked"));
    assert_eq!(map.insert(&mut store, &1, &10), Ok(()));
    assert!(store.get(&item_prefix(b"Module", b"Linked")).is_some());
    assert_eq!(map.read_key(&map.hashed_key_for(&1)), Some(1));
    assert_eq!(map.read_key(&map.hashed_head_key()), None);
    assert_eq!(map.read_key(b"short"), None);
}

#[test]
fn missing_entry_is_a_consistency_fault() {
    let mut store = MemoryStore::new();
    let map = sample();
    for k in 1u32..=3 {
        assert_eq!(map.insert(&mut store, &k, &(k as u64)), Ok(()));
    }
    store.remove(&map.hashed_key_for(&2));
    assert_eq!(map.enumerate(&store), Err(ConsistencyFault));
    let before = store.len();
    assert_eq!(map.remove(&mut store, &1), Err(ConsistencyFault));
    assert_eq!(map.remove(&mut store, &3), Err(ConsistencyFault));
    assert_eq!(map.take(&mut store, &3), Err(ConsistencyFault));
    assert_eq!(store.len(), before);
    assert_eq!(map.get(&store, &1), Some(1));
    assert_eq!(map.remove(&mut store, &2), Ok(()));
}

#[test]
fn missing_head_entry_is_a_consistency_fault() {
    let mut store = MemoryStore::new();
    let map = sample();
    assert_eq!(map.insert(&mut store, &1, &1), Ok(()));
    store.remove(&map.hashed_key_for(&1));
    assert_eq!(map.insert(&mut store, &2, &2), Err(ConsistencyFault));
    assert_eq!(map.enumerate(&store), Err(ConsistencyFault));
    assert_eq!(store.len(), 1);
}

#[test]
fn undecodable_entry_is_a_consistency_fault() {
    let mut store = MemoryStore::new();
    let map = sample();
    assert_eq!(map.insert(&mut store, &1, &1), Ok(()));
    assert_eq!(map.insert(&mut store, &2, &2), Ok(()));
    store.set(&map.hashed_key_for(&1), &[1, 2, 3]);
    assert_eq!(map.get(&store, &1), None);
    assert_eq!(map.insert(&mut store, &1, &5), Err(ConsistencyFault));
    assert_eq!(map.remove(&mut store, &1), Err(ConsistencyFault));
    assert_eq!(map.remove(&mut store, &2), Err(ConsistencyFault));
    assert_eq!(map.enumerate(&store), Err(ConsistencyFault));
    store.set(&map.hashed_head_key(), &[9]);
    assert_eq!(map.head(&store), Err(ConsistencyFault));
    assert_eq!(map.insert(&mut store, &3, &3), Err(ConsistencyFault));
}

#[test]
fn cycle_is_a_consistency_fault() {
    let mut store = MemoryStore::new();
    let map = sample();
    assert_eq!(map.insert(&mut store, &1, &1), Ok(()));
    assert_eq!(map.insert(&mut store, &2, &2), Ok(()));
    let first = store.get(&map.hashed_key_for(&2)).unwrap();
    let last = store.get(&map.hashed_key_for(&1)).unwrap();
    let mut looped = last[..8].to_vec();
    looped.extend_from_slice(&first[8..]);
    store.set(&map.hashed_key_for(&1), &looped);
    assert_eq!(map.enumerate(&store), Err(ConsistencyFault));
}

#[test]
fn two_linked_maps_do_not_meet() {
    let mut store = MemoryStore::new();
    let a: StorageLinkedMap<u8, u8> =
        StorageLinkedMap::new(b"Module", b"A", ConcatHasher::Twox64Concat);
    let b: StorageLinkedMap<u8, u8> =
        StorageLinkedMap::new(b"Module", b"B", ConcatHasher::Twox64Concat);
    assert_eq!(a.insert(&mut store, &1, &1), Ok(()));
    assert_eq!(b.insert(&mut store, &1, &2), Ok(()));
    assert_eq!(a.insert(&mut store, &2, &3), Ok(()));
    assert_eq!(a.enumerate(&store), Ok(vec![(2, 3), (1, 1)]));
    assert_eq!(b.enumerate(&store), Ok(vec![(1, 2)]));
    assert_eq!(a.remove(&mut store, &1), Ok(()));
    assert_eq!(b.enumerate(&store), Ok(vec![(1, 2)]));
}

#[test]
fn linked_map_with_sequences_as_keys_and_values() {
    let mut store = MemoryStore::new();
    let map: StorageLinkedMap<Vec<u8>, (Option<u32>, Vec<u16>)> =
        StorageLinkedMap::new(b"Module", b"Seq", ConcatHasher::Twox64Concat);
    assert_eq!(map.insert(&mut store, &vec![], &(None, vec![])), Ok(()));
    assert_eq!(map.insert(&mut store, &vec![1, 2], &(Some(5), vec![7, 8])), Ok(()));
    assert_eq!(
        map.enumerate(&store),
        Ok(vec![(vec![1, 2], (Some(5), vec![7, 8])), (vec![], (None, vec![]))])
    );
}
