use runtime_storage::codec::DecodeError;
use runtime_storage::hashing::Hasher;
use runtime_storage::store::{append_bytes, bytes_eq, starts_with, to_bytes, MemoryStore, Store};
use runtime_storage::{hashed, top, top_hashed, unhashed};

#[test]
fn byte_helpers() {
    assert!(bytes_eq(b"abc", b"abc"));
    assert!(!bytes_eq(b"abc", b"abd"));
    assert!(!bytes_eq(b"abc", b"ab"));
    assert!(bytes_eq(b"", b""));
    assert!(starts_with(b"abc", b"ab"));
    assert!(starts_with(b"abc", b""));
    assert!(starts_with(b"abc", b"abc"));
    assert!(!starts_with(b"abc", b"abcd"));
    assert!(!starts_with(b"abc", b"b"));
    assert_eq!(to_bytes(b"xyz"), b"xyz".to_vec());
    let mut out = vec![1u8];
    append_bytes(&mut out, &[2, 3]);
    assert_eq!(out, vec![1, 2, 3]);
}

#[test]
fn memory_store_get_set_remove() {
    let mut store = MemoryStore::new();
    assert_eq!(store.len(), 0);
    assert_eq!(store.get(b"a"), None);
    store.set(b"a", b"1");
    store.set(b"b", b"2");
    assert_eq!(store.get(b"a"), Some(b"1".to_vec()));
    assert_eq!(store.get(b"b"), Some(b"2".to_vec()));
    assert_eq!(store.len(), 2);
    store.set(b"a", b"3");
    assert_eq!(store.get(b"a"), Some(b"3".to_vec()));
    assert_eq!(store.len(), 2);
    store.remove(b"a");
    assert_eq!(store.get(b"a"), None);
    assert_eq!(store.get(b"b"), Some(b"2".to_vec()));
    assert_eq!(store.len(), 1);
    store.remove(b"a");
    assert_eq!(store.len(), 1);
}

#[test]
fn memory_store_remove_prefix() {
    let mut store = MemoryStore::new();
    store.set(b"ab", b"1");
    store.set(b"abc", b"2");
    store.set(b"a", b"3");
    store.set(b"b", b"4");
    store.remove_prefix(b"ab");
    assert_eq!(store.get(b"ab"), None);
    assert_eq!(store.get(b"abc"), None);
    assert_eq!(store.get(b"a"), Some(b"3".to_vec()));
    assert_eq!(store.get(b"b"), Some(b"4".to_vec()));
    store.remove_prefix(b"");
    assert_eq!(store.len(), 0);
}

#[test]
fn typed_access_under_raw_keys() {
    let mut store = MemoryStore::new();
    assert_eq!(top::get::<MemoryStore, u32>(&store, b"k"), None);
    assert_eq!(top::get_or_default::<MemoryStore, u32>(&store, b"k"), 0);
    assert!(!top::is_present(&store, b"k"));
    top::put(&mut store, b"k", &5u32);
    assert!(top::is_present(&store, b"k"));
    assert_eq!(top::get::<MemoryStore, u32>(&store, b"k"), Some(5));
    assert_eq!(top::get_raw(&store, b"k"), Some(vec![5, 0, 0, 0]));
    assert_eq!(top::try_get::<MemoryStore, u32>(&store, b"k"), Ok(Some(5)));
    assert_eq!(top::try_get::<MemoryStore, u32>(&store, b"other"), Ok(None));
    assert_eq!(top::take::<MemoryStore, u32>(&mut store, b"k"), Some(5));
    assert_eq!(top::take::<MemoryStore, u32>(&mut store, b"k"), None);
    top::put_raw(&mut store, b"k", &[1, 2]);
    assert_eq!(top::get::<MemoryStore, u32>(&store, b"k"), None);
    assert_eq!(top::get_or_default::<MemoryStore, u32>(&store, b"k"), 0);
    assert_eq!(top::try_get::<MemoryStore, u32>(&store, b"k"), Err(DecodeError));
    top::kill(&mut store, b"k");
    assert!(!top::is_present(&store, b"k"));
}

#[test]
fn kill_prefix_removes_what_starts_with_it() {
    let mut store = MemoryStore::new();
    top::put(&mut store, b"pre:a", &1u8);
    top::put(&mut store, b"pre:b", &2u8);
    top::put(&mut store, b"other", &3u8);
    top::kill_prefix(&mut store, b"pre:");
    assert_eq!(top::get::<MemoryStore, u8>(&store, b"pre:a"), None);
    assert_eq!(top::get::<MemoryStore, u8>(&store, b"pre:b"), None);
    assert_eq!(top::get::<MemoryStore, u8>(&store, b"other"), Some(3));
}

#[test]
fn typed_access_under_hashed_keys() {
    let mut store = MemoryStore::new();
    let hasher = Hasher::Blake2_256;
    assert_eq!(top_hashed::get::<MemoryStore, u64>(&store, &hasher, b"k"), None);
    assert_eq!(top_hashed::get_or_default::<MemoryStore, u64>(&store, &hasher, b"k"), 0);
    top_hashed::put(&mut store, &hasher, b"k", &9u64);
    assert!(top_hashed::is_present(&store, &hasher, b"k"));
    assert_eq!(top_hashed::get::<MemoryStore, u64>(&store, &hasher, b"k"), Some(9));
    assert_eq!(top::get::<MemoryStore, u64>(&store, &hasher.hash(b"k")), Some(9));
    assert_eq!(top::get::<MemoryStore, u64>(&store, b"k"), None);
    assert_eq!(
        top_hashed::get_raw(&store, &hasher, b"k"),
        Some(vec![9, 0, 0, 0, 0, 0, 0, 0])
    );
    assert_eq!(top_hashed::take::<MemoryStore, u64>(&mut store, &hasher, b"k"), Some(9));
    assert!(!top_hashed::is_present(&store, &hasher, b"k"));
    top_hashed::put_raw(&mut store, &hasher, b"k", &[1]);
    assert_eq!(top_hashed::get_raw(&store, &hasher, b"k"), Some(vec![1]));
    top_hashed::kill(&mut store, &hasher, b"k");
    assert_eq!(store.len(), 0);
}

#[test]
fn former_names_are_the_same_functions() {
    let mut store = MemoryStore::new();
    unhashed::put(&mut store, b"k", &5u32);
    assert_eq!(top::get::<MemoryStore, u32>(&store, b"k"), Some(5));
    hashed::put(&mut store, &Hasher::Twox128, b"k", &6u32);
    assert_eq!(top_hashed::get::<MemoryStore, u32>(&store, &Hasher::Twox128, b"k"), Some(6));
    assert_eq!(hashed::get::<MemoryStore, u32>(&store, &Hasher::Twox128, b"k"), Some(6));
    assert_eq!(unhashed::get::<MemoryStore, u32>(&store, b"k"), Some(5));
}
