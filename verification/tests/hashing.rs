use runtime_storage::hashing::{
    blake2_128, blake2_256, twox_128, twox_64, ConcatHasher, DigestHasher, Hasher,
};
use runtime_storage::key::{derive_key, item_prefix, material_for};

fn hex(bytes: &[u8]) -> String {
    let mut out = String::new();
    for b in bytes {
        out.push_str(&format!("{:02x}", b));
    }
    out
}

#[test]
fn twox_64_of_empty_input() {
    assert_eq!(hex(&twox_64(b"")), "99e9d85137db46ef");
}

#[test]
fn twox_128_of_empty_input() {
    assert_eq!(hex(&twox_128(b"")), "99e9d85137db46ef4bbea33613baafd5");
}

#[test]
fn twox_128_of_names() {
    assert_eq!(hex(&twox_128(b"System")), "26aa394eea5630e07c48ae0c9558cef7");
    assert_eq!(hex(&twox_128(b"Account")), "b99d880ec681799c0cf30e8886371da9");
}

#[test]
fn blake2_256_of_empty_input() {
    assert_eq!(
        hex(&blake2_256(b"")),
        "0e5751c026e543b2e8ab2eb06099daa1d1e5df47778f7787faab45cdf12fe3a8"
    );
}

#[test]
fn blake2_128_of_empty_input() {
    assert_eq!(hex(&blake2_128(b"")), "cae66941d9efbd404e4d88758ea67670");
}

#[test]
fn digests_have_fixed_length() {
    for data in [&b""[..], &b"a"[..], &[0u8; 300][..]] {
        assert_eq!(twox_64(data).len(), 8);
        assert_eq!(twox_128(data).len(), 16);
        assert_eq!(blake2_128(data).len(), 16);
        assert_eq!(blake2_256(data).len(), 32);
    }
}

#[test]
fn digests_depend_on_the_data() {
    assert_ne!(twox_64(b"a"), twox_64(b"b"));
    assert_ne!(twox_128(b"a"), twox_128(b"b"));
    assert_ne!(blake2_128(b"a"), blake2_128(b"b"));
    assert_ne!(blake2_256(b"a"), blake2_256(b"b"));
    assert_ne!(blake2_256(&[7u8; 32]), vec![7u8; 32]);
    assert_ne!(twox_64(&[7u8; 8]), vec![7u8; 8]);
}

#[test]
fn hashers_give_the_key_material() {
    let data = b"key";
    let mut twox_concat = twox_64(data);
    twox_concat.extend_from_slice(data);
    assert_eq!(Hasher::Twox64Concat.hash(data), twox_concat);
    let mut blake_concat = blake2_128(data);
    blake_concat.extend_from_slice(data);
    assert_eq!(Hasher::Blake2_128Concat.hash(data), blake_concat);
    assert_eq!(Hasher::Twox128.hash(data), twox_128(data));
    assert_eq!(Hasher::Blake2_128.hash(data), blake2_128(data));
    assert_eq!(Hasher::Blake2_256.hash(data), blake2_256(data));
}

#[test]
fn hasher_properties() {
    assert!(Hasher::Twox64Concat.is_transparent());
    assert!(Hasher::Blake2_128Concat.is_transparent());
    assert!(!Hasher::Twox128.is_transparent());
    assert!(!Hasher::Blake2_128.is_transparent());
    assert!(!Hasher::Blake2_256.is_transparent());
    assert_eq!(Hasher::Twox64Concat.digest_size(), 8);
    assert_eq!(Hasher::Blake2_128Concat.digest_size(), 16);
    assert_eq!(Hasher::Twox128.digest_size(), 16);
    assert_eq!(Hasher::Blake2_128.digest_size(), 16);
    assert_eq!(Hasher::Blake2_256.digest_size(), 32);
    assert_eq!(ConcatHasher::Twox64Concat.hasher(), Hasher::Twox64Concat);
    assert_eq!(ConcatHasher::Blake2_128Concat.hasher(), Hasher::Blake2_128Concat);
    assert_eq!(DigestHasher::Twox128.hasher(), Hasher::Twox128);
    assert_eq!(DigestHasher::Blake2_128.hasher(), Hasher::Blake2_128);
    assert_eq!(DigestHasher::Blake2_256.hasher(), Hasher::Blake2_256);
}

#[test]
fn item_prefix_is_two_digests() {
    assert_eq!(
        hex(&item_prefix(b"System", b"Account")),
        "26aa394eea5630e07c48ae0c9558cef7b99d880ec681799c0cf30e8886371da9"
    );
}

#[test]
fn derive_key_appends_the_key_material() {
    let prefix = item_prefix(b"Module", b"Item");
    assert_eq!(derive_key(b"Module", b"Item", None), prefix);
    assert_eq!(derive_key(b"Module", b"Item", Some(&[])), prefix);
    let mut with_material = prefix.clone();
    with_material.extend_from_slice(&[1, 2, 3]);
    assert_eq!(derive_key(b"Module", b"Item", Some(&[1, 2, 3])), with_material);
}

#[test]
fn derived_keys_of_distinct_triples_are_distinct() {
    let modules: [&[u8]; 3] = [b"Balances", b"System", b""];
    let items: [&[u8]; 3] = [b"Account", b"Total", b""];
    let mut keys: Vec<Vec<u8>> = Vec::new();
    for m in modules {
        for i in items {
            for k in 0u32..50 {
                let material = material_for(&Hasher::Twox64Concat, &k);
                keys.push(derive_key(m, i, Some(&material)));
            }
            keys.push(derive_key(m, i, None));
        }
    }
    let count = keys.len();
    keys.sort();
    keys.dedup();
    assert_eq!(keys.len(), count);
}

#[test]
fn material_of_a_typed_key() {
    let material = material_for(&Hasher::Twox64Concat, &1u32);
    let mut expected = twox_64(&[1, 0, 0, 0]);
    expected.extend_from_slice(&[1, 0, 0, 0]);
    assert_eq!(material, expected);
}
