//! The key codec: how a module, an item and a key become the final key under
//! which an entry is stored.
//!
//! A final key is the 16-byte fast hash of the module prefix, the 16-byte fast
//! hash of the item prefix, and behind these 32 bytes the key material, if any.

use vstd::prelude::*;

use crate::codec::{lemma_encoding_injective, Codec};
use crate::hashing::{lemma_twox_128_len, twox_128, twox_128_of, Hasher};
use crate::store::{append_bytes, has_prefix, lemma_concat_has_prefix};

verus! {

/// The 32 bytes with which every final key of an item starts.
pub open spec fn item_prefix_of(module: Seq<u8>, item: Seq<u8>) -> Seq<u8> {
    twox_128_of(module) + twox_128_of(item)
}

/// The bytes that key material contributes: none where there is no material.
pub open spec fn material_bytes(material: Option<Seq<u8>>) -> Seq<u8> {
    match material {
        Some(bytes) => bytes,
        None => Seq::empty(),
    }
}

/// The final key of `material` in the item `item` of the module `module`.
pub open spec fn derived_key(module: Seq<u8>, item: Seq<u8>, material: Option<Seq<u8>>) -> Seq<
    u8,
> {
    item_prefix_of(module, item) + material_bytes(material)
}

/// The key material that `hasher` makes of the key `k`.
pub open spec fn key_material<K: Codec>(hasher: Hasher, k: K::Model) -> Seq<u8> {
    hasher.hashed(K::encoding(k))
}

/// An item prefix is 32 bytes long.
pub proof fn lemma_item_prefix_len(module: Seq<u8>, item: Seq<u8>)
    ensures
        item_prefix_of(module, item).len() == 32,
{
    lemma_twox_128_len(module);
    lemma_twox_128_len(item);
}

/// Two final keys are equal exactly when the hashes of the two module prefixes
/// are equal, the hashes of the two item prefixes are equal, and the key
/// material is equal byte for byte. Distinct triples share a final key only
/// where a hash collides.
pub proof fn lemma_derived_key_equal(
    module_a: Seq<u8>,
    item_a: Seq<u8>,
    material_a: Option<Seq<u8>>,
    module_b: Seq<u8>,
    item_b: Seq<u8>,
    material_b: Option<Seq<u8>>,
)
    ensures
        derived_key(module_a, item_a, material_a) == derived_key(module_b, item_b, material_b)
            <==> {
            &&& twox_128_of(module_a) == twox_128_of(module_b)
            &&& twox_128_of(item_a) == twox_128_of(item_b)
            &&& material_bytes(material_a) == material_bytes(material_b)
        },
{
    lemma_twox_128_len(module_a);
    lemma_twox_128_len(module_b);
    lemma_twox_128_len(item_a);
    lemma_twox_128_len(item_b);
    let a = derived_key(module_a, item_a, material_a);
    let b = derived_key(module_b, item_b, material_b);
    assert(a.subrange(0, 16) == twox_128_of(module_a));
    assert(b.subrange(0, 16) == twox_128_of(module_b));
    assert(a.subrange(16, 32) == twox_128_of(item_a));
    assert(b.subrange(16, 32) == twox_128_of(item_b));
    assert(a.skip(32) == material_bytes(material_a));
    assert(b.skip(32) == material_bytes(material_b));
}

/// The key material of two keys is equal exactly when their digests are equal
/// and, for a `Concat` hasher, the keys are equal.
pub proof fn lemma_key_material_equal<K: Codec>(hasher: Hasher, a: K::Model, b: K::Model)
    requires
        K::valid(a),
        K::valid(b),
    ensures
        key_material::<K>(hasher, a) == key_material::<K>(hasher, b) <==> hasher.digest(
            K::encoding(a),
        ) == hasher.digest(K::encoding(b)) && (hasher.transparent() ==> a == b),
{
    hasher.lemma_hashed_equal(K::encoding(a), K::encoding(b));
    if K::encoding(a) == K::encoding(b) {
        lemma_encoding_injective::<K>(a, b);
    }
}

/// Under a `Concat` hasher, distinct keys of one item have distinct final keys.
pub proof fn lemma_final_keys_distinct<K: Codec>(
    module: Seq<u8>,
    item: Seq<u8>,
    hasher: Hasher,
    a: K::Model,
    b: K::Model,
)
    requires
        K::valid(a),
        K::valid(b),
        hasher.transparent(),
        a != b,
    ensures
        derived_key(module, item, Some(key_material::<K>(hasher, a))) != derived_key(
            module,
            item,
            Some(key_material::<K>(hasher, b)),
        ),
{
    lemma_key_material_equal::<K>(hasher, a, b);
    lemma_derived_key_equal(
        module,
        item,
        Some(key_material::<K>(hasher, a)),
        module,
        item,
        Some(key_material::<K>(hasher, b)),
    );
}

/// A final key with key material differs from the final key without, which is
/// the item prefix itself: hashed key material is never empty.
pub proof fn lemma_entry_key_is_not_prefix(
    module: Seq<u8>,
    item: Seq<u8>,
    hasher: Hasher,
    data: Seq<u8>,
)
    ensures
        derived_key(module, item, Some(hasher.hashed(data))) != derived_key(module, item, None),
        has_prefix(derived_key(module, item, Some(hasher.hashed(data))), item_prefix_of(module, item)),
{
    hasher.lemma_digest_len(data);
    lemma_item_prefix_len(module, item);
    lemma_concat_has_prefix(item_prefix_of(module, item), hasher.hashed(data));
}

/// Computes the 32 bytes with which every final key of an item starts.
pub fn item_prefix(module: &[u8], item: &[u8]) -> (r: Vec<u8>)
    ensures
        r@ == item_prefix_of(module@, item@),
        r@.len() == 32,
{
    let mut out = twox_128(module);
    let mut second = twox_128(item);
    out.append(&mut second);
    out
}

/// Derives the final key of `key_material` in an item of a module.
pub fn derive_key(module_prefix: &[u8], item_prefix: &[u8], key_material: Option<&[u8]>) -> (r:
    Vec<u8>)
    ensures
        r@ == derived_key(
            module_prefix@,
            item_prefix@,
            match key_material {
                Some(bytes) => Some(bytes@),
                None => None,
            },
        ),
        r@.len() >= 32,
{
    let mut out = self::item_prefix(module_prefix, item_prefix);
    match key_material {
        Some(bytes) => {
            append_bytes(&mut out, bytes);
        },
        None => {
            assert(out@ + Seq::<u8>::empty() == out@);
        },
    }
    out
}

/// Makes the key material of the key `k` with `hasher`.
pub fn material_for<K: Codec>(hasher: &Hasher, k: &K) -> (r: Vec<u8>)
    ensures
        r@ == key_material::<K>(*hasher, k.model()),
{
    let encoded = crate::codec::encode(k);
    hasher.hash(encoded.as_slice())
}

} // verus!
