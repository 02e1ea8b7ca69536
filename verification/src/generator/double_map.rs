//! A typed map with two keys. The final key of an entry holds the digest of
//! the first key before the material of the second, so that all entries of one
//! first key share a prefix and can be removed at once.

use core::marker::PhantomData;
use vstd::prelude::*;

use crate::codec::{decoded, encode, Codec, DecodeError};
use crate::hashing::{DigestHasher, Hasher};
use crate::key::{derive_key, derived_key, item_prefix_of};
use crate::store::{
    append_bytes, has_prefix, lemma_has_prefix_behind, to_bytes, without_prefix, Store,
};
use crate::top;
use crate::top::{is_model, stored};

verus! {

/// The descriptor of a stored map from `(K1, K2)` to `V`.
pub struct StorageDoubleMap<K1, K2, V> {
    /// The prefix of the module that owns the map.
    pub module_prefix: Vec<u8>,
    /// The prefix of the map within its module.
    pub item_prefix: Vec<u8>,
    /// How first keys become key material: a digest of fixed length.
    pub hasher1: DigestHasher,
    /// How second keys become key material.
    pub hasher2: Hasher,
    /// The types of keys and values.
    pub marker: PhantomData<(K1, K2, V)>,
}

impl<K1: Codec, K2: Codec, V: Codec> StorageDoubleMap<K1, K2, V> {
    /// The digest of the first key `k1`.
    pub open spec fn first_digest(&self, k1: K1::Model) -> Seq<u8> {
        self.hasher1.as_hasher().digest(K1::encoding(k1))
    }

    /// The prefix that the final keys of all entries of `k1` share.
    pub open spec fn prefix_of(&self, k1: K1::Model) -> Seq<u8> {
        item_prefix_of(self.module_prefix@, self.item_prefix@) + self.first_digest(k1)
    }

    /// The final key of the entry of `(k1, k2)`.
    pub open spec fn final_key(&self, k1: K1::Model, k2: K2::Model) -> Seq<u8> {
        derived_key(
            self.module_prefix@,
            self.item_prefix@,
            Some(self.first_digest(k1) + self.hasher2.hashed(K2::encoding(k2))),
        )
    }

    /// The final key of `(a, b)` starts with the prefix of `k1` exactly when
    /// the digests of `a` and `k1` are equal: the prefix of a first key reaches
    /// the entries of that key, and of those only whose digest collides with it.
    pub proof fn lemma_prefix_scope(&self, k1: K1::Model, a: K1::Model, b: K2::Model)
        ensures
            has_prefix(self.final_key(a, b), self.prefix_of(k1)) <==> self.first_digest(a)
                == self.first_digest(k1),
            has_prefix(self.final_key(k1, b), self.prefix_of(k1)),
    {
        let hasher = self.hasher1.as_hasher();
        let prefix = item_prefix_of(self.module_prefix@, self.item_prefix@);
        let second = self.hasher2.hashed(K2::encoding(b));
        hasher.lemma_digest_len(K1::encoding(a));
        hasher.lemma_digest_len(K1::encoding(k1));
        lemma_has_prefix_behind(prefix, self.first_digest(a) + second, self.first_digest(k1));
        assert((self.first_digest(a) + second).subrange(0, self.first_digest(a).len() as int)
            == self.first_digest(a));
        lemma_has_prefix_behind(prefix, self.first_digest(k1) + second, self.first_digest(k1));
        assert((self.first_digest(k1) + second).subrange(0, self.first_digest(k1).len() as int)
            == self.first_digest(k1));
    }

    /// Removing by the prefix of a first key keeps every entry whose key does
    /// not start with the item prefix: what lies outside the map stays.
    pub proof fn lemma_remove_prefix_keeps_others(
        &self,
        entries: Map<Seq<u8>, Seq<u8>>,
        k1: K1::Model,
        key: Seq<u8>,
    )
        requires
            !has_prefix(key, item_prefix_of(self.module_prefix@, self.item_prefix@)),
        ensures
            without_prefix(entries, self.prefix_of(k1)).contains_key(key) == entries.contains_key(
                key,
            ),
            entries.contains_key(key) ==> without_prefix(entries, self.prefix_of(k1))[key]
                == entries[key],
    {
        let item = item_prefix_of(self.module_prefix@, self.item_prefix@);
        let prefix = self.prefix_of(k1);
        if has_prefix(key, prefix) {
            assert(key.subrange(0, prefix.len() as int).subrange(0, item.len() as int)
                == key.subrange(0, item.len() as int));
            assert(prefix.subrange(0, item.len() as int) == item);
        }
    }

    /// Removing by the prefix of `k1` removes every entry of `k1` and keeps
    /// every entry of a first key with another digest as it was.
    pub proof fn lemma_remove_prefix_scope(
        &self,
        entries: Map<Seq<u8>, Seq<u8>>,
        k1: K1::Model,
        a: K1::Model,
        b: K2::Model,
    )
        ensures
            !without_prefix(entries, self.prefix_of(k1)).contains_key(self.final_key(k1, b)),
            self.first_digest(a) != self.first_digest(k1) ==> stored::<V>(
                without_prefix(entries, self.prefix_of(k1)),
                self.final_key(a, b),
            ) == stored::<V>(entries, self.final_key(a, b)),
    {
        self.lemma_prefix_scope(k1, a, b);
    }

    /// Describes the double map `item_prefix` of the module `module_prefix`.
    pub fn new(
        module_prefix: &[u8],
        item_prefix: &[u8],
        hasher1: DigestHasher,
        hasher2: Hasher,
    ) -> (r: Self)
        ensures
            r.module_prefix@ == module_prefix@,
            r.item_prefix@ == item_prefix@,
            r.hasher1 == hasher1,
            r.hasher2 == hasher2,
    {
        StorageDoubleMap {
            module_prefix: to_bytes(module_prefix),
            item_prefix: to_bytes(item_prefix),
            hasher1,
            hasher2,
            marker: PhantomData,
        }
    }

    /// Computes the prefix that the final keys of all entries of `k1` share.
    pub fn hashed_prefix_for(&self, k1: &K1) -> (r: Vec<u8>)
        ensures
            r@ == self.prefix_of(k1.model()),
    {
        let encoded = encode(k1);
        let digest = self.hasher1.hasher().hash(encoded.as_slice());
        derive_key(
            self.module_prefix.as_slice(),
            self.item_prefix.as_slice(),
            Some(digest.as_slice()),
        )
    }

    /// Computes the final key of the entry of `(k1, k2)`.
    pub fn hashed_key_for(&self, k1: &K1, k2: &K2) -> (r: Vec<u8>)
        ensures
            r@ == self.final_key(k1.model(), k2.model()),
    {
        let mut out = self.hashed_prefix_for(k1);
        let encoded = encode(k2);
        let second = self.hasher2.hash(encoded.as_slice());
        append_bytes(&mut out, second.as_slice());
        proof {
            let prefix = item_prefix_of(self.module_prefix@, self.item_prefix@);
            assert(prefix + self.first_digest(k1.model()) + second@ == prefix + (
            self.first_digest(k1.model()) + second@));
        }
        out
    }

    /// The value of `(k1, k2)`; `None` where it is absent or does not decode.
    pub fn get<S: Store>(&self, store: &S, k1: &K1, k2: &K2) -> (r: Option<V>)
        ensures
            is_model(r, stored::<V>(store@, self.final_key(k1.model(), k2.model()))),
    {
        let key = self.hashed_key_for(k1, k2);
        top::get::<S, V>(store, key.as_slice())
    }

    /// The value of `(k1, k2)`, telling an absent entry from one that does not
    /// decode.
    pub fn try_get<S: Store>(&self, store: &S, k1: &K1, k2: &K2) -> (r: Result<
        Option<V>,
        DecodeError,
    >)
        ensures
            match r {
                Ok(Some(v)) => store@.contains_key(self.final_key(k1.model(), k2.model()))
                    && decoded::<V>(store@[self.final_key(k1.model(), k2.model())]) == Some(
                    v.model(),
                ),
                Ok(None) => !store@.contains_key(self.final_key(k1.model(), k2.model())),
                Err(_) => store@.contains_key(self.final_key(k1.model(), k2.model()))
                    && decoded::<V>(store@[self.final_key(k1.model(), k2.model())]) is None,
            },
    {
        let key = self.hashed_key_for(k1, k2);
        top::try_get::<S, V>(store, key.as_slice())
    }

    /// Stores `value` as the value of `(k1, k2)`.
    pub fn insert<S: Store>(&self, store: &mut S, k1: &K1, k2: &K2, value: &V)
        ensures
            final(store)@ == old(store)@.insert(
                self.final_key(k1.model(), k2.model()),
                V::encoding(value.model()),
            ),
            stored::<V>(final(store)@, self.final_key(k1.model(), k2.model())) == Some(
                value.model(),
            ),
    {
        let key = self.hashed_key_for(k1, k2);
        top::put(store, key.as_slice(), value);
    }

    /// Removes the entry of `(k1, k2)`.
    pub fn remove<S: Store>(&self, store: &mut S, k1: &K1, k2: &K2)
        ensures
            final(store)@ == old(store)@.remove(self.final_key(k1.model(), k2.model())),
    {
        let key = self.hashed_key_for(k1, k2);
        top::kill(store, key.as_slice());
    }

    /// Removes the entry of `(k1, k2)` and returns what `get` gave of it.
    pub fn take<S: Store>(&self, store: &mut S, k1: &K1, k2: &K2) -> (r: Option<V>)
        ensures
            is_model(r, stored::<V>(old(store)@, self.final_key(k1.model(), k2.model()))),
            final(store)@ == old(store)@.remove(self.final_key(k1.model(), k2.model())),
    {
        let key = self.hashed_key_for(k1, k2);
        top::take::<S, V>(store, key.as_slice())
    }

    /// Whether `(k1, k2)` has an entry.
    pub fn contains_key<S: Store>(&self, store: &S, k1: &K1, k2: &K2) -> (r: bool)
        ensures
            r == store@.contains_key(self.final_key(k1.model(), k2.model())),
    {
        let key = self.hashed_key_for(k1, k2);
        top::is_present(store, key.as_slice())
    }

    /// Removes every entry of the first key `k1`, whatever its second key, by
    /// one removal of the prefix that their final keys share. Entries of a
    /// first key with another digest, and all entries outside the map, stay.
    pub fn remove_prefix<S: Store>(&self, store: &mut S, k1: &K1)
        ensures
            final(store)@ == without_prefix(old(store)@, self.prefix_of(k1.model())),
            forall|b: K2::Model|
                !final(store)@.contains_key(#[trigger] self.final_key(k1.model(), b)),
            forall|a: K1::Model, b: K2::Model|
                self.first_digest(a) != self.first_digest(k1.model()) ==> stored::<V>(
                    final(store)@,
                    #[trigger] self.final_key(a, b),
                ) == stored::<V>(old(store)@, self.final_key(a, b)),
    {
        let prefix = self.hashed_prefix_for(k1);
        top::kill_prefix(store, prefix.as_slice());
        proof {
            assert forall|b: K2::Model|
                !store@.contains_key(#[trigger] self.final_key(k1.model(), b)) by {
                self.lemma_remove_prefix_scope(old(store)@, k1.model(), k1.model(), b);
            }
            assert forall|a: K1::Model, b: K2::Model|
                self.first_digest(a) != self.first_digest(k1.model()) implies stored::<V>(
                store@,
                #[trigger] self.final_key(a, b),
            ) == stored::<V>(old(store)@, self.final_key(a, b)) by {
                self.lemma_remove_prefix_scope(old(store)@, k1.model(), a, b);
            }
        }
    }
}

} // verus!
