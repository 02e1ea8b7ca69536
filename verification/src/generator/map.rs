//! A typed map: one entry per key, each under its own final key. A map cannot
//! be enumerated; the store offers no scan over hashed keys.

use core::marker::PhantomData;
use vstd::prelude::*;

use crate::codec::{decoded, Codec, DecodeError, DefaultValue};
use crate::hashing::Hasher;
use crate::key::{derive_key, derived_key, key_material, material_for};
use crate::store::Store;
use crate::top;
use crate::top::{is_model, stored, stored_or_default};

verus! {

/// The descriptor of a stored map from `K` to `V`.
pub struct StorageMap<K, V> {
    /// The prefix of the module that owns the map.
    pub module_prefix: Vec<u8>,
    /// The prefix of the map within its module.
    pub item_prefix: Vec<u8>,
    /// How keys become key material.
    pub hasher: Hasher,
    /// The types of keys and values.
    pub marker: PhantomData<(K, V)>,
}

impl<K: Codec, V: Codec> StorageMap<K, V> {
    /// The final key of the entry of `k`.
    pub open spec fn final_key(&self, k: K::Model) -> Seq<u8> {
        derived_key(
            self.module_prefix@,
            self.item_prefix@,
            Some(key_material::<K>(self.hasher, k)),
        )
    }

    /// Describes the map `item_prefix` of the module `module_prefix`.
    pub fn new(module_prefix: &[u8], item_prefix: &[u8], hasher: Hasher) -> (r: Self)
        ensures
            r.module_prefix@ == module_prefix@,
            r.item_prefix@ == item_prefix@,
            r.hasher == hasher,
    {
        StorageMap {
            module_prefix: crate::store::to_bytes(module_prefix),
            item_prefix: crate::store::to_bytes(item_prefix),
            hasher,
            marker: PhantomData,
        }
    }

    /// Computes the final key of the entry of `k`.
    pub fn hashed_key_for(&self, k: &K) -> (r: Vec<u8>)
        ensures
            r@ == self.final_key(k.model()),
    {
        let material = material_for(&self.hasher, k);
        derive_key(
            self.module_prefix.as_slice(),
            self.item_prefix.as_slice(),
            Some(material.as_slice()),
        )
    }

    /// The value of `k`; `None` where it is absent or does not decode.
    pub fn get<S: Store>(&self, store: &S, k: &K) -> (r: Option<V>)
        ensures
            is_model(r, stored::<V>(store@, self.final_key(k.model()))),
    {
        let key = self.hashed_key_for(k);
        top::get::<S, V>(store, key.as_slice())
    }

    /// The value of `k`, telling an absent entry from one that does not decode.
    pub fn try_get<S: Store>(&self, store: &S, k: &K) -> (r: Result<Option<V>, DecodeError>)
        ensures
            match r {
                Ok(Some(v)) => store@.contains_key(self.final_key(k.model())) && decoded::<V>(
                    store@[self.final_key(k.model())],
                ) == Some(v.model()),
                Ok(None) => !store@.contains_key(self.final_key(k.model())),
                Err(_) => store@.contains_key(self.final_key(k.model())) && decoded::<V>(
                    store@[self.final_key(k.model())],
                ) is None,
            },
    {
        let key = self.hashed_key_for(k);
        top::try_get::<S, V>(store, key.as_slice())
    }

    /// Stores `value` as the value of `k`.
    pub fn insert<S: Store>(&self, store: &mut S, k: &K, value: &V)
        ensures
            final(store)@ == old(store)@.insert(
                self.final_key(k.model()),
                V::encoding(value.model()),
            ),
            stored::<V>(final(store)@, self.final_key(k.model())) == Some(value.model()),
    {
        let key = self.hashed_key_for(k);
        top::put(store, key.as_slice(), value);
    }

    /// Removes the entry of `k`.
    pub fn remove<S: Store>(&self, store: &mut S, k: &K)
        ensures
            final(store)@ == old(store)@.remove(self.final_key(k.model())),
    {
        let key = self.hashed_key_for(k);
        top::kill(store, key.as_slice());
    }

    /// Removes the entry of `k` and returns what `get` gave of it.
    pub fn take<S: Store>(&self, store: &mut S, k: &K) -> (r: Option<V>)
        ensures
            is_model(r, stored::<V>(old(store)@, self.final_key(k.model()))),
            final(store)@ == old(store)@.remove(self.final_key(k.model())),
    {
        let key = self.hashed_key_for(k);
        top::take::<S, V>(store, key.as_slice())
    }

    /// Whether `k` has an entry.
    pub fn contains_key<S: Store>(&self, store: &S, k: &K) -> (r: bool)
        ensures
            r == store@.contains_key(self.final_key(k.model())),
    {
        let key = self.hashed_key_for(k);
        top::is_present(store, key.as_slice())
    }
}

impl<K: Codec, V: DefaultValue> StorageMap<K, V> {
    /// Replaces the value of `k` by what `f` makes of it, the default value
    /// standing in where `get` gives none.
    pub fn mutate<S: Store, F: FnOnce(V) -> V>(&self, store: &mut S, k: &K, f: F)
        requires
            forall|v: V|
                v.model() == stored_or_default::<V>(old(store)@, self.final_key(k.model()))
                    ==> call_requires(f, (v,)),
        ensures
            exists|before: V, after: V|
                {
                    &&& before.model() == stored_or_default::<V>(
                        old(store)@,
                        self.final_key(k.model()),
                    )
                    &&& call_ensures(f, (before,), after)
                    &&& final(store)@ == old(store)@.insert(
                        self.final_key(k.model()),
                        V::encoding(after.model()),
                    )
                },
    {
        let key = self.hashed_key_for(k);
        let before = top::get_or_default::<S, V>(store, key.as_slice());
        let ghost before_value = before;
        let after = f(before);
        top::put(store, key.as_slice(), &after);
        assert(call_ensures(f, (before_value,), after));
    }
}

} // verus!
