//! A map over raw keys: the caller's bytes stand behind the item prefix as
//! they are. Entries whose raw keys share a beginning can be removed at once.

use core::marker::PhantomData;
use vstd::prelude::*;

use crate::codec::{decoded, Codec, DecodeError};
use crate::key::{derive_key, derived_key, item_prefix_of};
use crate::store::{has_prefix, lemma_has_prefix_behind, to_bytes, without_prefix, Store};
use crate::top;
use crate::top::{is_model, stored};

verus! {

/// The descriptor of a stored map from raw keys to `V`.
pub struct StoragePrefixedMap<V> {
    /// The prefix of the module that owns the map.
    pub module_prefix: Vec<u8>,
    /// The prefix of the map within its module.
    pub item_prefix: Vec<u8>,
    /// The type of the values.
    pub marker: PhantomData<V>,
}

impl<V: Codec> StoragePrefixedMap<V> {
    /// The final key of the entry of the raw key `raw`.
    pub open spec fn final_key(&self, raw: Seq<u8>) -> Seq<u8> {
        derived_key(self.module_prefix@, self.item_prefix@, Some(raw))
    }

    /// The final key of `raw` starts with the final key of `partial` exactly
    /// when `raw` starts with `partial`.
    pub proof fn lemma_prefix_scope(&self, partial: Seq<u8>, raw: Seq<u8>)
        ensures
            has_prefix(self.final_key(raw), self.final_key(partial)) <==> has_prefix(raw, partial),
    {
        lemma_has_prefix_behind(
            item_prefix_of(self.module_prefix@, self.item_prefix@),
            raw,
            partial,
        );
    }

    /// Describes the map `item_prefix` of the module `module_prefix`.
    pub fn new(module_prefix: &[u8], item_prefix: &[u8]) -> (r: Self)
        ensures
            r.module_prefix@ == module_prefix@,
            r.item_prefix@ == item_prefix@,
    {
        StoragePrefixedMap {
            module_prefix: to_bytes(module_prefix),
            item_prefix: to_bytes(item_prefix),
            marker: PhantomData,
        }
    }

    /// Computes the final key of the entry of the raw key `raw`.
    pub fn hashed_key_for(&self, raw: &[u8]) -> (r: Vec<u8>)
        ensures
            r@ == self.final_key(raw@),
    {
        derive_key(self.module_prefix.as_slice(), self.item_prefix.as_slice(), Some(raw))
    }

    /// The value of `raw`; `None` where it is absent or does not decode.
    pub fn get<S: Store>(&self, store: &S, raw: &[u8]) -> (r: Option<V>)
        ensures
            is_model(r, stored::<V>(store@, self.final_key(raw@))),
    {
        let key = self.hashed_key_for(raw);
        top::get::<S, V>(store, key.as_slice())
    }

    /// The value of `raw`, telling an absent entry from one that does not decode.
    pub fn try_get<S: Store>(&self, store: &S, raw: &[u8]) -> (r: Result<Option<V>, DecodeError>)
        ensures
            match r {
                Ok(Some(v)) => store@.contains_key(self.final_key(raw@)) && decoded::<V>(
                    store@[self.final_key(raw@)],
                ) == Some(v.model()),
                Ok(None) => !store@.contains_key(self.final_key(raw@)),
                Err(_) => store@.contains_key(self.final_key(raw@)) && decoded::<V>(
                    store@[self.final_key(raw@)],
                ) is None,
            },
    {
        let key = self.hashed_key_for(raw);
        top::try_get::<S, V>(store, key.as_slice())
    }

    /// Stores `value` as the value of `raw`.
    pub fn insert<S: Store>(&self, store: &mut S, raw: &[u8], value: &V)
        ensures
            final(store)@ == old(store)@.insert(self.final_key(raw@), V::encoding(value.model())),
            stored::<V>(final(store)@, self.final_key(raw@)) == Some(value.model()),
    {
        let key = self.hashed_key_for(raw);
        top::put(store, key.as_slice(), value);
    }

    /// Removes the entry of `raw`.
    pub fn remove<S: Store>(&self, store: &mut S, raw: &[u8])
        ensures
            final(store)@ == old(store)@.remove(self.final_key(raw@)),
    {
        let key = self.hashed_key_for(raw);
        top::kill(store, key.as_slice());
    }

    /// Removes the entry of `raw` and returns what `get` gave of it.
    pub fn take<S: Store>(&self, store: &mut S, raw: &[u8]) -> (r: Option<V>)
        ensures
            is_model(r, stored::<V>(old(store)@, self.final_key(raw@))),
            final(store)@ == old(store)@.remove(self.final_key(raw@)),
    {
        let key = self.hashed_key_for(raw);
        top::take::<S, V>(store, key.as_slice())
    }

    /// Whether `raw` has an entry.
    pub fn contains_key<S: Store>(&self, store: &S, raw: &[u8]) -> (r: bool)
        ensures
            r == store@.contains_key(self.final_key(raw@)),
    {
        let key = self.hashed_key_for(raw);
        top::is_present(store, key.as_slice())
    }

    /// Removes every entry whose raw key starts with `partial`, and no other.
    pub fn remove_prefix<S: Store>(&self, store: &mut S, partial: &[u8])
        ensures
            final(store)@ == without_prefix(old(store)@, self.final_key(partial@)),
            forall|raw: Seq<u8>|
                final(store)@.contains_key(#[trigger] self.final_key(raw)) == (old(
                    store,
                )@.contains_key(self.final_key(raw)) && !has_prefix(raw, partial@)),
            forall|raw: Seq<u8>|
                !has_prefix(raw, partial@) ==> stored::<V>(
                    final(store)@,
                    #[trigger] self.final_key(raw),
                ) == stored::<V>(old(store)@, self.final_key(raw)),
    {
        let key = self.hashed_key_for(partial);
        top::kill_prefix(store, key.as_slice());
        proof {
            assert forall|raw: Seq<u8>|
                store@.contains_key(#[trigger] self.final_key(raw)) == (old(
                    store,
                )@.contains_key(self.final_key(raw)) && !has_prefix(raw, partial@)) by {
                self.lemma_prefix_scope(partial@, raw);
            }
            assert forall|raw: Seq<u8>| !has_prefix(raw, partial@) implies stored::<V>(
                store@,
                #[trigger] self.final_key(raw),
            ) == stored::<V>(old(store)@, self.final_key(raw)) by {
                self.lemma_prefix_scope(partial@, raw);
            }
        }
    }

    /// Removes every entry of the map.
    pub fn remove_all<S: Store>(&self, store: &mut S)
        ensures
            final(store)@ == without_prefix(
                old(store)@,
                item_prefix_of(self.module_prefix@, self.item_prefix@),
            ),
            forall|raw: Seq<u8>| !final(store)@.contains_key(#[trigger] self.final_key(raw)),
    {
        let key = derive_key(self.module_prefix.as_slice(), self.item_prefix.as_slice(), None);
        let ghost item = item_prefix_of(self.module_prefix@, self.item_prefix@);
        assert(item + Seq::<u8>::empty() == item);
        top::kill_prefix(store, key.as_slice());
        proof {
            assert forall|raw: Seq<u8>| !store@.contains_key(#[trigger] self.final_key(raw)) by {
                crate::store::lemma_concat_has_prefix(item, raw);
            }
        }
    }
}

} // verus!
