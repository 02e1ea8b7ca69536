//! A single typed value, stored under the final key of its item.

use core::marker::PhantomData;
use vstd::prelude::*;

use crate::codec::{decoded, Codec, DecodeError, DefaultValue};
use crate::key::{derive_key, derived_key};
use crate::store::Store;
use crate::top;
use crate::top::{is_model, stored, stored_or_default};

verus! {

/// The descriptor of a stored value of type `V`.
pub struct StorageValue<V> {
    /// The prefix of the module that owns the value.
    pub module_prefix: Vec<u8>,
    /// The prefix of the value within its module.
    pub item_prefix: Vec<u8>,
    /// The type of the value.
    pub marker: PhantomData<V>,
}

impl<V: Codec> StorageValue<V> {
    /// The final key of the value: the item prefix without key material.
    pub open spec fn final_key(&self) -> Seq<u8> {
        derived_key(self.module_prefix@, self.item_prefix@, None)
    }

    /// Describes the value `item_prefix` of the module `module_prefix`.
    pub fn new(module_prefix: &[u8], item_prefix: &[u8]) -> (r: Self)
        ensures
            r.module_prefix@ == module_prefix@,
            r.item_prefix@ == item_prefix@,
    {
        StorageValue {
            module_prefix: crate::store::to_bytes(module_prefix),
            item_prefix: crate::store::to_bytes(item_prefix),
            marker: PhantomData,
        }
    }

    /// Computes the final key.
    pub fn hashed_key(&self) -> (r: Vec<u8>)
        ensures
            r@ == self.final_key(),
    {
        derive_key(self.module_prefix.as_slice(), self.item_prefix.as_slice(), None)
    }

    /// The stored value; `None` where it is absent or does not decode.
    pub fn get<S: Store>(&self, store: &S) -> (r: Option<V>)
        ensures
            is_model(r, stored::<V>(store@, self.final_key())),
    {
        let key = self.hashed_key();
        top::get::<S, V>(store, key.as_slice())
    }

    /// The stored value, telling an absent value from one that does not decode.
    pub fn try_get<S: Store>(&self, store: &S) -> (r: Result<Option<V>, DecodeError>)
        ensures
            match r {
                Ok(Some(v)) => store@.contains_key(self.final_key()) && decoded::<V>(
                    store@[self.final_key()],
                ) == Some(v.model()),
                Ok(None) => !store@.contains_key(self.final_key()),
                Err(_) => store@.contains_key(self.final_key()) && decoded::<V>(
                    store@[self.final_key()],
                ) is None,
            },
    {
        let key = self.hashed_key();
        top::try_get::<S, V>(store, key.as_slice())
    }

    /// Stores `value`.
    pub fn set<S: Store>(&self, store: &mut S, value: &V)
        ensures
            final(store)@ == old(store)@.insert(self.final_key(), V::encoding(value.model())),
            stored::<V>(final(store)@, self.final_key()) == Some(value.model()),
    {
        let key = self.hashed_key();
        top::put(store, key.as_slice(), value);
    }

    /// Removes the value and returns what `get` gave of it.
    pub fn take<S: Store>(&self, store: &mut S) -> (r: Option<V>)
        ensures
            is_model(r, stored::<V>(old(store)@, self.final_key())),
            final(store)@ == old(store)@.remove(self.final_key()),
    {
        let key = self.hashed_key();
        top::take::<S, V>(store, key.as_slice())
    }

    /// Whether the value is present.
    pub fn is_present<S: Store>(&self, store: &S) -> (r: bool)
        ensures
            r == store@.contains_key(self.final_key()),
    {
        let key = self.hashed_key();
        top::is_present(store, key.as_slice())
    }

    /// Removes the value.
    pub fn kill<S: Store>(&self, store: &mut S)
        ensures
            final(store)@ == old(store)@.remove(self.final_key()),
    {
        let key = self.hashed_key();
        top::kill(store, key.as_slice());
    }
}

impl<V: DefaultValue> StorageValue<V> {
    /// Replaces the stored value by what `f` makes of it, the default value
    /// standing in where `get` gives none.
    pub fn mutate<S: Store, F: FnOnce(V) -> V>(&self, store: &mut S, f: F)
        requires
            forall|v: V|
                v.model() == stored_or_default::<V>(old(store)@, self.final_key())
                    ==> call_requires(f, (v,)),
        ensures
            exists|before: V, after: V|
                {
                    &&& before.model() == stored_or_default::<V>(old(store)@, self.final_key())
                    &&& call_ensures(f, (before,), after)
                    &&& final(store)@ == old(store)@.insert(
                        self.final_key(),
                        V::encoding(after.model()),
                    )
                },
    {
        let key = self.hashed_key();
        let before = top::get_or_default::<S, V>(store, key.as_slice());
        let ghost before_value = before;
        let after = f(before);
        top::put(store, key.as_slice(), &after);
        assert(call_ensures(f, (before_value,), after));
    }
}

} // verus!
