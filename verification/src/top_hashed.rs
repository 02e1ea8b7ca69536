//! Typed access to the store under hashed keys: the key handed in is hashed,
//! and the result is the key in the store.

use vstd::prelude::*;

use crate::codec::{Codec, DefaultValue};
use crate::hashing::Hasher;
use crate::store::Store;
use crate::top;
use crate::top::{is_model, stored, stored_or_default};

verus! {

/// The value stored under the hash of `key`; `None` where there is no entry or
/// where it does not decode.
pub fn get<S: Store, T: Codec>(store: &S, hasher: &Hasher, key: &[u8]) -> (r: Option<T>)
    ensures
        is_model(r, stored::<T>(store@, hasher.hashed(key@))),
{
    let hashed = hasher.hash(key);
    top::get::<S, T>(store, hashed.as_slice())
}

/// The value stored under the hash of `key`, or the default value where `get`
/// gives none.
pub fn get_or_default<S: Store, T: DefaultValue>(store: &S, hasher: &Hasher, key: &[u8]) -> (r: T)
    ensures
        r.model() == stored_or_default::<T>(store@, hasher.hashed(key@)),
{
    let hashed = hasher.hash(key);
    top::get_or_default::<S, T>(store, hashed.as_slice())
}

/// Stores the encoding of `value` under the hash of `key`.
pub fn put<S: Store, T: Codec>(store: &mut S, hasher: &Hasher, key: &[u8], value: &T)
    ensures
        final(store)@ == old(store)@.insert(hasher.hashed(key@), T::encoding(value.model())),
        stored::<T>(final(store)@, hasher.hashed(key@)) == Some(value.model()),
{
    let hashed = hasher.hash(key);
    top::put(store, hashed.as_slice(), value);
}

/// Removes the entry under the hash of `key` and returns what `get` gave of it.
pub fn take<S: Store, T: Codec>(store: &mut S, hasher: &Hasher, key: &[u8]) -> (r: Option<T>)
    ensures
        is_model(r, stored::<T>(old(store)@, hasher.hashed(key@))),
        final(store)@ == old(store)@.remove(hasher.hashed(key@)),
{
    let hashed = hasher.hash(key);
    top::take::<S, T>(store, hashed.as_slice())
}

/// Removes the entry under the hash of `key`.
pub fn kill<S: Store>(store: &mut S, hasher: &Hasher, key: &[u8])
    ensures
        final(store)@ == old(store)@.remove(hasher.hashed(key@)),
{
    let hashed = hasher.hash(key);
    top::kill(store, hashed.as_slice());
}

/// Whether there is an entry under the hash of `key`.
pub fn is_present<S: Store>(store: &S, hasher: &Hasher, key: &[u8]) -> (r: bool)
    ensures
        r == store@.contains_key(hasher.hashed(key@)),
{
    let hashed = hasher.hash(key);
    top::is_present(store, hashed.as_slice())
}

/// The bytes stored under the hash of `key`.
pub fn get_raw<S: Store>(store: &S, hasher: &Hasher, key: &[u8]) -> (r: Option<Vec<u8>>)
    ensures
        match r {
            Some(v) => store@.contains_key(hasher.hashed(key@)) && store@[hasher.hashed(key@)]
                == v@,
            None => !store@.contains_key(hasher.hashed(key@)),
        },
{
    let hashed = hasher.hash(key);
    top::get_raw(store, hashed.as_slice())
}

/// Stores `value` under the hash of `key` as it is.
pub fn put_raw<S: Store>(store: &mut S, hasher: &Hasher, key: &[u8], value: &[u8])
    ensures
        final(store)@ == old(store)@.insert(hasher.hashed(key@), value@),
{
    let hashed = hasher.hash(key);
    top::put_raw(store, hashed.as_slice(), value);
}

} // verus!
