//! Typed access to the store under raw keys.

use vstd::prelude::*;

use crate::codec::{decode, decoded, encode, Codec, DecodeError, DefaultValue};
use crate::store::{without_prefix, Store};

verus! {

/// The value of type `T` that `entries` holds under `key`: none where there is
/// no entry or where its bytes are not the encoding of a `T`.
pub open spec fn stored<T: Codec>(entries: Map<Seq<u8>, Seq<u8>>, key: Seq<u8>) -> Option<
    T::Model,
> {
    if entries.contains_key(key) {
        decoded::<T>(entries[key])
    } else {
        None
    }
}

/// Whether a value matches a model: both absent, or the value's model is the model.
pub open spec fn is_model<T: Codec>(value: Option<T>, model: Option<T::Model>) -> bool {
    match value {
        Some(v) => model == Some(v.model()),
        None => model is None,
    }
}

/// The value stored under `key`; `None` where there is no entry or where it
/// does not decode.
pub fn get<S: Store, T: Codec>(store: &S, key: &[u8]) -> (r: Option<T>)
    ensures
        is_model(r, stored::<T>(store@, key@)),
{
    match store.get(key) {
        Some(bytes) => match decode::<T>(bytes.as_slice()) {
            Ok(v) => Some(v),
            Err(_) => None,
        },
        None => None,
    }
}

/// The value stored under `key`, telling an absent entry, `Ok(None)`, from one
/// that does not decode, `Err`.
pub fn try_get<S: Store, T: Codec>(store: &S, key: &[u8]) -> (r: Result<Option<T>, DecodeError>)
    ensures
        match r {
            Ok(Some(v)) => store@.contains_key(key@) && decoded::<T>(store@[key@]) == Some(
                v.model(),
            ),
            Ok(None) => !store@.contains_key(key@),
            Err(_) => store@.contains_key(key@) && decoded::<T>(store@[key@]) is None,
        },
{
    match store.get(key) {
        Some(bytes) => match decode::<T>(bytes.as_slice()) {
            Ok(v) => Ok(Some(v)),
            Err(e) => Err(e),
        },
        None => Ok(None),
    }
}

/// The model that stands under `key` where an absent or undecodable entry
/// counts as the default value.
pub open spec fn stored_or_default<T: DefaultValue>(
    entries: Map<Seq<u8>, Seq<u8>>,
    key: Seq<u8>,
) -> T::Model {
    match stored::<T>(entries, key) {
        Some(m) => m,
        None => T::default_model(),
    }
}

/// The value stored under `key`, or the default value where `get` gives none.
pub fn get_or_default<S: Store, T: DefaultValue>(store: &S, key: &[u8]) -> (r: T)
    ensures
        r.model() == stored_or_default::<T>(store@, key@),
{
    match get::<S, T>(store, key) {
        Some(v) => v,
        None => T::default_value(),
    }
}

/// Stores the encoding of `value` under `key`.
pub fn put<S: Store, T: Codec>(store: &mut S, key: &[u8], value: &T)
    ensures
        final(store)@ == old(store)@.insert(key@, T::encoding(value.model())),
        stored::<T>(final(store)@, key@) == Some(value.model()),
{
    let bytes = encode(value);
    store.set(key, bytes.as_slice());
}

/// Removes the entry under `key` and returns what `get` gave of it.
pub fn take<S: Store, T: Codec>(store: &mut S, key: &[u8]) -> (r: Option<T>)
    ensures
        is_model(r, stored::<T>(old(store)@, key@)),
        final(store)@ == old(store)@.remove(key@),
{
    let r = get::<S, T>(store, key);
    store.remove(key);
    r
}

/// Removes the entry under `key`.
pub fn kill<S: Store>(store: &mut S, key: &[u8])
    ensures
        final(store)@ == old(store)@.remove(key@),
{
    store.remove(key);
}

/// Removes every entry whose key starts with `prefix`.
pub fn kill_prefix<S: Store>(store: &mut S, prefix: &[u8])
    ensures
        final(store)@ == without_prefix(old(store)@, prefix@),
{
    store.remove_prefix(prefix);
}

/// Whether there is an entry under `key`.
pub fn is_present<S: Store>(store: &S, key: &[u8]) -> (r: bool)
    ensures
        r == store@.contains_key(key@),
{
    store.get(key).is_some()
}

/// The bytes stored under `key`.
pub fn get_raw<S: Store>(store: &S, key: &[u8]) -> (r: Option<Vec<u8>>)
    ensures
        match r {
            Some(v) => store@.contains_key(key@) && store@[key@] == v@,
            None => !store@.contains_key(key@),
        },
{
    store.get(key)
}

/// Stores `value` under `key` as it is.
pub fn put_raw<S: Store>(store: &mut S, key: &[u8], value: &[u8])
    ensures
        final(store)@ == old(store)@.insert(key@, value@),
{
    store.set(key, value);
}

} // verus!
