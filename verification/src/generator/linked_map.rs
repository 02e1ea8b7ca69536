//! A typed map that can be enumerated.
//!
//! The store offers no scan over hashed keys, so the entries of a linked map
//! form a doubly-linked list: each entry holds, beside its value, the final
//! keys of the entry before it and of the entry behind it, and the final key of
//! the first entry stands under the item prefix, where no entry can stand. A
//! new entry becomes the first, so the map is enumerated newest first.

use core::marker::PhantomData;
use vstd::prelude::*;

use crate::codec::{decode, decoded, Codec, DefaultValue};
use crate::hashing::ConcatHasher;
use crate::key::{derive_key, derived_key, key_material, material_for};
use crate::sequence::models;
use crate::store::{bytes_eq, to_bytes, Store};
use crate::generator::linked_order::{last_of, unlinked};
use crate::top;

verus! {

/// A link of the list was found broken: a final key that the list holds has no
/// entry, or an entry that does not decode, or is no final key of the map.
#[derive(Clone, Copy, Debug, PartialEq, Eq, Structural)]
pub struct ConsistencyFault;

/// What an entry of a linked map stands for: its value, and the final keys of
/// its neighbours in the list.
pub struct Node<M> {
    /// The value of the entry.
    pub payload: M,
    /// The final key of the entry before this one; none for the first.
    pub previous: Option<Seq<u8>>,
    /// The final key of the entry behind this one; none for the last.
    pub next: Option<Seq<u8>>,
}

/// An entry of a linked map as it is stored: the value, then the two links.
pub type Envelope<V> = (V, (Option<Vec<u8>>, Option<Vec<u8>>));

/// The final key that a stored link holds.
pub open spec fn link_of(link: Option<Vec<u8>>) -> Option<Seq<u8>> {
    match link {
        Some(key) => Some(key@),
        None => None,
    }
}

/// The model of a byte vector is the bytes it holds.
pub proof fn lemma_byte_models(bytes: Seq<u8>)
    ensures
        models::<u8>(bytes) == bytes,
{
    assert(models::<u8>(bytes) =~= bytes);
}

/// The model of a stored link is the final key it holds.
pub proof fn lemma_link_model(link: Option<Vec<u8>>)
    ensures
        link.model() == link_of(link),
{
    match link {
        Some(key) => {
            lemma_byte_models(key@);
        },
        None => {},
    }
}

/// Whether a final key can be stored as a link.
pub open spec fn storable(key: Seq<u8>) -> bool {
    key.len() <= u64::MAX
}

/// Whether a link can be stored.
pub open spec fn storable_link(link: Option<Seq<u8>>) -> bool {
    match link {
        Some(key) => storable(key),
        None => true,
    }
}

/// Compares two links.
pub(crate) fn same_link(a: &Option<Vec<u8>>, b: &Option<Vec<u8>>) -> (r: bool)
    ensures
        r == (link_of(*a) == link_of(*b)),
{
    match a {
        Some(x) => match b {
            Some(y) => bytes_eq(x.as_slice(), y.as_slice()),
            None => false,
        },
        None => b.is_none(),
    }
}

/// The descriptor of a stored linked map from `K` to `V`.
pub struct StorageLinkedMap<K, V> {
    /// The prefix of the module that owns the map.
    pub module_prefix: Vec<u8>,
    /// The prefix of the map within its module.
    pub item_prefix: Vec<u8>,
    /// How keys become key material.
    pub hasher: ConcatHasher,
    /// The types of keys and values.
    pub marker: PhantomData<(K, V)>,
}

impl<K: Codec, V: Codec> StorageLinkedMap<K, V> {
    /// The final key under which the head pointer stands: the item prefix.
    pub open spec fn head_key(&self) -> Seq<u8> {
        derived_key(self.module_prefix@, self.item_prefix@, None)
    }

    /// The final key of the entry of `k`.
    pub open spec fn final_key(&self, k: K::Model) -> Seq<u8> {
        derived_key(
            self.module_prefix@,
            self.item_prefix@,
            Some(key_material::<K>(self.hasher.as_hasher(), k)),
        )
    }

    /// The key whose final key `key` is, if it is one.
    pub open spec fn key_of(&self, key: Seq<u8>) -> Option<K::Model> {
        let skipped = 32 + self.hasher.as_hasher().digest_len();
        if key.len() >= skipped {
            match decoded::<K>(key.skip(skipped as int)) {
                Some(k) => if self.final_key(k) == key {
                    Some(k)
                } else {
                    None
                },
                None => None,
            }
        } else {
            None
        }
    }

    /// The bytes that store the entry `node`.
    pub open spec fn envelope(node: Node<V::Model>) -> Seq<u8> {
        Envelope::<V>::encoding((node.payload, (node.previous, node.next)))
    }

    /// The bytes that store the head pointer `key`.
    pub open spec fn head_bytes(key: Seq<u8>) -> Seq<u8> {
        Vec::<u8>::encoding(key)
    }

    /// The entry that `entries` holds under `key`: none where there is none or
    /// where its bytes are no envelope.
    pub open spec fn node_at(&self, entries: Map<Seq<u8>, Seq<u8>>, key: Seq<u8>) -> Option<
        Node<V::Model>,
    > {
        match top::stored::<Envelope<V>>(entries, key) {
            Some(m) => Some(Node { payload: m.0, previous: m.1.0, next: m.1.1 }),
            None => None,
        }
    }

    /// The head pointer that `entries` holds: `Some(None)` where the list is
    /// empty, `Some(Some(key))` where `key` is the first final key, `None` where
    /// the bytes under the head key are no head pointer.
    pub open spec fn head_of(&self, entries: Map<Seq<u8>, Seq<u8>>) -> Option<Option<Seq<u8>>> {
        if entries.contains_key(self.head_key()) {
            match decoded::<Vec<u8>>(entries[self.head_key()]) {
                Some(key) => Some(Some(key)),
                None => None,
            }
        } else {
            Some(None)
        }
    }

    /// Where inserting `k` finds a broken link: its own entry does not decode,
    /// or, `k` being new, the head pointer does not decode or points at no
    /// readable entry.
    pub open spec fn insert_faults(&self, entries: Map<Seq<u8>, Seq<u8>>, k: K::Model) -> bool {
        let key = self.final_key(k);
        if entries.contains_key(key) {
            self.node_at(entries, key) is None
        } else {
            match self.head_of(entries) {
                None => true,
                Some(None) => false,
                Some(Some(first)) => self.node_at(entries, first) is None,
            }
        }
    }

    /// The store after `k` was given the value `v`. An entry that is there
    /// keeps its links. A new entry becomes the first: the former first entry,
    /// if any, gets it as its predecessor, and the head pointer points at it.
    pub open spec fn after_insert(
        &self,
        entries: Map<Seq<u8>, Seq<u8>>,
        k: K::Model,
        v: V::Model,
    ) -> Map<Seq<u8>, Seq<u8>> {
        let key = self.final_key(k);
        if entries.contains_key(key) {
            let node = self.node_at(entries, key).unwrap();
            entries.insert(
                key,
                Self::envelope(Node { payload: v, previous: node.previous, next: node.next }),
            )
        } else {
            match self.head_of(entries) {
                Some(Some(first)) => {
                    let node = self.node_at(entries, first).unwrap();
                    entries.insert(
                        first,
                        Self::envelope(
                            Node { payload: node.payload, previous: Some(key), next: node.next },
                        ),
                    ).insert(
                        key,
                        Self::envelope(Node { payload: v, previous: None, next: Some(first) }),
                    ).insert(self.head_key(), Self::head_bytes(key))
                },
                _ => entries.insert(
                    key,
                    Self::envelope(Node { payload: v, previous: None, next: None }),
                ).insert(self.head_key(), Self::head_bytes(key)),
            }
        }
    }

    /// Where removing `k` finds a broken link: its entry is there and does not
    /// decode, or names a neighbour that has no readable entry.
    pub open spec fn remove_faults(&self, entries: Map<Seq<u8>, Seq<u8>>, k: K::Model) -> bool {
        let key = self.final_key(k);
        entries.contains_key(key) && match self.node_at(entries, key) {
            None => true,
            Some(node) => (node.previous matches Some(p) && self.node_at(entries, p) is None) || (
            node.next matches Some(n) && self.node_at(entries, n) is None),
        }
    }

    /// The store after the entry of `k` was removed. Where there is none,
    /// nothing changes. Else its predecessor, or the head pointer where it was
    /// the first, is made to point at its successor, its successor is made to
    /// point back at its predecessor, and the entry goes.
    pub open spec fn after_remove(&self, entries: Map<Seq<u8>, Seq<u8>>, k: K::Model) -> Map<
        Seq<u8>,
        Seq<u8>,
    > {
        let key = self.final_key(k);
        if !entries.contains_key(key) {
            entries
        } else {
            let node = self.node_at(entries, key).unwrap();
            let forward = match node.previous {
                Some(p) => {
                    let before = self.node_at(entries, p).unwrap();
                    entries.insert(
                        p,
                        Self::envelope(
                            Node {
                                payload: before.payload,
                                previous: before.previous,
                                next: node.next,
                            },
                        ),
                    )
                },
                None => match node.next {
                    Some(n) => entries.insert(self.head_key(), Self::head_bytes(n)),
                    None => entries.remove(self.head_key()),
                },
            };
            let backward = match node.next {
                Some(n) => {
                    let behind = self.node_at(entries, n).unwrap();
                    forward.insert(
                        n,
                        Self::envelope(
                            Node {
                                payload: behind.payload,
                                previous: node.previous,
                                next: behind.next,
                            },
                        ),
                    )
                },
                None => forward,
            };
            backward.remove(key)
        }
    }

    /// Describes the linked map `item_prefix` of the module `module_prefix`.
    pub fn new(module_prefix: &[u8], item_prefix: &[u8], hasher: ConcatHasher) -> (r: Self)
        ensures
            r.module_prefix@ == module_prefix@,
            r.item_prefix@ == item_prefix@,
            r.hasher == hasher,
    {
        StorageLinkedMap {
            module_prefix: to_bytes(module_prefix),
            item_prefix: to_bytes(item_prefix),
            hasher,
            marker: PhantomData,
        }
    }

    /// Computes the final key of the head pointer.
    pub fn hashed_head_key(&self) -> (r: Vec<u8>)
        ensures
            r@ == self.head_key(),
    {
        derive_key(self.module_prefix.as_slice(), self.item_prefix.as_slice(), None)
    }

    /// Computes the final key of the entry of `k`.
    pub fn hashed_key_for(&self, k: &K) -> (r: Vec<u8>)
        ensures
            r@ == self.final_key(k.model()),
    {
        let hasher = self.hasher.hasher();
        let material = material_for(&hasher, k);
        derive_key(
            self.module_prefix.as_slice(),
            self.item_prefix.as_slice(),
            Some(material.as_slice()),
        )
    }

    /// Reads the entry under the final key `key`: `Ok(None)` where there is
    /// none, `Err` where its bytes are no envelope.
    pub(crate) fn read_node<S: Store>(&self, store: &S, key: &[u8]) -> (r: Result<
        Option<Envelope<V>>,
        ConsistencyFault,
    >)
        ensures
            match r {
                Ok(Some(e)) => self.node_at(store@, key@) == Some(
                    Node { payload: e.0.model(), previous: link_of(e.1.0), next: link_of(e.1.1) },
                ) && V::valid(e.0.model()),
                Ok(None) => !store@.contains_key(key@),
                Err(_) => store@.contains_key(key@) && self.node_at(store@, key@) is None,
            },
    {
        match top::try_get::<S, Envelope<V>>(store, key) {
            Ok(Some(e)) => {
                proof {
                    lemma_link_model(e.1.0);
                    lemma_link_model(e.1.1);
                    e.0.lemma_model_valid();
                }
                Ok(Some(e))
            },
            Ok(None) => Ok(None),
            Err(_) => Err(ConsistencyFault),
        }
    }

    /// Reads an entry that a link points at: `Err` where there is none or where
    /// its bytes are no envelope.
    pub(crate) fn read_linked<S: Store>(&self, store: &S, key: &[u8]) -> (r: Result<
        Envelope<V>,
        ConsistencyFault,
    >)
        ensures
            match r {
                Ok(e) => self.node_at(store@, key@) == Some(
                    Node { payload: e.0.model(), previous: link_of(e.1.0), next: link_of(e.1.1) },
                ) && V::valid(e.0.model()),
                Err(_) => self.node_at(store@, key@) is None,
            },
    {
        match self.read_node(store, key) {
            Ok(Some(e)) => Ok(e),
            Ok(None) => Err(ConsistencyFault),
            Err(e) => Err(e),
        }
    }

    /// Writes an entry under the final key `key`.
    fn write_node<S: Store>(
        &self,
        store: &mut S,
        key: &[u8],
        payload: &V,
        previous: &Option<Vec<u8>>,
        next: &Option<Vec<u8>>,
    )
        ensures
            final(store)@ == old(store)@.insert(
                key@,
                Self::envelope(
                    Node {
                        payload: payload.model(),
                        previous: link_of(*previous),
                        next: link_of(*next),
                    },
                ),
            ),
    {
        let mut bytes: Vec<u8> = Vec::new();
        payload.encode_to(&mut bytes);
        previous.encode_to(&mut bytes);
        next.encode_to(&mut bytes);
        proof {
            lemma_link_model(*previous);
            lemma_link_model(*next);
            assert(bytes@ == V::encoding(payload.model()) + (Option::<Vec<u8>>::encoding(
                link_of(*previous),
            ) + Option::<Vec<u8>>::encoding(link_of(*next))));
        }
        store.set(key, bytes.as_slice());
    }

    /// Reads the head pointer: `Err` where the bytes under the head key are
    /// no head pointer.
    pub fn head<S: Store>(&self, store: &S) -> (r: Result<Option<Vec<u8>>, ConsistencyFault>)
        ensures
            match r {
                Ok(link) => self.head_of(store@) == Some(link_of(link)),
                Err(_) => self.head_of(store@) is None,
            },
    {
        let head_key = self.hashed_head_key();
        match top::try_get::<S, Vec<u8>>(store, head_key.as_slice()) {
            Ok(Some(key)) => {
                proof {
                    lemma_byte_models(key@);
                }
                Ok(Some(key))
            },
            Ok(None) => Ok(None),
            Err(_) => Err(ConsistencyFault),
        }
    }

    /// Makes the head pointer point at `link`, which for `None` removes it.
    fn write_head<S: Store>(&self, store: &mut S, link: &Option<Vec<u8>>)
        ensures
            final(store)@ == match link_of(*link) {
                Some(key) => old(store)@.insert(self.head_key(), Self::head_bytes(key)),
                None => old(store)@.remove(self.head_key()),
            },
    {
        let head_key = self.hashed_head_key();
        match link {
            Some(key) => {
                proof {
                    lemma_byte_models(key@);
                }
                top::put(store, head_key.as_slice(), key);
            },
            None => {
                top::kill(store, head_key.as_slice());
            },
        }
    }

    /// The value of `k`; `None` where it has no entry or where its entry does
    /// not decode.
    pub fn get<S: Store>(&self, store: &S, k: &K) -> (r: Option<V>)
        ensures
            match r {
                Some(v) => self.node_at(store@, self.final_key(k.model())) matches Some(node)
                    && node.payload == v.model(),
                None => self.node_at(store@, self.final_key(k.model())) is None,
            },
    {
        let key = self.hashed_key_for(k);
        match self.read_linked(store, key.as_slice()) {
            Ok(e) => Some(e.0),
            Err(_) => None,
        }
    }

    /// Whether `k` has an entry.
    pub fn contains_key<S: Store>(&self, store: &S, k: &K) -> (r: bool)
        ensures
            r == store@.contains_key(self.final_key(k.model())),
    {
        let key = self.hashed_key_for(k);
        top::is_present(store, key.as_slice())
    }

    /// Does the work of `insert`.
    fn insert_entry<S: Store>(&self, store: &mut S, k: &K, value: &V) -> (r: Result<
        (),
        ConsistencyFault,
    >)
        ensures
            storable(self.final_key(k.model())),
            r is Err <==> self.insert_faults(old(store)@, k.model()),
            match r {
                Ok(_) => final(store)@ == self.after_insert(
                    old(store)@,
                    k.model(),
                    value.model(),
                ),
                Err(_) => final(store)@ == old(store)@,
            },
    {
        let key = self.hashed_key_for(k);
        assert(key@.len() == key.len());
        match self.read_node(store, key.as_slice()) {
            Err(e) => Err(e),
            Ok(Some(e)) => {
                self.write_node(store, key.as_slice(), value, &e.1.0, &e.1.1);
                Ok(())
            },
            Ok(None) => {
                match self.head(store) {
                    Err(e) => Err(e),
                    Ok(None) => {
                        self.write_node(store, key.as_slice(), value, &None, &None);
                        self.write_head(store, &Some(key));
                        Ok(())
                    },
                    Ok(Some(first)) => {
                        match self.read_linked(store, first.as_slice()) {
                            Err(e) => Err(e),
                            Ok(e) => {
                                let here = Some(key);
                                self.write_node(store, first.as_slice(), &e.0, &here, &e.1.1);
                                let there = Some(first);
                                match &here {
                                    Some(key) => {
                                        self.write_node(
                                            store,
                                            key.as_slice(),
                                            value,
                                            &None,
                                            &there,
                                        );
                                    },
                                    None => {},
                                }
                                self.write_head(store, &here);
                                Ok(())
                            },
                        }
                    },
                }
            },
        }
    }

    /// Does the work of `remove`.
    fn remove_entry<S: Store>(&self, store: &mut S, k: &K) -> (r: Result<(), ConsistencyFault>)
        ensures
            r is Err <==> self.remove_faults(old(store)@, k.model()),
            match r {
                Ok(_) => final(store)@ == self.after_remove(old(store)@, k.model()),
                Err(_) => final(store)@ == old(store)@,
            },
    {
        let key = self.hashed_key_for(k);
        match self.read_node(store, key.as_slice()) {
            Err(e) => Err(e),
            Ok(None) => Ok(()),
            Ok(Some(e)) => {
                let previous = e.1.0;
                let next = e.1.1;
                let before = match &previous {
                    Some(p) => match self.read_linked(store, p.as_slice()) {
                        Ok(node) => Some(node),
                        Err(e) => {
                            return Err(e);
                        },
                    },
                    None => None,
                };
                let behind = match &next {
                    Some(n) => match self.read_linked(store, n.as_slice()) {
                        Ok(node) => Some(node),
                        Err(e) => {
                            return Err(e);
                        },
                    },
                    None => None,
                };
                match &previous {
                    Some(p) => match &before {
                        Some(node) => {
                            self.write_node(store, p.as_slice(), &node.0, &node.1.0, &next);
                        },
                        None => {},
                    },
                    None => {
                        self.write_head(store, &next);
                    },
                }
                match &next {
                    Some(n) => match &behind {
                        Some(node) => {
                            self.write_node(store, n.as_slice(), &node.0, &previous, &node.1.1);
                        },
                        None => {},
                    },
                    None => {},
                }
                top::kill(store, key.as_slice());
                Ok(())
            },
        }
    }

    /// Gives `k` the value `value`. An entry that is there keeps its place in
    /// the list; a new entry becomes the first. Fails, and leaves the store as
    /// it is, where it finds a broken link; it finds none where the entries of
    /// the map form a list, and then they form one afterwards.
    pub fn insert<S: Store>(&self, store: &mut S, k: &K, value: &V) -> (r: Result<
        (),
        ConsistencyFault,
    >)
        ensures
            r is Err <==> self.insert_faults(old(store)@, k.model()),
            match r {
                Ok(_) => final(store)@ == self.after_insert(
                    old(store)@,
                    k.model(),
                    value.model(),
                ),
                Err(_) => final(store)@ == old(store)@,
            },
            forall|order: Seq<Seq<u8>>| #[trigger]
                self.well_formed(old(store)@, order) ==> r is Ok && self.well_formed(
                    final(store)@,
                    self.order_after_insert(old(store)@, order, k.model()),
                ),
    {
        let r = self.insert_entry(store, k, value);
        proof {
            k.lemma_model_valid();
            value.lemma_model_valid();
            assert forall|order: Seq<Seq<u8>>| #[trigger]
                self.well_formed(old(store)@, order) implies r is Ok && self.well_formed(
                store@,
                self.order_after_insert(old(store)@, order, k.model()),
            ) by {
                self.lemma_insert_keeps_order(old(store)@, order, k.model(), value.model());
            }
        }
        r
    }

    /// Removes the entry of `k` and closes the list over the gap. Does nothing
    /// where `k` has no entry. Fails, and leaves the store as it is, where it
    /// finds a broken link; it finds none where the entries of the map form a
    /// list, and then they form one afterwards.
    pub fn remove<S: Store>(&self, store: &mut S, k: &K) -> (r: Result<(), ConsistencyFault>)
        ensures
            r is Err <==> self.remove_faults(old(store)@, k.model()),
            match r {
                Ok(_) => final(store)@ == self.after_remove(old(store)@, k.model()),
                Err(_) => final(store)@ == old(store)@,
            },
            !old(store)@.contains_key(self.final_key(k.model())) ==> r is Ok && final(store)@
                == old(store)@,
            forall|order: Seq<Seq<u8>>| #[trigger]
                self.well_formed(old(store)@, order) ==> r is Ok && self.well_formed(
                    final(store)@,
                    unlinked(order, self.final_key(k.model())),
                ),
    {
        let r = self.remove_entry(store, k);
        proof {
            k.lemma_model_valid();
            assert forall|order: Seq<Seq<u8>>| #[trigger]
                self.well_formed(old(store)@, order) implies r is Ok && self.well_formed(
                store@,
                unlinked(order, self.final_key(k.model())),
            ) by {
                self.lemma_remove_keeps_order(old(store)@, order, k.model());
            }
        }
        r
    }

    /// Removes the entry of `k` as `remove` does and returns its value.
    pub fn take<S: Store>(&self, store: &mut S, k: &K) -> (r: Result<Option<V>, ConsistencyFault>)
        ensures
            r is Err <==> self.remove_faults(old(store)@, k.model()),
            match r {
                Ok(Some(v)) => self.node_at(old(store)@, self.final_key(k.model())) matches Some(
                    node,
                ) && node.payload == v.model() && final(store)@ == self.after_remove(
                    old(store)@,
                    k.model(),
                ),
                Ok(None) => !old(store)@.contains_key(self.final_key(k.model())) && final(store)@
                    == old(store)@,
                Err(_) => final(store)@ == old(store)@,
            },
            forall|order: Seq<Seq<u8>>| #[trigger]
                self.well_formed(old(store)@, order) ==> r is Ok && self.well_formed(
                    final(store)@,
                    unlinked(order, self.final_key(k.model())),
                ),
    {
        let value = self.get(store, k);
        match self.remove(store, k) {
            Ok(_) => Ok(value),
            Err(e) => Err(e),
        }
    }

    /// Reads the key back from the final key `key`: `None` where `key` is no
    /// final key of this map.
    pub fn read_key(&self, key: &[u8]) -> (r: Option<K>)
        ensures
            match r {
                Some(k) => self.key_of(key@) == Some(k.model()),
                None => self.key_of(key@) is None,
            },
    {
        let hasher = self.hasher.hasher();
        let skipped: usize = 32 + hasher.digest_size();
        if key.len() < skipped {
            return None;
        }
        let encoded = vstd::slice::slice_subrange(key, skipped, key.len());
        assert(encoded@ == key@.skip(skipped as int));
        match decode::<K>(encoded) {
            Ok(k) => {
                let again = self.hashed_key_for(&k);
                if bytes_eq(again.as_slice(), key) {
                    Some(k)
                } else {
                    None
                }
            },
            Err(_) => None,
        }
    }

    /// The keys and values of the map, newest first. Fails exactly where the
    /// entries form no list: where following the links from the head pointer
    /// meets a final key without a readable entry, one that is no final key of
    /// this map, or an entry that does not point back at the one before it.
    pub fn enumerate<S: Store>(&self, store: &S) -> (r: Result<Vec<(K, V)>, ConsistencyFault>)
        ensures
            forall|order: Seq<Seq<u8>>| #[trigger]
                self.is_list(store@, order) ==> (r matches Ok(items) && items.model()
                    == self.listing(store@, order)),
            r is Ok ==> exists|order: Seq<Seq<u8>>| self.is_list(store@, order),
    {
        let ghost entries = store@;
        let mut items: Vec<(K, V)> = Vec::new();
        let mut previous: Option<Vec<u8>> = None;
        let ghost mut walked: Seq<Seq<u8>> = Seq::empty();
        let mut current: Option<Vec<u8>> = match self.head(store) {
            Ok(link) => link,
            Err(e) => {
                return Err(e);
            },
        };
        proof {
            store.lemma_finite();
            assert(items.model() =~= self.listing(entries, walked));
        }
        while current.is_some()
            invariant
                entries == store@,
                entries.dom().finite(),
                self.is_walk(entries, walked, link_of(current)),
                link_of(previous) == last_of(walked),
                items@.len() == walked.len(),
                items.model() == self.listing(entries, walked),
                walked.len() <= entries.dom().len(),
            decreases entries.dom().len() - walked.len(),
        {
            let key = current.unwrap();
            assert(key@.len() == key.len());
            let ghost longer = walked.push(key@);
            let found = self.read_key(key.as_slice());
            let node = self.read_linked(store, key.as_slice());
            let (k, envelope) = match (found, node) {
                (Some(k), Ok(envelope)) => (k, envelope),
                _ => {
                    proof {
                        assert forall|order: Seq<Seq<u8>>| #[trigger]
                            self.is_list(entries, order) implies false by {
                            self.lemma_walk_follows(entries, walked, Some(key@), order);
                            assert(self.linked_at(entries, order, walked.len() as int));
                        }
                    }
                    return Err(ConsistencyFault);
                },
            };
            if !same_link(&envelope.1.0, &previous) {
                proof {
                    assert forall|order: Seq<Seq<u8>>| #[trigger]
                        self.is_list(entries, order) implies false by {
                        self.lemma_walk_follows(entries, walked, Some(key@), order);
                        assert(self.linked_at(entries, order, walked.len() as int));
                    }
                }
                return Err(ConsistencyFault);
            }
            proof {
                self.lemma_walk_step(entries, walked, key@);
                self.lemma_walk_bounded(entries, longer, link_of(envelope.1.1));
            }
            let ghost listed = items@;
            let (payload, links) = envelope;
            items.push((k, payload));
            previous = Some(key);
            current = links.1;
            proof {
                let shorter = walked;
                walked = longer;
                assert(listed.len() == shorter.len());
                assert(items@ == listed.push((k, payload)));
                assert forall|i: int| 0 <= i < walked.len() implies items.model()[i]
                    == self.listing(entries, walked)[i] by {
                    if i < shorter.len() {
                        assert(items@[i] == listed[i]);
                        assert(models::<(K, V)>(listed)[i] == self.listing(entries, shorter)[i]);
                        assert(walked[i] == shorter[i]);
                    }
                }
                assert(items.model() =~= self.listing(entries, walked));
            }
        }
        proof {
            self.lemma_walk_done(entries, walked);
            assert forall|order: Seq<Seq<u8>>| #[trigger]
                self.is_list(entries, order) implies items.model() == self.listing(
                entries,
                order,
            ) by {
                self.lemma_list_unique(entries, order, walked);
            }
        }
        Ok(items)
    }
}

impl<K: Codec, V: DefaultValue> StorageLinkedMap<K, V> {
    /// The value of `k` in `entries`, the default value standing in where `k`
    /// has no readable entry.
    pub open spec fn payload_or_default(
        &self,
        entries: Map<Seq<u8>, Seq<u8>>,
        k: K::Model,
    ) -> V::Model {
        match self.node_at(entries, self.final_key(k)) {
            Some(node) => node.payload,
            None => V::default_model(),
        }
    }

    /// Replaces the value of `k` by what `f` makes of it, the default value
    /// standing in where `k` has no readable entry, and inserts the result as
    /// `insert` does.
    pub fn mutate<S: Store, F: FnOnce(V) -> V>(&self, store: &mut S, k: &K, f: F) -> (r: Result<
        (),
        ConsistencyFault,
    >)
        requires
            forall|v: V|
                v.model() == self.payload_or_default(old(store)@, k.model()) ==> call_requires(
                    f,
                    (v,),
                ),
        ensures
            r is Err <==> self.insert_faults(old(store)@, k.model()),
            match r {
                Ok(_) => exists|before: V, after: V|
                    {
                        &&& before.model() == self.payload_or_default(old(store)@, k.model())
                        &&& call_ensures(f, (before,), after)
                        &&& final(store)@ == self.after_insert(
                            old(store)@,
                            k.model(),
                            after.model(),
                        )
                    },
                Err(_) => final(store)@ == old(store)@,
            },
            forall|order: Seq<Seq<u8>>| #[trigger]
                self.well_formed(old(store)@, order) ==> r is Ok && self.well_formed(
                    final(store)@,
                    self.order_after_insert(old(store)@, order, k.model()),
                ),
    {
        let before = match self.get(store, k) {
            Some(v) => v,
            None => V::default_value(),
        };
        let ghost before_value = before;
        let after = f(before);
        let r = self.insert(store, k, &after);
        assert(call_ensures(f, (before_value,), after));
        r
    }
}

impl<K: Codec, V: Codec> StorageLinkedMap<K, V> {
    /// Replaces the entry of `k` by what `f` makes of its value: inserts the
    /// result as `insert` does, or, where `f` gives none, removes the entry as
    /// `remove` does.
    pub fn mutate_exists<S: Store, F: FnOnce(Option<V>) -> Option<V>>(
        &self,
        store: &mut S,
        k: &K,
        f: F,
    ) -> (r: Result<(), ConsistencyFault>)
        requires
            forall|v: Option<V>|
                v.model() == self.payload_of(old(store)@, k.model()) ==> call_requires(f, (v,)),
        ensures
            exists|before: Option<V>, after: Option<V>|
                {
                    &&& before.model() == self.payload_of(old(store)@, k.model())
                    &&& call_ensures(f, (before,), after)
                    &&& match after {
                        Some(v) => {
                            &&& r is Err <==> self.insert_faults(old(store)@, k.model())
                            &&& r is Ok ==> final(store)@ == self.after_insert(
                                old(store)@,
                                k.model(),
                                v.model(),
                            )
                        },
                        None => {
                            &&& r is Err <==> self.remove_faults(old(store)@, k.model())
                            &&& r is Ok ==> final(store)@ == self.after_remove(
                                old(store)@,
                                k.model(),
                            )
                        },
                    }
                },
            r is Err ==> final(store)@ == old(store)@,
            forall|order: Seq<Seq<u8>>| #[trigger]
                self.well_formed(old(store)@, order) ==> r is Ok && (self.well_formed(
                    final(store)@,
                    self.order_after_insert(old(store)@, order, k.model()),
                ) || self.well_formed(final(store)@, unlinked(order, self.final_key(k.model())))),
    {
        let before = self.get(store, k);
        let ghost before_value = before;
        assert(before.model() == self.payload_of(store@, k.model()));
        let after = f(before);
        let r = match &after {
            Some(v) => self.insert(store, k, v),
            None => self.remove(store, k),
        };
        assert(call_ensures(f, (before_value,), after));
        r
    }

    /// The value of `k` in `entries`, if it has a readable entry.
    pub open spec fn payload_of(&self, entries: Map<Seq<u8>, Seq<u8>>, k: K::Model) -> Option<
        V::Model,
    > {
        match self.node_at(entries, self.final_key(k)) {
            Some(node) => Some(node.payload),
            None => None,
        }
    }
}

} // verus!
