//! Inserting into a linked map and removing from it keep its entries a list.

use vstd::prelude::*;

use crate::codec::Codec;
use crate::generator::linked_map::{storable, Node, StorageLinkedMap};
use crate::generator::linked_order::{first_of, next_in, previous_in, unlinked};
use crate::store::has_prefix;

verus! {

/// A change of a linked map: a key given a value, or a key removed.
pub enum Change<K, V> {
    /// The key is given the value.
    Insert(K, V),
    /// The key is removed.
    Remove(K),
}

impl<K: Codec, V: Codec> StorageLinkedMap<K, V> {
    /// Whether `change` speaks of a key and a value that can be stored.
    pub open spec fn change_fits(&self, change: Change<K::Model, V::Model>) -> bool {
        match change {
            Change::Insert(k, v) => K::valid(k) && V::valid(v) && storable(self.final_key(k)),
            Change::Remove(k) => K::valid(k),
        }
    }

    /// The store after `change`.
    pub open spec fn after_change(
        &self,
        entries: Map<Seq<u8>, Seq<u8>>,
        change: Change<K::Model, V::Model>,
    ) -> Map<Seq<u8>, Seq<u8>> {
        match change {
            Change::Insert(k, v) => self.after_insert(entries, k, v),
            Change::Remove(k) => self.after_remove(entries, k),
        }
    }

    /// The order after `change`.
    pub open spec fn order_after_change(
        &self,
        entries: Map<Seq<u8>, Seq<u8>>,
        order: Seq<Seq<u8>>,
        change: Change<K::Model, V::Model>,
    ) -> Seq<Seq<u8>> {
        match change {
            Change::Insert(k, v) => self.order_after_insert(entries, order, k),
            Change::Remove(k) => unlinked(order, self.final_key(k)),
        }
    }

    /// The store after `changes`, one after the other.
    pub open spec fn after_changes(
        &self,
        entries: Map<Seq<u8>, Seq<u8>>,
        changes: Seq<Change<K::Model, V::Model>>,
    ) -> Map<Seq<u8>, Seq<u8>>
        decreases changes.len(),
    {
        if changes.len() == 0 {
            entries
        } else {
            self.after_change(self.after_changes(entries, changes.drop_last()), changes.last())
        }
    }

    /// The order after `changes`, one after the other.
    pub open spec fn order_after_changes(
        &self,
        entries: Map<Seq<u8>, Seq<u8>>,
        order: Seq<Seq<u8>>,
        changes: Seq<Change<K::Model, V::Model>>,
    ) -> Seq<Seq<u8>>
        decreases changes.len(),
    {
        if changes.len() == 0 {
            order
        } else {
            self.order_after_change(
                self.after_changes(entries, changes.drop_last()),
                self.order_after_changes(entries, order, changes.drop_last()),
                changes.last(),
            )
        }
    }

    /// Any sequence of inserts and removes keeps the list: on a store whose
    /// entries are exactly those of `order`, linked in that order, no change
    /// finds a broken link, and afterwards the entries are exactly those of the
    /// order after the changes, linked in that order.
    pub proof fn lemma_changes_keep_order(
        &self,
        entries: Map<Seq<u8>, Seq<u8>>,
        order: Seq<Seq<u8>>,
        changes: Seq<Change<K::Model, V::Model>>,
    )
        requires
            self.well_formed(entries, order),
            forall|i: int| 0 <= i < changes.len() ==> self.change_fits(#[trigger] changes[i]),
        ensures
            self.well_formed(
                self.after_changes(entries, changes),
                self.order_after_changes(entries, order, changes),
            ),
        decreases changes.len(),
    {
        if changes.len() > 0 {
            let earlier = changes.drop_last();
            assert forall|i: int| 0 <= i < earlier.len() implies self.change_fits(
                #[trigger] earlier[i],
            ) by {
                assert(earlier[i] == changes[i]);
            }
            self.lemma_changes_keep_order(entries, order, earlier);
            let before = self.after_changes(entries, earlier);
            let listed = self.order_after_changes(entries, order, earlier);
            assert(self.change_fits(changes[changes.len() - 1]));
            match changes.last() {
                Change::Insert(k, v) => {
                    self.lemma_insert_keeps_order(before, listed, k, v);
                },
                Change::Remove(k) => {
                    self.lemma_remove_keeps_order(before, listed, k);
                },
            }
        }
    }

    /// The list holds the keys that are present, each once: a key has an entry
    /// exactly when its final key stands in the order, and it stands there at
    /// one position only.
    pub proof fn lemma_order_holds_present_keys(
        &self,
        entries: Map<Seq<u8>, Seq<u8>>,
        order: Seq<Seq<u8>>,
        k: K::Model,
    )
        requires
            self.well_formed(entries, order),
            K::valid(k),
        ensures
            entries.contains_key(self.final_key(k)) <==> order.contains(self.final_key(k)),
            forall|i: int, j: int|
                0 <= i < order.len() && 0 <= j < order.len() && order[i] == self.final_key(k)
                    && order[j] == self.final_key(k) ==> i == j,
    {
        let key = self.final_key(k);
        self.lemma_key_of_final_key(k);
        if entries.contains_key(key) {
            assert(order.contains(key));
        }
        if order.contains(key) {
            let at = order.index_of(key);
            self.lemma_list_keys(entries, order, at);
        }
        assert forall|i: int, j: int|
            0 <= i < order.len() && 0 <= j < order.len() && order[i] == key && order[j]
                == key implies i == j by {
            if i != j {
                self.lemma_positions_differ(entries, order, i, j);
            }
        }
    }

    /// Two positions of a list hold two final keys.
    pub proof fn lemma_positions_differ(
        &self,
        entries: Map<Seq<u8>, Seq<u8>>,
        order: Seq<Seq<u8>>,
        i: int,
        j: int,
    )
        requires
            self.is_list(entries, order),
            0 <= i < order.len(),
            0 <= j < order.len(),
            i != j,
        ensures
            order[i] != order[j],
    {
        if i < j {
            self.lemma_list_distinct(entries, order, i, j);
        } else {
            self.lemma_list_distinct(entries, order, j, i);
        }
    }

    /// Every final key of a list has an entry, starts with the item prefix and
    /// is not the head key.
    pub proof fn lemma_list_keys(
        &self,
        entries: Map<Seq<u8>, Seq<u8>>,
        order: Seq<Seq<u8>>,
        i: int,
    )
        requires
            self.is_list(entries, order),
            0 <= i < order.len(),
        ensures
            self.linked_at(entries, order, i),
            entries.contains_key(order[i]),
            order[i] != self.head_key(),
            has_prefix(order[i], self.head_key()),
            V::valid(self.node_at(entries, order[i]).unwrap().payload),
    {
        assert(self.linked_at(entries, order, i));
        self.lemma_key_of_is_entry_key(order[i]);
        self.lemma_node_read(entries, order[i]);
    }

    /// Inserting keeps the list: on a store whose entries are exactly those of
    /// `order`, linked in that order, inserting finds no broken link, and
    /// afterwards the entries are exactly those of the order after the insert,
    /// linked in that order.
    pub proof fn lemma_insert_keeps_order(
        &self,
        entries: Map<Seq<u8>, Seq<u8>>,
        order: Seq<Seq<u8>>,
        k: K::Model,
        v: V::Model,
    )
        requires
            self.well_formed(entries, order),
            K::valid(k),
            V::valid(v),
            storable(self.final_key(k)),
        ensures
            !self.insert_faults(entries, k),
            self.well_formed(
                self.after_insert(entries, k, v),
                self.order_after_insert(entries, order, k),
            ),
    {
        let key = self.final_key(k);
        let head = self.head_key();
        let after = self.after_insert(entries, k, v);
        let grown = self.order_after_insert(entries, order, k);
        self.lemma_key_of_final_key(k);
        assert forall|i: int| 0 <= i < order.len() implies entries.contains_key(
            #[trigger] order[i],
        ) && order[i] != head by {
            self.lemma_list_keys(entries, order, i);
        }
        if entries.contains_key(key) {
            assert(order.contains(key));
            let at = order.index_of(key);
            self.lemma_list_keys(entries, order, at);
            let node = self.node_at(entries, key).unwrap();
            self.lemma_node_read(entries, key);
            self.lemma_node_written(
                after,
                key,
                Node { payload: v, previous: node.previous, next: node.next },
            );
            assert forall|i: int| 0 <= i < grown.len() implies #[trigger] self.linked_at(
                after,
                grown,
                i,
            ) by {
                self.lemma_list_keys(entries, order, i);
                if i != at {
                    self.lemma_positions_differ(entries, order, i, at);
                }
            }
            assert forall|x: Seq<u8>|
                after.contains_key(x) && has_prefix(x, head) && x != head implies #[trigger] grown.contains(
                x,
            ) by {
                if x != key {
                    assert(entries.contains_key(x));
                    assert(order.contains(x));
                }
            }
        } else {
            assert(grown[0] == key);
            assert forall|i: int| 0 < i < grown.len() implies grown[i] == order[i - 1] by {}
            if order.len() == 0 {
                self.lemma_node_written(
                    after,
                    key,
                    Node { payload: v, previous: None, next: None },
                );
                self.lemma_head_written(after, key);
                assert(self.linked_at(after, grown, 0));
                assert forall|x: Seq<u8>|
                    after.contains_key(x) && has_prefix(x, head) && x != head implies #[trigger] grown.contains(
                    x,
                ) by {
                    if x != key {
                        assert(entries.contains_key(x));
                        assert(order.contains(x));
                    }
                }
            } else {
                let first = order[0];
                self.lemma_list_keys(entries, order, 0);
                let node = self.node_at(entries, first).unwrap();
                self.lemma_node_read(entries, first);
                self.lemma_node_written(
                    after,
                    first,
                    Node { payload: node.payload, previous: Some(key), next: node.next },
                );
                self.lemma_node_written(
                    after,
                    key,
                    Node { payload: v, previous: None, next: Some(first) },
                );
                self.lemma_head_written(after, key);
                assert forall|i: int| 0 <= i < grown.len() implies #[trigger] self.linked_at(
                    after,
                    grown,
                    i,
                ) by {
                    if i >= 1 {
                        self.lemma_list_keys(entries, order, i - 1);
                        if i >= 2 {
                            self.lemma_positions_differ(entries, order, i - 1, 0);
                            assert(after[order[i - 1]] == entries[order[i - 1]]);
                        }
                    }
                }
                assert forall|x: Seq<u8>|
                    after.contains_key(x) && has_prefix(x, head) && x != head implies #[trigger] grown.contains(
                    x,
                ) by {
                    if x != key {
                        assert(entries.contains_key(x));
                        assert(order.contains(x));
                        let at = order.index_of(x);
                        assert(grown[at + 1] == x);
                    }
                }
            }
        }
    }

    /// Taking the entry at position `at` out of a list leaves a list: where
    /// `after` holds the entries of `entries` but the one at `at`, with the
    /// neighbours of that entry linked to each other and the head pointer at
    /// the first that is left, its entries are those of `order` without
    /// position `at`, linked in that order.
    pub proof fn lemma_unlink(
        &self,
        entries: Map<Seq<u8>, Seq<u8>>,
        after: Map<Seq<u8>, Seq<u8>>,
        order: Seq<Seq<u8>>,
        at: int,
    )
        requires
            self.well_formed(entries, order),
            0 <= at < order.len(),
            !after.contains_key(order[at]),
            forall|x: Seq<u8>| #[trigger]
                after.contains_key(x) && x != self.head_key() ==> entries.contains_key(x),
            forall|i: int|
                0 <= i < order.len() && i != at && i != at - 1 && i != at + 1
                    ==> after.contains_key(#[trigger] order[i]) && after[order[i]]
                    == entries[order[i]],
            at > 0 ==> self.node_at(after, order[at - 1]) == Some(
                Node {
                    payload: self.node_at(entries, order[at - 1]).unwrap().payload,
                    previous: self.node_at(entries, order[at - 1]).unwrap().previous,
                    next: next_in(order, at),
                },
            ),
            at < order.len() - 1 ==> self.node_at(after, order[at + 1]) == Some(
                Node {
                    payload: self.node_at(entries, order[at + 1]).unwrap().payload,
                    previous: previous_in(order, at),
                    next: self.node_at(entries, order[at + 1]).unwrap().next,
                },
            ),
            self.head_of(after) == Some(first_of(order.remove(at))),
        ensures
            self.well_formed(after, order.remove(at)),
    {
        let rest = order.remove(at);
        let head = self.head_key();
        assert forall|j: int| 0 <= j < rest.len() implies #[trigger] self.linked_at(
            after,
            rest,
            j,
        ) by {
            let i = if j < at {
                j
            } else {
                j + 1
            };
            assert(rest[j] == order[i]);
            assert(self.linked_at(entries, order, i));
            if j > 0 {
                assert(rest[j - 1] == order[if j - 1 < at {
                    j - 1
                } else {
                    j
                }]);
            }
            if j < rest.len() - 1 {
                assert(rest[j + 1] == order[if j + 1 < at {
                    j + 1
                } else {
                    j + 2
                }]);
            }
            if i == at - 1 {
            } else if i == at + 1 {
            } else {
                assert(after.contains_key(order[i]) && after[order[i]] == entries[order[i]]);
            }
        }
        assert forall|x: Seq<u8>|
            after.contains_key(x) && has_prefix(x, head) && x != head implies #[trigger] rest.contains(
            x,
        ) by {
            assert(entries.contains_key(x));
            assert(order.contains(x));
            let i = order.index_of(x);
            if i < at {
                assert(rest[i] == x);
            } else {
                assert(rest[i - 1] == x);
            }
        }
    }

    /// Removing keeps the list: on a store whose entries are exactly those of
    /// `order`, linked in that order, removing finds no broken link, and
    /// afterwards the entries are exactly those of `order` without the final
    /// key removed, linked in that order.
    pub proof fn lemma_remove_keeps_order(
        &self,
        entries: Map<Seq<u8>, Seq<u8>>,
        order: Seq<Seq<u8>>,
        k: K::Model,
    )
        requires
            self.well_formed(entries, order),
            K::valid(k),
        ensures
            !self.remove_faults(entries, k),
            self.well_formed(self.after_remove(entries, k), unlinked(order, self.final_key(k))),
    {
        let key = self.final_key(k);
        let head = self.head_key();
        let after = self.after_remove(entries, k);
        self.lemma_key_of_final_key(k);
        if entries.contains_key(key) {
            assert(order.contains(key));
            let at = order.index_of(key);
            let last = order.len() - 1;
            self.lemma_list_keys(entries, order, at);
            self.lemma_node_read(entries, key);
            let node = self.node_at(entries, key).unwrap();
            if at > 0 {
                let p = order[at - 1];
                self.lemma_list_keys(entries, order, at - 1);
                self.lemma_positions_differ(entries, order, at - 1, at);
                let before = self.node_at(entries, p).unwrap();
                self.lemma_node_read(entries, p);
                if at < last {
                    self.lemma_positions_differ(entries, order, at - 1, at + 1);
                }
                self.lemma_node_written(
                    after,
                    p,
                    Node { payload: before.payload, previous: before.previous, next: node.next },
                );
            }
            if at < last {
                let n = order[at + 1];
                self.lemma_list_keys(entries, order, at + 1);
                self.lemma_positions_differ(entries, order, at + 1, at);
                let behind = self.node_at(entries, n).unwrap();
                self.lemma_node_read(entries, n);
                self.lemma_node_written(
                    after,
                    n,
                    Node { payload: behind.payload, previous: node.previous, next: behind.next },
                );
                if at == 0 {
                    self.lemma_head_written(after, n);
                }
            }
            assert(order.remove(at).len() == order.len() - 1);
            if at == 0 && at < last {
                assert(order.remove(at)[0] == order[1]);
            }
            if at > 0 {
                assert(order.remove(at)[0] == order[0]);
            }
            assert(self.head_of(after) == Some(first_of(order.remove(at))));
            assert forall|i: int|
                0 <= i < order.len() && i != at && i != at - 1 && i != at + 1 implies after.contains_key(
                #[trigger] order[i],
            ) && after[order[i]] == entries[order[i]] by {
                self.lemma_list_keys(entries, order, i);
                self.lemma_positions_differ(entries, order, i, at);
                if at > 0 {
                    self.lemma_positions_differ(entries, order, i, at - 1);
                }
                if at < last {
                    self.lemma_positions_differ(entries, order, i, at + 1);
                }
            }
            self.lemma_unlink(entries, after, order, at);
        } else {
            if order.contains(key) {
                let at = order.index_of(key);
                self.lemma_list_keys(entries, order, at);
            }
        }
    }
}

} // verus!
