//! The order of a linked map: what it means for the entries in a store to form
//! a list, and that inserting and removing keep them one.

use vstd::prelude::*;

use crate::codec::{lemma_decode_encode, lemma_encode_decode, Codec};
use crate::generator::linked_map::{storable, storable_link, Envelope, Node, StorageLinkedMap};
use crate::key::{item_prefix_of, lemma_entry_key_is_not_prefix, lemma_item_prefix_len};
use crate::store::has_prefix;

verus! {

/// The first final key of `order`, if any.
pub open spec fn first_of(order: Seq<Seq<u8>>) -> Option<Seq<u8>> {
    if order.len() == 0 {
        None
    } else {
        Some(order[0])
    }
}

/// The last final key of `order`, if any.
pub open spec fn last_of(order: Seq<Seq<u8>>) -> Option<Seq<u8>> {
    if order.len() == 0 {
        None
    } else {
        Some(order.last())
    }
}

/// The final key before position `i` of `order`; none before the first.
pub open spec fn previous_in(order: Seq<Seq<u8>>, i: int) -> Option<Seq<u8>> {
    if i == 0 {
        None
    } else {
        Some(order[i - 1])
    }
}

/// The final key behind position `i` of `order`; none behind the last.
pub open spec fn next_in(order: Seq<Seq<u8>>, i: int) -> Option<Seq<u8>> {
    if i == order.len() - 1 {
        None
    } else {
        Some(order[i + 1])
    }
}

/// `order` without `key`.
pub open spec fn unlinked(order: Seq<Seq<u8>>, key: Seq<u8>) -> Seq<Seq<u8>> {
    if order.contains(key) {
        order.remove(order.index_of(key))
    } else {
        order
    }
}

impl<K: Codec, V: Codec> StorageLinkedMap<K, V> {
    /// Whether the entry at position `i` of `order` is there, is an entry of a
    /// key of this map, and is linked to its neighbours in `order`.
    pub open spec fn linked_at(
        &self,
        entries: Map<Seq<u8>, Seq<u8>>,
        order: Seq<Seq<u8>>,
        i: int,
    ) -> bool {
        &&& storable(order[i])
        &&& self.key_of(order[i]) is Some
        &&& self.node_at(entries, order[i]) matches Some(node) && node.previous == previous_in(
            order,
            i,
        ) && node.next == next_in(order, i)
    }

    /// Whether the list in `entries` is `order`: the head pointer points at the
    /// first of `order`, and each entry of `order` is linked to the one before
    /// it and the one behind it, the first and the last to none.
    pub open spec fn is_list(&self, entries: Map<Seq<u8>, Seq<u8>>, order: Seq<Seq<u8>>) -> bool {
        &&& self.head_of(entries) == Some(first_of(order))
        &&& forall|i: int| 0 <= i < order.len() ==> #[trigger] self.linked_at(entries, order, i)
    }

    /// Whether `order` holds every final key under the item prefix that has an
    /// entry, the head key aside.
    pub open spec fn covers(&self, entries: Map<Seq<u8>, Seq<u8>>, order: Seq<Seq<u8>>) -> bool {
        forall|key: Seq<u8>|
            entries.contains_key(key) && has_prefix(key, self.head_key()) && key
                != self.head_key() ==> #[trigger] order.contains(key)
    }

    /// Whether the entries of the map in `entries` are exactly those of
    /// `order`, linked in that order.
    pub open spec fn well_formed(
        &self,
        entries: Map<Seq<u8>, Seq<u8>>,
        order: Seq<Seq<u8>>,
    ) -> bool {
        self.is_list(entries, order) && self.covers(entries, order)
    }

    /// The order after `k` was inserted: as it was where `k` had an entry, with
    /// the final key of `k` in front where it had none.
    pub open spec fn order_after_insert(
        &self,
        entries: Map<Seq<u8>, Seq<u8>>,
        order: Seq<Seq<u8>>,
        k: K::Model,
    ) -> Seq<Seq<u8>> {
        if entries.contains_key(self.final_key(k)) {
            order
        } else {
            seq![self.final_key(k)] + order
        }
    }

    /// The keys and values that the list `order` holds, in order.
    pub open spec fn listing(&self, entries: Map<Seq<u8>, Seq<u8>>, order: Seq<Seq<u8>>) -> Seq<
        (K::Model, V::Model),
    > {
        Seq::new(
            order.len(),
            |i: int| (self.key_of(order[i]).unwrap(), self.node_at(entries, order[i]).unwrap().payload),
        )
    }

    /// The final key of a key is a final key of the map: it reads back as the
    /// key, starts with the item prefix and is not the head key.
    pub proof fn lemma_key_of_final_key(&self, k: K::Model)
        requires
            K::valid(k),
        ensures
            self.key_of(self.final_key(k)) == Some(k),
            self.final_key(k) != self.head_key(),
            has_prefix(self.final_key(k), self.head_key()),
    {
        let hasher = self.hasher.as_hasher();
        let prefix = item_prefix_of(self.module_prefix@, self.item_prefix@);
        let encoded = K::encoding(k);
        lemma_item_prefix_len(self.module_prefix@, self.item_prefix@);
        hasher.lemma_digest_len(encoded);
        lemma_entry_key_is_not_prefix(self.module_prefix@, self.item_prefix@, hasher, encoded);
        assert(self.head_key() == prefix) by {
            assert(prefix + Seq::<u8>::empty() == prefix);
        }
        let key = self.final_key(k);
        assert(key == prefix + (hasher.digest(encoded) + encoded));
        assert(key.skip(32 + hasher.digest_len() as int) == encoded);
        lemma_decode_encode::<K>(k);
    }

    /// What reads back as a key is a final key of the map.
    pub proof fn lemma_key_of_is_entry_key(&self, key: Seq<u8>)
        requires
            self.key_of(key) is Some,
        ensures
            key != self.head_key(),
            has_prefix(key, self.head_key()),
            K::valid(self.key_of(key).unwrap()),
            self.final_key(self.key_of(key).unwrap()) == key,
    {
        let skipped = 32 + self.hasher.as_hasher().digest_len();
        lemma_encode_decode::<K>(key.skip(skipped as int));
        self.lemma_key_of_final_key(self.key_of(key).unwrap());
    }

    /// An entry that was written reads back as written.
    pub proof fn lemma_node_written(
        &self,
        entries: Map<Seq<u8>, Seq<u8>>,
        key: Seq<u8>,
        node: Node<V::Model>,
    )
        requires
            V::valid(node.payload),
            storable_link(node.previous),
            storable_link(node.next),
            entries.contains_key(key),
            entries[key] == Self::envelope(node),
        ensures
            self.node_at(entries, key) == Some(node),
    {
        lemma_decode_encode::<Envelope<V>>((node.payload, (node.previous, node.next)));
    }

    /// An entry that reads back holds a valid value and links that can be stored.
    pub proof fn lemma_node_read(&self, entries: Map<Seq<u8>, Seq<u8>>, key: Seq<u8>)
        requires
            self.node_at(entries, key) is Some,
        ensures
            entries.contains_key(key),
            V::valid(self.node_at(entries, key).unwrap().payload),
            storable_link(self.node_at(entries, key).unwrap().previous),
            storable_link(self.node_at(entries, key).unwrap().next),
    {
        lemma_encode_decode::<Envelope<V>>(entries[key]);
    }

    /// A head pointer that was written reads back as written.
    pub proof fn lemma_head_written(&self, entries: Map<Seq<u8>, Seq<u8>>, key: Seq<u8>)
        requires
            storable(key),
            entries.contains_key(self.head_key()),
            entries[self.head_key()] == Self::head_bytes(key),
        ensures
            self.head_of(entries) == Some(Some(key)),
    {
        lemma_decode_encode::<Vec<u8>>(key);
    }

    /// No final key stands twice in a list.
    pub proof fn lemma_list_distinct(
        &self,
        entries: Map<Seq<u8>, Seq<u8>>,
        order: Seq<Seq<u8>>,
        i: int,
        j: int,
    )
        requires
            self.is_list(entries, order),
            0 <= i < j < order.len(),
        ensures
            order[i] != order[j],
        decreases i,
    {
        assert(self.linked_at(entries, order, i));
        assert(self.linked_at(entries, order, j));
        if i > 0 {
            self.lemma_list_distinct(entries, order, i - 1, j - 1);
        }
    }

    /// From an entry of a list to the next and back leads to the same entry,
    /// and so does the way to the one before and forth.
    pub proof fn lemma_links_return(
        &self,
        entries: Map<Seq<u8>, Seq<u8>>,
        order: Seq<Seq<u8>>,
        i: int,
    )
        requires
            self.is_list(entries, order),
            0 <= i < order.len(),
        ensures
            self.node_at(entries, order[i]) is Some,
            match self.node_at(entries, order[i]).unwrap().next {
                Some(next) => self.node_at(entries, next) matches Some(node) && node.previous
                    == Some(order[i]),
                None => i == order.len() - 1,
            },
            match self.node_at(entries, order[i]).unwrap().previous {
                Some(previous) => self.node_at(entries, previous) matches Some(node) && node.next
                    == Some(order[i]),
                None => i == 0,
            },
    {
        assert(self.linked_at(entries, order, i));
        if i < order.len() - 1 {
            assert(self.linked_at(entries, order, i + 1));
        }
        if i > 0 {
            assert(self.linked_at(entries, order, i - 1));
        }
    }

    /// The entries in a store form at most one list.
    pub proof fn lemma_list_unique(
        &self,
        entries: Map<Seq<u8>, Seq<u8>>,
        a: Seq<Seq<u8>>,
        b: Seq<Seq<u8>>,
    )
        requires
            self.is_list(entries, a),
            self.is_list(entries, b),
        ensures
            a == b,
    {
        assert forall|i: int| 0 <= i < a.len() implies i < b.len() && a[i] == b[i] by {
            self.lemma_lists_agree(entries, a, b, i);
        }
        assert forall|i: int| 0 <= i < b.len() implies i < a.len() && b[i] == a[i] by {
            self.lemma_lists_agree(entries, b, a, i);
        }
        if a.len() > 0 {
            self.lemma_lists_agree(entries, a, b, a.len() - 1);
        }
        if b.len() > 0 {
            self.lemma_lists_agree(entries, b, a, b.len() - 1);
        }
        assert(a =~= b);
    }

    proof fn lemma_lists_agree(
        &self,
        entries: Map<Seq<u8>, Seq<u8>>,
        a: Seq<Seq<u8>>,
        b: Seq<Seq<u8>>,
        i: int,
    )
        requires
            self.is_list(entries, a),
            self.is_list(entries, b),
            0 <= i < a.len(),
        ensures
            i < b.len(),
            a[i] == b[i],
        decreases i,
    {
        if i > 0 {
            self.lemma_lists_agree(entries, a, b, i - 1);
            assert(self.linked_at(entries, a, i - 1));
            assert(self.linked_at(entries, b, i - 1));
        }
    }

    /// Whether the entry at position `i` of `walked` is there, is an entry of
    /// a key of this map, and is linked to its neighbours in `walked`, the last
    /// of them to `current` behind it.
    pub open spec fn walked_at(
        &self,
        entries: Map<Seq<u8>, Seq<u8>>,
        walked: Seq<Seq<u8>>,
        current: Option<Seq<u8>>,
        i: int,
    ) -> bool {
        &&& storable(walked[i])
        &&& self.key_of(walked[i]) is Some
        &&& self.node_at(entries, walked[i]) matches Some(node) && node.previous == previous_in(
            walked,
            i,
        ) && node.next == if i == walked.len() - 1 {
            current
        } else {
            Some(walked[i + 1])
        }
    }

    /// Whether `walked` is the beginning of the list in `entries`, and
    /// `current` the link behind it.
    pub open spec fn is_walk(
        &self,
        entries: Map<Seq<u8>, Seq<u8>>,
        walked: Seq<Seq<u8>>,
        current: Option<Seq<u8>>,
    ) -> bool {
        &&& self.head_of(entries) == Some(
            if walked.len() == 0 {
                current
            } else {
                Some(walked[0])
            },
        )
        &&& forall|i: int|
            0 <= i < walked.len() ==> #[trigger] self.walked_at(entries, walked, current, i)
    }

    /// No final key stands twice in the beginning of a list.
    pub proof fn lemma_walk_distinct(
        &self,
        entries: Map<Seq<u8>, Seq<u8>>,
        walked: Seq<Seq<u8>>,
        current: Option<Seq<u8>>,
        i: int,
        j: int,
    )
        requires
            self.is_walk(entries, walked, current),
            0 <= i < j < walked.len(),
        ensures
            walked[i] != walked[j],
        decreases i,
    {
        assert(self.walked_at(entries, walked, current, i));
        assert(self.walked_at(entries, walked, current, j));
        if i > 0 {
            self.lemma_walk_distinct(entries, walked, current, i - 1, j - 1);
        }
    }

    /// The beginning of a list is no longer than the store has entries.
    pub proof fn lemma_walk_bounded(
        &self,
        entries: Map<Seq<u8>, Seq<u8>>,
        walked: Seq<Seq<u8>>,
        current: Option<Seq<u8>>,
    )
        requires
            self.is_walk(entries, walked, current),
            entries.dom().finite(),
        ensures
            walked.len() <= entries.dom().len(),
    {
        assert forall|i: int, j: int| 0 <= i < walked.len() && 0 <= j < walked.len() && i
            != j implies walked[i] != walked[j] by {
            if i < j {
                self.lemma_walk_distinct(entries, walked, current, i, j);
            } else {
                self.lemma_walk_distinct(entries, walked, current, j, i);
            }
        }
        assert(walked.no_duplicates());
        walked.unique_seq_to_set();
        assert forall|x: Seq<u8>| walked.to_set().contains(x) implies entries.dom().contains(
            x,
        ) by {
            let i = choose|i: int| 0 <= i < walked.len() && walked[i] == x;
            assert(self.walked_at(entries, walked, current, i));
        }
        assert(walked.to_set().subset_of(entries.dom()));
        vstd::set_lib::lemma_len_subset(walked.to_set(), entries.dom());
    }

    /// A step along the list: where the link behind `walked` points at an
    /// entry of a key of this map that points back at the last of `walked`,
    /// that entry is the next of the list.
    pub proof fn lemma_walk_step(
        &self,
        entries: Map<Seq<u8>, Seq<u8>>,
        walked: Seq<Seq<u8>>,
        key: Seq<u8>,
    )
        requires
            self.is_walk(entries, walked, Some(key)),
            storable(key),
            self.key_of(key) is Some,
            self.node_at(entries, key) matches Some(node) && node.previous == last_of(walked),
        ensures
            self.is_walk(entries, walked.push(key), self.node_at(entries, key).unwrap().next),
    {
        let longer = walked.push(key);
        let behind = self.node_at(entries, key).unwrap().next;
        assert forall|i: int| 0 <= i < longer.len() implies #[trigger] self.walked_at(
            entries,
            longer,
            behind,
            i,
        ) by {
            if i < walked.len() {
                assert(self.walked_at(entries, walked, Some(key), i));
            }
        }
    }

    /// The beginning of a list agrees with the list: it is no longer, holds
    /// the same final keys, and the link behind it points at the next of the
    /// list, or at none where it is the whole list.
    pub proof fn lemma_walk_follows(
        &self,
        entries: Map<Seq<u8>, Seq<u8>>,
        walked: Seq<Seq<u8>>,
        current: Option<Seq<u8>>,
        order: Seq<Seq<u8>>,
    )
        requires
            self.is_walk(entries, walked, current),
            self.is_list(entries, order),
        ensures
            walked.len() <= order.len(),
            forall|i: int| 0 <= i < walked.len() ==> walked[i] == order[i],
            current == if walked.len() < order.len() {
                Some(order[walked.len() as int])
            } else {
                None
            },
    {
        assert forall|i: int| 0 <= i < walked.len() implies i < order.len() && walked[i]
            == order[i] by {
            self.lemma_walk_agrees(entries, walked, current, order, i);
        }
        if walked.len() > 0 {
            let last = walked.len() - 1;
            self.lemma_walk_agrees(entries, walked, current, order, last);
            assert(self.walked_at(entries, walked, current, last));
            assert(self.linked_at(entries, order, last));
        }
    }

    proof fn lemma_walk_agrees(
        &self,
        entries: Map<Seq<u8>, Seq<u8>>,
        walked: Seq<Seq<u8>>,
        current: Option<Seq<u8>>,
        order: Seq<Seq<u8>>,
        i: int,
    )
        requires
            self.is_walk(entries, walked, current),
            self.is_list(entries, order),
            0 <= i < walked.len(),
        ensures
            i < order.len(),
            walked[i] == order[i],
        decreases i,
    {
        if i > 0 {
            self.lemma_walk_agrees(entries, walked, current, order, i - 1);
            assert(self.walked_at(entries, walked, current, i - 1));
            assert(self.linked_at(entries, order, i - 1));
        }
    }

    /// The beginning of a list with no link behind it is the list.
    pub proof fn lemma_walk_done(&self, entries: Map<Seq<u8>, Seq<u8>>, walked: Seq<Seq<u8>>)
        requires
            self.is_walk(entries, walked, None),
        ensures
            self.is_list(entries, walked),
    {
        assert forall|i: int| 0 <= i < walked.len() implies #[trigger] self.linked_at(
            entries,
            walked,
            i,
        ) by {
            assert(self.walked_at(entries, walked, None, i));
        }
    }

    /// A store without entries under the item prefix holds the empty list.
    pub proof fn lemma_empty_list(&self, entries: Map<Seq<u8>, Seq<u8>>)
        requires
            forall|key: Seq<u8>| #[trigger]
                entries.contains_key(key) ==> !has_prefix(key, self.head_key()),
        ensures
            self.well_formed(entries, Seq::empty()),
    {
        let head = self.head_key();
        assert(head.subrange(0, head.len() as int) == head);
        assert(has_prefix(head, head));
        assert(!entries.contains_key(head));
    }
}

} // verus!
