//! The key-value store that every storage item reads and writes.
//!
//! Keys and values are raw byte strings. A store is viewed as a finite map
//! from keys to values; no ordering of keys is relied upon, only exact lookup
//! and removal of all keys that share a prefix.

use vstd::prelude::*;

verus! {

/// Whether `prefix` is an initial segment of `key`.
pub open spec fn has_prefix(key: Seq<u8>, prefix: Seq<u8>) -> bool {
    prefix.len() <= key.len() && key.subrange(0, prefix.len() as int) == prefix
}

/// The entries of `entries` whose key does not start with `prefix`.
pub open spec fn without_prefix(entries: Map<Seq<u8>, Seq<u8>>, prefix: Seq<u8>) -> Map<
    Seq<u8>,
    Seq<u8>,
> {
    Map::new(|k: Seq<u8>| entries.contains_key(k) && !has_prefix(k, prefix), |k: Seq<u8>| entries[k])
}

/// A prefix of a concatenation: `a + b` starts with `a`.
pub proof fn lemma_concat_has_prefix(a: Seq<u8>, b: Seq<u8>)
    ensures
        has_prefix(a + b, a),
{
    assert((a + b).subrange(0, a.len() as int) == a);
}

/// Behind a common head `a`, `a + b` starts with `a + c` exactly when `b` starts with `c`.
pub proof fn lemma_has_prefix_behind(a: Seq<u8>, b: Seq<u8>, c: Seq<u8>)
    ensures
        has_prefix(a + b, a + c) == has_prefix(b, c),
{
    if c.len() <= b.len() {
        let l = (a + b).subrange(0, (a + c).len() as int);
        if b.subrange(0, c.len() as int) == c {
            assert(l == a + c);
        }
        if l == a + c {
            assert forall|i: int| 0 <= i < c.len() implies b.subrange(0, c.len() as int)[i]
                == c[i] by {
                assert(l[a.len() + i] == (a + c)[a.len() + i]);
            }
            assert(b.subrange(0, c.len() as int) == c);
        }
    }
}

/// Compares two byte strings.
pub fn bytes_eq(a: &[u8], b: &[u8]) -> (r: bool)
    ensures
        r == (a@ == b@),
{
    if a.len() != b.len() {
        return false;
    }
    let mut i: usize = 0;
    while i < a.len()
        invariant
            a.len() == b.len(),
            i <= a.len(),
            a@.subrange(0, i as int) == b@.subrange(0, i as int),
        decreases a.len() - i,
    {
        if a[i] != b[i] {
            return false;
        }
        assert(a@.subrange(0, i + 1) == a@.subrange(0, i as int).push(a@[i as int]));
        assert(b@.subrange(0, i + 1) == b@.subrange(0, i as int).push(b@[i as int]));
        i += 1;
    }
    assert(a@ == a@.subrange(0, a.len() as int));
    assert(b@ == b@.subrange(0, b.len() as int));
    true
}

/// Tells whether `key` starts with `prefix`.
pub fn starts_with(key: &[u8], prefix: &[u8]) -> (r: bool)
    ensures
        r == has_prefix(key@, prefix@),
{
    if prefix.len() > key.len() {
        return false;
    }
    let mut i: usize = 0;
    while i < prefix.len()
        invariant
            prefix.len() <= key.len(),
            i <= prefix.len(),
            key@.subrange(0, i as int) == prefix@.subrange(0, i as int),
        decreases prefix.len() - i,
    {
        if key[i] != prefix[i] {
            assert(key@.subrange(0, prefix.len() as int)[i as int] != prefix@[i as int]);
            return false;
        }
        assert(key@.subrange(0, i + 1) == key@.subrange(0, i as int).push(key@[i as int]));
        assert(prefix@.subrange(0, i + 1) == prefix@.subrange(0, i as int).push(
            prefix@[i as int],
        ));
        i += 1;
    }
    assert(prefix@ == prefix@.subrange(0, prefix.len() as int));
    true
}

/// Copies a byte string into a fresh vector.
pub fn to_bytes(src: &[u8]) -> (r: Vec<u8>)
    ensures
        r@ == src@,
{
    let mut out: Vec<u8> = Vec::new();
    let mut i: usize = 0;
    while i < src.len()
        invariant
            i <= src.len(),
            out@ == src@.subrange(0, i as int),
        decreases src.len() - i,
    {
        out.push(src[i]);
        assert(src@.subrange(0, i + 1) == src@.subrange(0, i as int).push(src@[i as int]));
        i += 1;
    }
    assert(src@ == src@.subrange(0, src.len() as int));
    out
}

/// Appends `src` to `out`.
pub fn append_bytes(out: &mut Vec<u8>, src: &[u8])
    ensures
        final(out)@ == old(out)@ + src@,
{
    let mut i: usize = 0;
    while i < src.len()
        invariant
            i <= src.len(),
            out@ == old(out)@ + src@.subrange(0, i as int),
        decreases src.len() - i,
    {
        out.push(src[i]);
        assert(src@.subrange(0, i + 1) == src@.subrange(0, i as int).push(src@[i as int]));
        i += 1;
    }
    assert(src@ == src@.subrange(0, src.len() as int));
}

/// A key-value store over raw bytes.
///
/// The view of a store is the finite map of the entries it holds.
pub trait Store: View<V = Map<Seq<u8>, Seq<u8>>> {
    /// A store holds finitely many entries.
    proof fn lemma_finite(&self)
        ensures
            self@.dom().finite(),
    ;

    /// The value stored under `key`, if any.
    fn get(&self, key: &[u8]) -> (r: Option<Vec<u8>>)
        ensures
            match r {
                Some(v) => self@.contains_key(key@) && self@[key@] == v@,
                None => !self@.contains_key(key@),
            },
    ;

    /// Stores `value` under `key`, replacing what was there.
    fn set(&mut self, key: &[u8], value: &[u8])
        ensures
            final(self)@ == old(self)@.insert(key@, value@),
    ;

    /// Removes the entry under `key`, if any.
    fn remove(&mut self, key: &[u8])
        ensures
            final(self)@ == old(self)@.remove(key@),
    ;

    /// Removes every entry whose key starts with `prefix`.
    fn remove_prefix(&mut self, prefix: &[u8])
        ensures
            final(self)@ == without_prefix(old(self)@, prefix@),
    ;
}

/// Whether a slot with key `key` is struck out when purging by `pattern`:
/// the key itself when `whole`, every key that starts with it otherwise.
pub open spec fn struck(key: Seq<u8>, pattern: Seq<u8>, whole: bool) -> bool {
    if whole {
        key == pattern
    } else {
        has_prefix(key, pattern)
    }
}

/// The map that a list of slots stands for: a later slot overrides an earlier one
/// with the same key.
pub open spec fn map_of(slots: Seq<(Vec<u8>, Vec<u8>)>) -> Map<Seq<u8>, Seq<u8>>
    decreases slots.len(),
{
    if slots.len() == 0 {
        Map::empty()
    } else {
        map_of(slots.drop_last()).insert(slots.last().0@, slots.last().1@)
    }
}

proof fn lemma_map_of_finite(slots: Seq<(Vec<u8>, Vec<u8>)>)
    ensures
        map_of(slots).dom().finite(),
    decreases slots.len(),
{
    if slots.len() > 0 {
        lemma_map_of_finite(slots.drop_last());
    }
}

/// A store held in memory as a list of slots.
pub struct MemoryStore {
    slots: Vec<(Vec<u8>, Vec<u8>)>,
}

impl View for MemoryStore {
    type V = Map<Seq<u8>, Seq<u8>>;

    closed spec fn view(&self) -> Map<Seq<u8>, Seq<u8>> {
        map_of(self.slots@)
    }
}

impl MemoryStore {
    /// An empty store.
    pub fn new() -> (r: Self)
        ensures
            r@ == Map::<Seq<u8>, Seq<u8>>::empty(),
    {
        MemoryStore { slots: Vec::new() }
    }

    /// The number of entries held.
    pub fn len(&self) -> (r: usize)
        ensures
            r == self@.dom().len(),
    {
        let mut count: usize = 0;
        let mut i: usize = 0;
        let ghost mut seen: Map<Seq<u8>, Seq<u8>> = Map::empty();
        while i < self.slots.len()
            invariant
                i <= self.slots.len(),
                seen == map_of(self.slots@.take(i as int)),
                seen.dom().finite(),
                count == seen.dom().len(),
                count <= i,
            decreases self.slots.len() - i,
        {
            let fresh = !self.holds_before(i, &self.slots[i].0);
            proof {
                assert(self.slots@.take(i + 1).drop_last() == self.slots@.take(i as int));
                seen = map_of(self.slots@.take(i + 1));
            }
            if fresh {
                count += 1;
            }
            i += 1;
        }
        assert(self.slots@.take(self.slots.len() as int) == self.slots@);
        count
    }

    /// Whether one of the first `end` slots has the key `key`.
    fn holds_before(&self, end: usize, key: &Vec<u8>) -> (r: bool)
        requires
            end <= self.slots.len(),
        ensures
            r == map_of(self.slots@.take(end as int)).contains_key(key@),
    {
        let mut i: usize = 0;
        while i < end
            invariant
                i <= end <= self.slots.len(),
                !map_of(self.slots@.take(i as int)).contains_key(key@),
            decreases end - i,
        {
            if bytes_eq(self.slots[i].0.as_slice(), key.as_slice()) {
                proof {
                    lemma_map_of_holds(self.slots@.take(end as int), i as int);
                }
                return true;
            }
            assert(self.slots@.take(i + 1).drop_last() == self.slots@.take(i as int));
            i += 1;
        }
        false
    }

    /// Drops every slot struck out by `pattern`.
    fn purge(&mut self, pattern: &[u8], whole: bool)
        ensures
            final(self)@ == Map::new(
                |k: Seq<u8>| old(self)@.contains_key(k) && !struck(k, pattern@, whole),
                |k: Seq<u8>| old(self)@[k],
            ),
    {
        let mut kept: Vec<(Vec<u8>, Vec<u8>)> = Vec::new();
        let mut i: usize = 0;
        let ghost pat = pattern@;
        while i < self.slots.len()
            invariant
                i <= self.slots.len(),
                pat == pattern@,
                map_of(kept@) == Map::new(
                    |k: Seq<u8>|
                        map_of(self.slots@.take(i as int)).contains_key(k) && !struck(
                            k,
                            pat,
                            whole,
                        ),
                    |k: Seq<u8>| map_of(self.slots@.take(i as int))[k],
                ),
            decreases self.slots.len() - i,
        {
            let hit = if whole {
                bytes_eq(self.slots[i].0.as_slice(), pattern)
            } else {
                starts_with(self.slots[i].0.as_slice(), pattern)
            };
            let ghost before = map_of(self.slots@.take(i as int));
            let ghost kept_before = kept@;
            assert(self.slots@.take(i + 1).drop_last() == self.slots@.take(i as int));
            if !hit {
                let k = to_bytes(self.slots[i].0.as_slice());
                let v = to_bytes(self.slots[i].1.as_slice());
                kept.push((k, v));
                assert(kept@.drop_last() == kept_before);
            }
            assert(map_of(kept@) =~= Map::new(
                |k: Seq<u8>|
                    map_of(self.slots@.take(i + 1)).contains_key(k) && !struck(k, pat, whole),
                |k: Seq<u8>| map_of(self.slots@.take(i + 1))[k],
            ));
            i += 1;
        }
        assert(self.slots@.take(self.slots.len() as int) == self.slots@);
        self.slots = kept;
    }
}

/// A slot's key is a key of the map the slots stand for.
proof fn lemma_map_of_holds(slots: Seq<(Vec<u8>, Vec<u8>)>, i: int)
    requires
        0 <= i < slots.len(),
    ensures
        map_of(slots).contains_key(slots[i].0@),
    decreases slots.len(),
{
    if i < slots.len() - 1 {
        lemma_map_of_holds(slots.drop_last(), i);
    }
}

impl Store for MemoryStore {
    proof fn lemma_finite(&self) {
        lemma_map_of_finite(self.slots@);
    }

    fn get(&self, key: &[u8]) -> (r: Option<Vec<u8>>) {
        let mut i: usize = self.slots.len();
        assert(self.slots@.take(i as int) == self.slots@);
        while i > 0
            invariant
                i <= self.slots.len(),
                self@.contains_key(key@) == map_of(self.slots@.take(i as int)).contains_key(
                    key@,
                ),
                self@.contains_key(key@) ==> self@[key@] == map_of(
                    self.slots@.take(i as int),
                )[key@],
            decreases i,
        {
            assert(self.slots@.take(i as int).drop_last() == self.slots@.take(i - 1));
            if bytes_eq(self.slots[i - 1].0.as_slice(), key) {
                return Some(to_bytes(self.slots[i - 1].1.as_slice()));
            }
            i -= 1;
        }
        None
    }

    fn set(&mut self, key: &[u8], value: &[u8]) {
        self.purge(key, true);
        let ghost slots_before = self.slots@;
        self.slots.push((to_bytes(key), to_bytes(value)));
        assert(self.slots@.drop_last() == slots_before);
        assert(self@ =~= old(self)@.insert(key@, value@));
    }

    fn remove(&mut self, key: &[u8]) {
        self.purge(key, true);
        assert(self@ =~= old(self)@.remove(key@));
    }

    fn remove_prefix(&mut self, prefix: &[u8]) {
        self.purge(prefix, false);
        assert(self@ =~= without_prefix(old(self)@, prefix@));
    }
}

} // verus!
