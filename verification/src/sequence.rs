//! The encoding of sequences: the number of items as a little-endian `u64`,
//! then the items in order.

use vstd::prelude::*;

use crate::codec::{Codec, DefaultValue};
use crate::endian::{
    le_bytes, le_value, lemma_le_bytes_len, lemma_le_bytes_of_value, lemma_le_value_of_bytes,
    lemma_pow256_widths, read_le, write_le,
};

verus! {

/// The encodings of the items of `items`, one behind the other.
pub open spec fn encoding_of_items<T: Codec>(items: Seq<T::Model>) -> Seq<u8>
    decreases items.len(),
{
    if items.len() == 0 {
        Seq::empty()
    } else {
        T::encoding(items[0]) + encoding_of_items::<T>(items.skip(1))
    }
}

/// Reads `count` items off the front of `bytes`: the items and the number of
/// bytes they took.
pub open spec fn parse_items<T: Codec>(bytes: Seq<u8>, count: nat) -> Option<(Seq<T::Model>, int)>
    decreases count,
{
    if count == 0 {
        Some((Seq::empty(), 0))
    } else {
        match T::parse(bytes) {
            Some((first, n)) => if 0 <= n <= bytes.len() {
                match parse_items::<T>(bytes.skip(n), (count - 1) as nat) {
                    Some((others, k)) => Some((seq![first] + others, n + k)),
                    None => None,
                }
            } else {
                None
            },
            None => None,
        }
    }
}

/// The models of the items of a vector.
pub open spec fn models<T: Codec>(items: Seq<T>) -> Seq<T::Model> {
    Seq::new(items.len(), |i: int| items[i].model())
}

/// Parsing the encodings of some items, whatever follows them, gives the items back.
pub proof fn lemma_parse_items_encoding<T: Codec>(items: Seq<T::Model>, rest: Seq<u8>)
    requires
        forall|i: int| 0 <= i < items.len() ==> T::valid(#[trigger] items[i]),
    ensures
        parse_items::<T>(encoding_of_items::<T>(items) + rest, items.len()) == Some(
            (items, encoding_of_items::<T>(items).len() as int),
        ),
    decreases items.len(),
{
    if items.len() == 0 {
        assert(items == Seq::<T::Model>::empty());
    } else {
        let head = T::encoding(items[0]);
        let tail = encoding_of_items::<T>(items.skip(1));
        let whole = encoding_of_items::<T>(items) + rest;
        assert(whole == head + (tail + rest));
        T::lemma_parse_encoding(items[0], tail + rest);
        assert(whole.skip(head.len() as int) == tail + rest);
        assert forall|i: int| 0 <= i < items.skip(1).len() implies T::valid(
            #[trigger] items.skip(1)[i],
        ) by {
            assert(items.skip(1)[i] == items[i + 1]);
        }
        lemma_parse_items_encoding::<T>(items.skip(1), rest);
        assert(seq![items[0]] + items.skip(1) == items);
    }
}

/// What the item parser accepts is the encoding of the items it returns.
pub proof fn lemma_parse_items_canonical<T: Codec>(bytes: Seq<u8>, count: nat)
    ensures
        parse_items::<T>(bytes, count) matches Some((items, n)) ==> {
            &&& items.len() == count
            &&& 0 <= n <= bytes.len()
            &&& forall|i: int| 0 <= i < items.len() ==> T::valid(#[trigger] items[i])
            &&& encoding_of_items::<T>(items) == bytes.subrange(0, n)
        },
    decreases count,
{
    if count == 0 {
        assert(bytes.subrange(0, 0) == Seq::<u8>::empty());
    } else {
        T::lemma_parse_canonical(bytes);
        match T::parse(bytes) {
            Some((first, n)) => {
                if 0 <= n <= bytes.len() {
                    lemma_parse_items_canonical::<T>(bytes.skip(n), (count - 1) as nat);
                    match parse_items::<T>(bytes.skip(n), (count - 1) as nat) {
                        Some((others, k)) => {
                            let items = seq![first] + others;
                            assert(items.skip(1) == others);
                            assert(bytes.subrange(0, n) + bytes.skip(n).subrange(0, k)
                                == bytes.subrange(0, n + k));
                            assert forall|i: int| 0 <= i < items.len() implies T::valid(
                                #[trigger] items[i],
                            ) by {
                                if i > 0 {
                                    assert(items[i] == others[i - 1]);
                                }
                            }
                        },
                        None => {},
                    }
                }
            },
            None => {},
        }
    }
}

impl<T: Codec> Codec for Vec<T> {
    type Model = Seq<T::Model>;

    open spec fn model(&self) -> Seq<T::Model> {
        models::<T>(self@)
    }

    open spec fn valid(m: Seq<T::Model>) -> bool {
        &&& m.len() <= u64::MAX
        &&& forall|i: int| 0 <= i < m.len() ==> T::valid(#[trigger] m[i])
    }

    open spec fn encoding(m: Seq<T::Model>) -> Seq<u8> {
        le_bytes(m.len(), 8) + encoding_of_items::<T>(m)
    }

    open spec fn parse(bytes: Seq<u8>) -> Option<(Seq<T::Model>, int)> {
        if bytes.len() >= 8 {
            match parse_items::<T>(
                bytes.skip(8),
                le_value(bytes.subrange(0, 8)),
            ) {
                Some((items, n)) => Some((items, 8 + n)),
                None => None,
            }
        } else {
            None
        }
    }

    proof fn lemma_model_valid(&self) {
        assert(self@.len() == self.len());
        assert forall|i: int| 0 <= i < self.model().len() implies T::valid(
            #[trigger] self.model()[i],
        ) by {
            self@[i].lemma_model_valid();
        }
    }

    proof fn lemma_parse_encoding(m: Seq<T::Model>, rest: Seq<u8>) {
        lemma_pow256_widths();
        lemma_le_bytes_len(m.len(), 8);
        lemma_le_value_of_bytes(m.len(), 8);
        let header = le_bytes(m.len(), 8);
        let whole = header + encoding_of_items::<T>(m) + rest;
        assert(whole.subrange(0, 8) == header);
        assert(whole.skip(8) == encoding_of_items::<T>(m) + rest);
        lemma_parse_items_encoding::<T>(m, rest);
    }

    proof fn lemma_parse_canonical(bytes: Seq<u8>) {
        if bytes.len() >= 8 {
            lemma_pow256_widths();
            lemma_le_bytes_of_value(bytes.subrange(0, 8));
            let count = le_value(bytes.subrange(0, 8));
            lemma_parse_items_canonical::<T>(bytes.skip(8), count);
            match parse_items::<T>(bytes.skip(8), count) {
                Some((items, n)) => {
                    assert(bytes.subrange(0, 8) + bytes.skip(8).subrange(0, n) == bytes.subrange(
                        0,
                        8 + n,
                    ));
                },
                None => {},
            }
        }
    }

    fn encode_to(&self, out: &mut Vec<u8>) {
        write_le(out, self.len() as u64, 8);
        let ghost header = le_bytes(self@.len(), 8);
        let ghost all = self.model();
        let mut i: usize = 0;
        assert(all.skip(0) == all);
        while i < self.len()
            invariant
                i <= self.len(),
                all == self.model(),
                out@ + encoding_of_items::<T>(all.skip(i as int)) == old(out)@ + header
                    + encoding_of_items::<T>(all),
            decreases self.len() - i,
        {
            let ghost before = out@;
            self[i].encode_to(out);
            proof {
                let here = all.skip(i as int);
                assert(here[0] == self@[i as int].model());
                assert(here.skip(1) == all.skip(i + 1));
                assert(before + T::encoding(here[0]) + encoding_of_items::<T>(here.skip(1))
                    == before + (T::encoding(here[0]) + encoding_of_items::<T>(here.skip(1))));
            }
            i += 1;
        }
        assert(out@ + Seq::<u8>::empty() == out@);
        assert(old(out)@ + header + encoding_of_items::<T>(all) == old(out)@ + (header
            + encoding_of_items::<T>(all)));
    }

    fn decode_at(input: &[u8], start: usize) -> (r: Option<(Self, usize)>) {
        if input.len() - start < 8 {
            return None;
        }
        let count: u64 = read_le(input, start, 8);
        let ghost body = input@.skip(start + 8);
        assert(input@.skip(start as int).subrange(0, 8) == input@.subrange(
            start as int,
            start + 8,
        ));
        assert(input@.skip(start as int).skip(8) == body);
        let mut items: Vec<T> = Vec::new();
        let mut pos: usize = start + 8;
        let mut i: u64 = 0;
        assert(body.skip(0) == body);
        assert(models::<T>(items@) + Seq::<T::Model>::empty() == models::<T>(items@));
        while i < count
            invariant
                i <= count,
                start + 8 <= pos <= input.len(),
                items@.len() == i,
                body == input@.skip(start + 8),
                body == input@.skip(start as int).skip(8),
                count == le_value(input@.skip(start as int).subrange(0, 8)),
                parse_items::<T>(body, count as nat) == match parse_items::<T>(
                    body.skip(pos - (start + 8)),
                    (count - i) as nat,
                ) {
                    Some((others, k)) => Some(
                        (models::<T>(items@) + others, (pos - (start + 8)) + k),
                    ),
                    None => None,
                },
            decreases count - i,
        {
            let ghost here = body.skip(pos - (start + 8));
            assert(here == input@.skip(pos as int));
            let ghost so_far = models::<T>(items@);
            match T::decode_at(input, pos) {
                Some((v, end)) => {
                    proof {
                        assert(here.skip(end - pos) == body.skip(end - (start + 8)));
                        match parse_items::<T>(here.skip(end - pos), (count - i - 1) as nat) {
                            Some((others, k)) => {
                                assert(so_far + (seq![v.model()] + others) == so_far.push(
                                    v.model(),
                                ) + others);
                            },
                            None => {},
                        }
                    }
                    items.push(v);
                    assert(models::<T>(items@) == so_far.push(v.model()));
                    pos = end;
                },
                None => {
                    assert(parse_items::<T>(here, (count - i) as nat) is None);
                    return None;
                },
            }
            i += 1;
        }
        assert(models::<T>(items@) + Seq::<T::Model>::empty() == models::<T>(items@));
        Some((items, pos))
    }
}

impl<T: Codec> DefaultValue for Vec<T> {
    open spec fn default_model() -> Seq<T::Model> {
        Seq::empty()
    }

    fn default_value() -> (r: Self) {
        let r: Vec<T> = Vec::new();
        assert(models::<T>(r@) == Seq::<T::Model>::empty());
        r
    }
}

} // verus!
