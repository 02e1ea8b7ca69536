//! The value codec: how typed values become bytes and come back.
//!
//! Every encodable type has a mathematical model, an encoding of each model as
//! a byte string, and a parser that reads one encoding off the front of a byte
//! string. Encodings are self-delimiting, so they can be concatenated; the
//! parser accepts the encodings and nothing else.
//!
//! Unsigned integers are little-endian at their fixed width, a `bool` is one
//! byte `0` or `1`, an `Option` is a tag byte `0` or `1` followed by the value,
//! a pair is its two parts in order, and a `Vec` is its length as a
//! little-endian `u64` followed by its items.

use vstd::prelude::*;

use crate::endian::{
    le_bytes, le_value, lemma_le_bytes_len, lemma_le_bytes_of_value, lemma_le_value_of_bytes,
    lemma_pow256_widths, read_le, write_le,
};

verus! {

/// Bytes that are not the encoding of any value of the expected type.
#[derive(Clone, Copy, Debug, PartialEq, Eq, Structural)]
pub struct DecodeError;

/// A type whose values can be stored.
pub trait Codec: Sized {
    /// The mathematical value that an instance stands for.
    type Model;

    /// The model of this value.
    spec fn model(&self) -> Self::Model;

    /// The models that some value of this type has.
    spec fn valid(m: Self::Model) -> bool;

    /// The bytes that encode `m`.
    spec fn encoding(m: Self::Model) -> Seq<u8>;

    /// Reads one encoding off the front of `bytes`: the model read and the
    /// number of bytes it took.
    spec fn parse(bytes: Seq<u8>) -> Option<(Self::Model, int)>;

    /// The model of every value is valid.
    proof fn lemma_model_valid(&self)
        ensures
            Self::valid(self.model()),
    ;

    /// Parsing an encoding, whatever follows it, gives the model back.
    proof fn lemma_parse_encoding(m: Self::Model, rest: Seq<u8>)
        requires
            Self::valid(m),
        ensures
            Self::parse(Self::encoding(m) + rest) == Some((m, Self::encoding(m).len() as int)),
    ;

    /// What the parser accepts is the encoding of what it returns.
    proof fn lemma_parse_canonical(bytes: Seq<u8>)
        ensures
            Self::parse(bytes) matches Some((m, n)) ==> 0 <= n <= bytes.len() && Self::valid(m)
                && Self::encoding(m) == bytes.subrange(0, n),
    ;

    /// Appends the encoding of this value to `out`.
    fn encode_to(&self, out: &mut Vec<u8>)
        ensures
            final(out)@ == old(out)@ + Self::encoding(self.model()),
    ;

    /// Reads one value from `input` at `start`; returns it with the position
    /// behind it, or `None` where no encoding starts there.
    fn decode_at(input: &[u8], start: usize) -> (r: Option<(Self, usize)>)
        requires
            start <= input.len(),
        ensures
            match r {
                Some((v, end)) => start <= end <= input.len() && Self::parse(
                    input@.skip(start as int),
                ) == Some((v.model(), end - start)),
                None => Self::parse(input@.skip(start as int)) is None,
            },
    ;
}

/// A storable type with a value that stands in for an absent entry.
pub trait DefaultValue: Codec {
    /// The model of the default value.
    spec fn default_model() -> Self::Model;

    /// The default value.
    fn default_value() -> (r: Self)
        ensures
            r.model() == Self::default_model(),
    ;
}

/// What `bytes` decodes to as a whole: the model whose encoding it is.
pub open spec fn decoded<T: Codec>(bytes: Seq<u8>) -> Option<T::Model> {
    match T::parse(bytes) {
        Some((m, n)) => if n == bytes.len() {
            Some(m)
        } else {
            None
        },
        None => None,
    }
}

/// Round trip: decoding the encoding of a value gives the value.
pub proof fn lemma_decode_encode<T: Codec>(m: T::Model)
    requires
        T::valid(m),
    ensures
        decoded::<T>(T::encoding(m)) == Some(m),
{
    T::lemma_parse_encoding(m, Seq::empty());
    assert(T::encoding(m) + Seq::<u8>::empty() == T::encoding(m));
}

/// Round trip for a value held in memory.
pub proof fn lemma_round_trip<T: Codec>(v: T)
    ensures
        decoded::<T>(T::encoding(v.model())) == Some(v.model()),
{
    v.lemma_model_valid();
    lemma_decode_encode::<T>(v.model());
}

/// Only encodings decode: what decodes is the encoding of the result.
pub proof fn lemma_encode_decode<T: Codec>(bytes: Seq<u8>)
    ensures
        decoded::<T>(bytes) matches Some(m) ==> T::valid(m) && T::encoding(m) == bytes,
{
    T::lemma_parse_canonical(bytes);
    assert(bytes.subrange(0, bytes.len() as int) == bytes);
}

/// Two values with the same encoding are the same value.
pub proof fn lemma_encoding_injective<T: Codec>(a: T::Model, b: T::Model)
    requires
        T::valid(a),
        T::valid(b),
        T::encoding(a) == T::encoding(b),
    ensures
        a == b,
{
    lemma_decode_encode::<T>(a);
    lemma_decode_encode::<T>(b);
}

/// No encoding is the beginning of another: if the encoding of `a`, followed by
/// anything, equals that of `b`, followed by anything, then `a` is `b`.
pub proof fn lemma_encoding_prefix_free<T: Codec>(
    a: T::Model,
    rest_a: Seq<u8>,
    b: T::Model,
    rest_b: Seq<u8>,
)
    requires
        T::valid(a),
        T::valid(b),
        T::encoding(a) + rest_a == T::encoding(b) + rest_b,
    ensures
        a == b,
        rest_a == rest_b,
{
    T::lemma_parse_encoding(a, rest_a);
    T::lemma_parse_encoding(b, rest_b);
    let whole = T::encoding(a) + rest_a;
    assert(whole.skip(T::encoding(a).len() as int) == rest_a);
    assert(whole.skip(T::encoding(b).len() as int) == rest_b);
}

/// Encodes a value.
pub fn encode<T: Codec>(v: &T) -> (r: Vec<u8>)
    ensures
        r@ == T::encoding(v.model()),
        decoded::<T>(r@) == Some(v.model()),
{
    let mut out: Vec<u8> = Vec::new();
    v.encode_to(&mut out);
    proof {
        assert(Seq::<u8>::empty() + T::encoding(v.model()) == T::encoding(v.model()));
        lemma_round_trip::<T>(*v);
    }
    out
}

/// Decodes `bytes` as a whole. Fails exactly when `bytes` is not the encoding
/// of a value, be it too short, too long or malformed.
pub fn decode<T: Codec>(bytes: &[u8]) -> (r: Result<T, DecodeError>)
    ensures
        match r {
            Ok(v) => decoded::<T>(bytes@) == Some(v.model()) && T::encoding(v.model()) == bytes@,
            Err(e) => decoded::<T>(bytes@) is None,
        },
{
    assert(bytes@.skip(0) == bytes@);
    proof {
        lemma_encode_decode::<T>(bytes@);
    }
    match T::decode_at(bytes, 0) {
        Some((v, end)) => {
            if end == bytes.len() {
                Ok(v)
            } else {
                Err(DecodeError)
            }
        },
        None => Err(DecodeError),
    }
}

impl Codec for u8 {
    type Model = u8;

    open spec fn model(&self) -> u8 {
        *self
    }

    open spec fn valid(m: u8) -> bool {
        true
    }

    open spec fn encoding(m: u8) -> Seq<u8> {
        seq![m]
    }

    open spec fn parse(bytes: Seq<u8>) -> Option<(u8, int)> {
        if bytes.len() >= 1 {
            Some((bytes[0], 1))
        } else {
            None
        }
    }

    proof fn lemma_model_valid(&self) {
    }

    proof fn lemma_parse_encoding(m: u8, rest: Seq<u8>) {
    }

    proof fn lemma_parse_canonical(bytes: Seq<u8>) {
        if bytes.len() >= 1 {
            assert(seq![bytes[0]] == bytes.subrange(0, 1));
        }
    }

    fn encode_to(&self, out: &mut Vec<u8>) {
        out.push(*self);
        assert(out@ == old(out)@ + seq![*self]);
    }

    fn decode_at(input: &[u8], start: usize) -> (r: Option<(Self, usize)>) {
        if start < input.len() {
            Some((input[start], start + 1))
        } else {
            None
        }
    }
}

impl DefaultValue for u8 {
    open spec fn default_model() -> u8 {
        0
    }

    fn default_value() -> (r: Self) {
        0
    }
}

impl Codec for bool {
    type Model = bool;

    open spec fn model(&self) -> bool {
        *self
    }

    open spec fn valid(m: bool) -> bool {
        true
    }

    open spec fn encoding(m: bool) -> Seq<u8> {
        if m {
            seq![1u8]
        } else {
            seq![0u8]
        }
    }

    open spec fn parse(bytes: Seq<u8>) -> Option<(bool, int)> {
        if bytes.len() >= 1 && bytes[0] == 0 {
            Some((false, 1))
        } else if bytes.len() >= 1 && bytes[0] == 1 {
            Some((true, 1))
        } else {
            None
        }
    }

    proof fn lemma_model_valid(&self) {
    }

    proof fn lemma_parse_encoding(m: bool, rest: Seq<u8>) {
    }

    proof fn lemma_parse_canonical(bytes: Seq<u8>) {
        if bytes.len() >= 1 {
            assert(seq![bytes[0]] == bytes.subrange(0, 1));
        }
    }

    fn encode_to(&self, out: &mut Vec<u8>) {
        if *self {
            out.push(1);
            assert(out@ == old(out)@ + seq![1u8]);
        } else {
            out.push(0);
            assert(out@ == old(out)@ + seq![0u8]);
        }
    }

    fn decode_at(input: &[u8], start: usize) -> (r: Option<(Self, usize)>) {
        if start < input.len() {
            let tag: u8 = input[start];
            if tag == 0 {
                Some((false, start + 1))
            } else if tag == 1 {
                Some((true, start + 1))
            } else {
                None
            }
        } else {
            None
        }
    }
}

impl DefaultValue for bool {
    open spec fn default_model() -> bool {
        false
    }

    fn default_value() -> (r: Self) {
        false
    }
}

impl Codec for u16 {
    type Model = u16;

    open spec fn model(&self) -> u16 {
        *self
    }

    open spec fn valid(m: u16) -> bool {
        true
    }

    open spec fn encoding(m: u16) -> Seq<u8> {
        le_bytes(m as nat, 2)
    }

    open spec fn parse(bytes: Seq<u8>) -> Option<(u16, int)> {
        if bytes.len() >= 2 {
            Some((le_value(bytes.subrange(0, 2)) as u16, 2))
        } else {
            None
        }
    }

    proof fn lemma_model_valid(&self) {
    }

    proof fn lemma_parse_encoding(m: u16, rest: Seq<u8>) {
        lemma_pow256_widths();
        lemma_le_bytes_len(m as nat, 2);
        lemma_le_value_of_bytes(m as nat, 2);
        assert((le_bytes(m as nat, 2) + rest).subrange(0, 2) == le_bytes(m as nat, 2));
    }

    proof fn lemma_parse_canonical(bytes: Seq<u8>) {
        if bytes.len() >= 2 {
            lemma_pow256_widths();
            lemma_le_bytes_of_value(bytes.subrange(0, 2));
        }
    }

    fn encode_to(&self, out: &mut Vec<u8>) {
        write_le(out, *self as u64, 2);
    }

    fn decode_at(input: &[u8], start: usize) -> (r: Option<(Self, usize)>) {
        if input.len() - start >= 2 {
            let v: u64 = read_le(input, start, 2);
            proof {
                lemma_pow256_widths();
                lemma_le_bytes_of_value(input@.subrange(start as int, start + 2));
                assert(input@.skip(start as int).subrange(0, 2) == input@.subrange(
                    start as int,
                    start + 2,
                ));
            }
            Some((v as u16, start + 2))
        } else {
            None
        }
    }
}

impl DefaultValue for u16 {
    open spec fn default_model() -> u16 {
        0
    }

    fn default_value() -> (r: Self) {
        0
    }
}

impl Codec for u32 {
    type Model = u32;

    open spec fn model(&self) -> u32 {
        *self
    }

    open spec fn valid(m: u32) -> bool {
        true
    }

    open spec fn encoding(m: u32) -> Seq<u8> {
        le_bytes(m as nat, 4)
    }

    open spec fn parse(bytes: Seq<u8>) -> Option<(u32, int)> {
        if bytes.len() >= 4 {
            Some((le_value(bytes.subrange(0, 4)) as u32, 4))
        } else {
            None
        }
    }

    proof fn lemma_model_valid(&self) {
    }

    proof fn lemma_parse_encoding(m: u32, rest: Seq<u8>) {
        lemma_pow256_widths();
        lemma_le_bytes_len(m as nat, 4);
        lemma_le_value_of_bytes(m as nat, 4);
        assert((le_bytes(m as nat, 4) + rest).subrange(0, 4) == le_bytes(m as nat, 4));
    }

    proof fn lemma_parse_canonical(bytes: Seq<u8>) {
        if bytes.len() >= 4 {
            lemma_pow256_widths();
            lemma_le_bytes_of_value(bytes.subrange(0, 4));
        }
    }

    fn encode_to(&self, out: &mut Vec<u8>) {
        write_le(out, *self as u64, 4);
    }

    fn decode_at(input: &[u8], start: usize) -> (r: Option<(Self, usize)>) {
        if input.len() - start >= 4 {
            let v: u64 = read_le(input, start, 4);
            proof {
                lemma_pow256_widths();
                lemma_le_bytes_of_value(input@.subrange(start as int, start + 4));
                assert(input@.skip(start as int).subrange(0, 4) == input@.subrange(
                    start as int,
                    start + 4,
                ));
            }
            Some((v as u32, start + 4))
        } else {
            None
        }
    }
}

impl DefaultValue for u32 {
    open spec fn default_model() -> u32 {
        0
    }

    fn default_value() -> (r: Self) {
        0
    }
}

impl Codec for u64 {
    type Model = u64;

    open spec fn model(&self) -> u64 {
        *self
    }

    open spec fn valid(m: u64) -> bool {
        true
    }

    open spec fn encoding(m: u64) -> Seq<u8> {
        le_bytes(m as nat, 8)
    }

    open spec fn parse(bytes: Seq<u8>) -> Option<(u64, int)> {
        if bytes.len() >= 8 {
            Some((le_value(bytes.subrange(0, 8)) as u64, 8))
        } else {
            None
        }
    }

    proof fn lemma_model_valid(&self) {
    }

    proof fn lemma_parse_encoding(m: u64, rest: Seq<u8>) {
        lemma_pow256_widths();
        lemma_le_bytes_len(m as nat, 8);
        lemma_le_value_of_bytes(m as nat, 8);
        assert((le_bytes(m as nat, 8) + rest).subrange(0, 8) == le_bytes(m as nat, 8));
    }

    proof fn lemma_parse_canonical(bytes: Seq<u8>) {
        if bytes.len() >= 8 {
            lemma_pow256_widths();
            lemma_le_bytes_of_value(bytes.subrange(0, 8));
        }
    }

    fn encode_to(&self, out: &mut Vec<u8>) {
        write_le(out, *self as u64, 8);
    }

    fn decode_at(input: &[u8], start: usize) -> (r: Option<(Self, usize)>) {
        if input.len() - start >= 8 {
            let v: u64 = read_le(input, start, 8);
            proof {
                lemma_pow256_widths();
                lemma_le_bytes_of_value(input@.subrange(start as int, start + 8));
                assert(input@.skip(start as int).subrange(0, 8) == input@.subrange(
                    start as int,
                    start + 8,
                ));
            }
            Some((v as u64, start + 8))
        } else {
            None
        }
    }
}

impl DefaultValue for u64 {
    open spec fn default_model() -> u64 {
        0
    }

    fn default_value() -> (r: Self) {
        0
    }
}

impl<T: Codec> Codec for Option<T> {
    type Model = Option<T::Model>;

    open spec fn model(&self) -> Option<T::Model> {
        match self {
            Some(v) => Some(v.model()),
            None => None,
        }
    }

    open spec fn valid(m: Option<T::Model>) -> bool {
        match m {
            Some(v) => T::valid(v),
            None => true,
        }
    }

    open spec fn encoding(m: Option<T::Model>) -> Seq<u8> {
        match m {
            Some(v) => seq![1u8] + T::encoding(v),
            None => seq![0u8],
        }
    }

    open spec fn parse(bytes: Seq<u8>) -> Option<(Option<T::Model>, int)> {
        if bytes.len() >= 1 && bytes[0] == 0 {
            Some((None, 1))
        } else if bytes.len() >= 1 && bytes[0] == 1 {
            match T::parse(bytes.skip(1)) {
                Some((v, n)) => Some((Some(v), n + 1)),
                None => None,
            }
        } else {
            None
        }
    }

    proof fn lemma_model_valid(&self) {
        match self {
            Some(v) => {
                v.lemma_model_valid();
            },
            None => {},
        }
    }

    proof fn lemma_parse_encoding(m: Option<T::Model>, rest: Seq<u8>) {
        match m {
            Some(v) => {
                T::lemma_parse_encoding(v, rest);
                assert((seq![1u8] + T::encoding(v) + rest).skip(1) == T::encoding(v) + rest);
            },
            None => {},
        }
    }

    proof fn lemma_parse_canonical(bytes: Seq<u8>) {
        if bytes.len() >= 1 {
            assert(seq![bytes[0]] == bytes.subrange(0, 1));
            if bytes[0] == 1 {
                T::lemma_parse_canonical(bytes.skip(1));
                match T::parse(bytes.skip(1)) {
                    Some((v, n)) => {
                        assert(seq![1u8] + bytes.skip(1).subrange(0, n) == bytes.subrange(
                            0,
                            n + 1,
                        ));
                    },
                    None => {},
                }
            }
        }
    }

    fn encode_to(&self, out: &mut Vec<u8>) {
        match self {
            Some(v) => {
                out.push(1);
                v.encode_to(out);
                assert(out@ == old(out)@ + (seq![1u8] + T::encoding(v.model())));
            },
            None => {
                out.push(0);
                assert(out@ == old(out)@ + seq![0u8]);
            },
        }
    }

    fn decode_at(input: &[u8], start: usize) -> (r: Option<(Self, usize)>) {
        if start < input.len() {
            let tag: u8 = input[start];
            if tag == 0 {
                Some((None, start + 1))
            } else if tag == 1 {
                assert(input@.skip(start as int).skip(1) == input@.skip(start + 1));
                match T::decode_at(input, start + 1) {
                    Some((v, end)) => Some((Some(v), end)),
                    None => None,
                }
            } else {
                None
            }
        } else {
            None
        }
    }
}

impl<T: Codec> DefaultValue for Option<T> {
    open spec fn default_model() -> Option<T::Model> {
        None
    }

    fn default_value() -> (r: Self) {
        None
    }
}

impl<A: Codec, B: Codec> Codec for (A, B) {
    type Model = (A::Model, B::Model);

    open spec fn model(&self) -> (A::Model, B::Model) {
        (self.0.model(), self.1.model())
    }

    open spec fn valid(m: (A::Model, B::Model)) -> bool {
        A::valid(m.0) && B::valid(m.1)
    }

    open spec fn encoding(m: (A::Model, B::Model)) -> Seq<u8> {
        A::encoding(m.0) + B::encoding(m.1)
    }

    open spec fn parse(bytes: Seq<u8>) -> Option<((A::Model, B::Model), int)> {
        match A::parse(bytes) {
            Some((a, n)) => if 0 <= n <= bytes.len() {
                match B::parse(bytes.skip(n)) {
                    Some((b, k)) => Some(((a, b), n + k)),
                    None => None,
                }
            } else {
                None
            },
            None => None,
        }
    }

    proof fn lemma_model_valid(&self) {
        self.0.lemma_model_valid();
        self.1.lemma_model_valid();
    }

    proof fn lemma_parse_encoding(m: (A::Model, B::Model), rest: Seq<u8>) {
        let whole = A::encoding(m.0) + B::encoding(m.1) + rest;
        assert(whole == A::encoding(m.0) + (B::encoding(m.1) + rest));
        A::lemma_parse_encoding(m.0, B::encoding(m.1) + rest);
        assert(whole.skip(A::encoding(m.0).len() as int) == B::encoding(m.1) + rest);
        B::lemma_parse_encoding(m.1, rest);
    }

    proof fn lemma_parse_canonical(bytes: Seq<u8>) {
        A::lemma_parse_canonical(bytes);
        match A::parse(bytes) {
            Some((a, n)) => {
                B::lemma_parse_canonical(bytes.skip(n));
                match B::parse(bytes.skip(n)) {
                    Some((b, k)) => {
                        assert(bytes.subrange(0, n) + bytes.skip(n).subrange(0, k)
                            == bytes.subrange(0, n + k));
                    },
                    None => {},
                }
            },
            None => {},
        }
    }

    fn encode_to(&self, out: &mut Vec<u8>) {
        self.0.encode_to(out);
        self.1.encode_to(out);
        assert(out@ == old(out)@ + (A::encoding(self.0.model()) + B::encoding(self.1.model())));
    }

    fn decode_at(input: &[u8], start: usize) -> (r: Option<(Self, usize)>) {
        match A::decode_at(input, start) {
            Some((a, mid)) => {
                assert(input@.skip(start as int).skip(mid - start) == input@.skip(mid as int));
                match B::decode_at(input, mid) {
                    Some((b, end)) => Some(((a, b), end)),
                    None => None,
                }
            },
            None => None,
        }
    }
}

impl<A: DefaultValue, B: DefaultValue> DefaultValue for (A, B) {
    open spec fn default_model() -> (A::Model, B::Model) {
        (A::default_model(), B::default_model())
    }

    fn default_value() -> (r: Self) {
        (A::default_value(), B::default_value())
    }
}

} // verus!
