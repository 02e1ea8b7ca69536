//! The hash functions that turn prefixes and keys into parts of a final key.
//!
//! Two outside hash functions are used: XXH64, fast and not cryptographic, and
//! BLAKE2b, cryptographic. Their results are named, not computed, in
//! specifications; only their lengths are known.

use vstd::prelude::*;

use crate::endian::{le_bytes, lemma_le_bytes_len, write_le};

verus! {

/// The XXH64 hash of `data` under `seed`, as the crate `twox-hash` computes it.
pub uninterp spec fn xxh64_digest(seed: u64, data: Seq<u8>) -> u64;

/// The unkeyed BLAKE2b hash of `data` with an output of `size` bytes, as the
/// crate `blake2-rfc` computes it.
pub uninterp spec fn blake2b_digest(size: usize, data: Seq<u8>) -> Seq<u8>;

/// Calls `twox_hash::XxHash64::oneshot`. Trusted: the result is the function's
/// value on the seed and the data, and depends on nothing else.
#[verifier::external_body]
fn xxh64(seed: u64, data: &[u8]) -> (r: u64)
    ensures
        r == xxh64_digest(seed, data@),
{
    twox_hash::XxHash64::oneshot(seed, data)
}

/// Calls `blake2_rfc::blake2b::blake2b` with an empty key. Trusted: the result
/// is the function's value on the output size and the data, and is `size` bytes
/// long. The outside function panics on an output size outside `1..=64`.
#[verifier::external_body]
fn blake2b(size: usize, data: &[u8]) -> (r: Vec<u8>)
    requires
        1 <= size <= 64,
    ensures
        r@ == blake2b_digest(size, data@),
        r@.len() == size,
{
    blake2_rfc::blake2b::blake2b(size, &[], data).as_bytes().to_vec()
}

/// The 64-bit hash of `data`: XXH64 under seed 0, little-endian.
pub open spec fn twox_64_of(data: Seq<u8>) -> Seq<u8> {
    le_bytes(xxh64_digest(0, data) as nat, 8)
}

/// The 128-bit fast hash of `data`: XXH64 under seeds 0 and 1, each little-endian.
pub open spec fn twox_128_of(data: Seq<u8>) -> Seq<u8> {
    le_bytes(xxh64_digest(0, data) as nat, 8) + le_bytes(xxh64_digest(1, data) as nat, 8)
}

/// `digest` where it is `size` bytes long, as every digest asked for at that
/// size is; `size` zero bytes otherwise, so that the length is known of every
/// value.
pub open spec fn sized(digest: Seq<u8>, size: nat) -> Seq<u8> {
    if digest.len() == size {
        digest
    } else {
        Seq::new(size, |i: int| 0u8)
    }
}

/// The 128-bit cryptographic hash of `data`.
pub open spec fn blake2_128_of(data: Seq<u8>) -> Seq<u8> {
    sized(blake2b_digest(16, data), 16)
}

/// The 256-bit cryptographic hash of `data`.
pub open spec fn blake2_256_of(data: Seq<u8>) -> Seq<u8> {
    sized(blake2b_digest(32, data), 32)
}

/// The fast hash to 128 bits is 16 bytes long.
pub proof fn lemma_twox_128_len(data: Seq<u8>)
    ensures
        twox_128_of(data).len() == 16,
{
    lemma_le_bytes_len(xxh64_digest(0, data) as nat, 8);
    lemma_le_bytes_len(xxh64_digest(1, data) as nat, 8);
}

/// Hashes `data` to 8 bytes with the fast hash.
pub fn twox_64(data: &[u8]) -> (r: Vec<u8>)
    ensures
        r@ == twox_64_of(data@),
        r@.len() == 8,
{
    let mut out: Vec<u8> = Vec::new();
    write_le(&mut out, xxh64(0, data), 8);
    proof {
        lemma_le_bytes_len(xxh64_digest(0, data@) as nat, 8);
        assert(Seq::<u8>::empty() + twox_64_of(data@) == twox_64_of(data@));
    }
    out
}

/// Hashes `data` to 16 bytes with the fast hash.
pub fn twox_128(data: &[u8]) -> (r: Vec<u8>)
    ensures
        r@ == twox_128_of(data@),
        r@.len() == 16,
{
    let mut out: Vec<u8> = Vec::new();
    write_le(&mut out, xxh64(0, data), 8);
    write_le(&mut out, xxh64(1, data), 8);
    proof {
        lemma_le_bytes_len(xxh64_digest(0, data@) as nat, 8);
        lemma_le_bytes_len(xxh64_digest(1, data@) as nat, 8);
        assert(Seq::<u8>::empty() + twox_128_of(data@) == twox_128_of(data@));
    }
    out
}

/// Hashes `data` to 16 bytes with the cryptographic hash.
pub fn blake2_128(data: &[u8]) -> (r: Vec<u8>)
    ensures
        r@ == blake2_128_of(data@),
        r@.len() == 16,
{
    blake2b(16, data)
}

/// Hashes `data` to 32 bytes with the cryptographic hash.
pub fn blake2_256(data: &[u8]) -> (r: Vec<u8>)
    ensures
        r@ == blake2_256_of(data@),
        r@.len() == 32,
{
    blake2b(32, data)
}

/// How the encoding of a key becomes key material.
///
/// The plain hashers give a digest of fixed length. The `Concat` hashers give
/// the digest followed by the encoding itself, so that the key can be read back
/// from the key material.
#[allow(non_camel_case_types)]
#[derive(Clone, Copy, Debug, PartialEq, Eq, Structural)]
pub enum Hasher {
    /// 8 bytes of fast hash, then the encoding.
    Twox64Concat,
    /// 16 bytes of cryptographic hash, then the encoding.
    Blake2_128Concat,
    /// 16 bytes of fast hash.
    Twox128,
    /// 16 bytes of cryptographic hash.
    Blake2_128,
    /// 32 bytes of cryptographic hash.
    Blake2_256,
}

impl Hasher {
    /// The digest that this hasher computes of `data`.
    pub open spec fn digest(self, data: Seq<u8>) -> Seq<u8> {
        match self {
            Hasher::Twox64Concat => twox_64_of(data),
            Hasher::Blake2_128Concat => blake2_128_of(data),
            Hasher::Twox128 => twox_128_of(data),
            Hasher::Blake2_128 => blake2_128_of(data),
            Hasher::Blake2_256 => blake2_256_of(data),
        }
    }

    /// The length of every digest of this hasher.
    pub open spec fn digest_len(self) -> nat {
        match self {
            Hasher::Twox64Concat => 8,
            Hasher::Blake2_128Concat => 16,
            Hasher::Twox128 => 16,
            Hasher::Blake2_128 => 16,
            Hasher::Blake2_256 => 32,
        }
    }

    /// Whether the key material holds the encoding behind the digest.
    pub open spec fn transparent(self) -> bool {
        self == Hasher::Twox64Concat || self == Hasher::Blake2_128Concat
    }

    /// The key material that this hasher makes of `data`.
    pub open spec fn hashed(self, data: Seq<u8>) -> Seq<u8> {
        if self.transparent() {
            self.digest(data) + data
        } else {
            self.digest(data)
        }
    }

    /// Every digest of this hasher has the hasher's digest length.
    pub proof fn lemma_digest_len(self, data: Seq<u8>)
        ensures
            self.digest(data).len() == self.digest_len(),
            self.hashed(data).len() >= 8,
    {
        lemma_le_bytes_len(xxh64_digest(0, data) as nat, 8);
        lemma_le_bytes_len(xxh64_digest(1, data) as nat, 8);
    }

    /// Key material is equal exactly when the digests are equal and, for a
    /// `Concat` hasher, the data is equal.
    pub proof fn lemma_hashed_equal(self, a: Seq<u8>, b: Seq<u8>)
        ensures
            self.hashed(a) == self.hashed(b) <==> self.digest(a) == self.digest(b) && (
            self.transparent() ==> a == b),
    {
        self.lemma_digest_len(a);
        self.lemma_digest_len(b);
        if self.transparent() && self.hashed(a) == self.hashed(b) {
            let n = self.digest_len() as int;
            assert(self.hashed(a).subrange(0, n) == self.digest(a));
            assert(self.hashed(b).subrange(0, n) == self.digest(b));
            assert(self.hashed(a).skip(n) == a);
            assert(self.hashed(b).skip(n) == b);
        }
    }

    /// Tells whether the key material holds the encoding behind the digest.
    pub fn is_transparent(&self) -> (r: bool)
        ensures
            r == self.transparent(),
    {
        match self {
            Hasher::Twox64Concat => true,
            Hasher::Blake2_128Concat => true,
            _ => false,
        }
    }

    /// The length of every digest of this hasher.
    pub fn digest_size(&self) -> (r: usize)
        ensures
            r == self.digest_len(),
    {
        match self {
            Hasher::Twox64Concat => 8,
            Hasher::Blake2_128Concat => 16,
            Hasher::Twox128 => 16,
            Hasher::Blake2_128 => 16,
            Hasher::Blake2_256 => 32,
        }
    }

    /// Makes key material of `data`.
    pub fn hash(&self, data: &[u8]) -> (r: Vec<u8>)
        ensures
            r@ == self.hashed(data@),
            r@.len() == self.digest_len() + if self.transparent() {
                data@.len()
            } else {
                0
            },
    {
        match self {
            Hasher::Twox64Concat => {
                let mut out = twox_64(data);
                crate::store::append_bytes(&mut out, data);
                out
            },
            Hasher::Blake2_128Concat => {
                let mut out = blake2_128(data);
                crate::store::append_bytes(&mut out, data);
                out
            },
            Hasher::Twox128 => twox_128(data),
            Hasher::Blake2_128 => blake2_128(data),
            Hasher::Blake2_256 => blake2_256(data),
        }
    }
}

/// The hashers that keep the key readable: those fit for a map whose keys are
/// read back from its final keys.
#[allow(non_camel_case_types)]
#[derive(Clone, Copy, Debug, PartialEq, Eq, Structural)]
pub enum ConcatHasher {
    /// 8 bytes of fast hash, then the encoding.
    Twox64Concat,
    /// 16 bytes of cryptographic hash, then the encoding.
    Blake2_128Concat,
}

impl ConcatHasher {
    /// This hasher among all hashers.
    pub open spec fn as_hasher(self) -> Hasher {
        match self {
            ConcatHasher::Twox64Concat => Hasher::Twox64Concat,
            ConcatHasher::Blake2_128Concat => Hasher::Blake2_128Concat,
        }
    }

    /// This hasher among all hashers.
    pub fn hasher(&self) -> (r: Hasher)
        ensures
            r == self.as_hasher(),
            r.transparent(),
    {
        match self {
            ConcatHasher::Twox64Concat => Hasher::Twox64Concat,
            ConcatHasher::Blake2_128Concat => Hasher::Blake2_128Concat,
        }
    }
}

/// The hashers of fixed length: those fit for the first key of a double map,
/// whose digest must end where the second key's material begins.
#[allow(non_camel_case_types)]
#[derive(Clone, Copy, Debug, PartialEq, Eq, Structural)]
pub enum DigestHasher {
    /// 16 bytes of fast hash.
    Twox128,
    /// 16 bytes of cryptographic hash.
    Blake2_128,
    /// 32 bytes of cryptographic hash.
    Blake2_256,
}

impl DigestHasher {
    /// This hasher among all hashers.
    pub open spec fn as_hasher(self) -> Hasher {
        match self {
            DigestHasher::Twox128 => Hasher::Twox128,
            DigestHasher::Blake2_128 => Hasher::Blake2_128,
            DigestHasher::Blake2_256 => Hasher::Blake2_256,
        }
    }

    /// This hasher among all hashers.
    pub fn hasher(&self) -> (r: Hasher)
        ensures
            r == self.as_hasher(),
            !r.transparent(),
    {
        match self {
            DigestHasher::Twox128 => Hasher::Twox128,
            DigestHasher::Blake2_128 => Hasher::Blake2_128,
            DigestHasher::Blake2_256 => Hasher::Blake2_256,
        }
    }
}

} // verus!
