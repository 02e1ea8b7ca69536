//! Unsigned integers as little-endian bytes: the least significant byte first.

use vstd::prelude::*;

verus! {

/// 256 to the power of `n`: the number of values that `n` bytes can hold.
pub open spec fn pow256(n: nat) -> nat
    decreases n,
{
    if n == 0 {
        1
    } else {
        256 * pow256((n - 1) as nat)
    }
}

/// The `width` least significant bytes of `value`, the least significant first.
pub open spec fn le_bytes(value: nat, width: nat) -> Seq<u8>
    decreases width,
{
    if width == 0 {
        Seq::empty()
    } else {
        seq![(value % 256) as u8] + le_bytes(value / 256, (width - 1) as nat)
    }
}

/// The number that `bytes` holds, the least significant byte first.
pub open spec fn le_value(bytes: Seq<u8>) -> nat
    decreases bytes.len(),
{
    if bytes.len() == 0 {
        0
    } else {
        bytes[0] as nat + 256 * le_value(bytes.skip(1))
    }
}

/// The numbers of values that 1, 2, 4 and 8 bytes can hold.
pub proof fn lemma_pow256_widths()
    ensures
        pow256(0) == 1,
        pow256(1) == 0x100,
        pow256(2) == 0x1_0000,
        pow256(4) == 0x1_0000_0000,
        pow256(8) == 0x1_0000_0000_0000_0000,
{
    reveal_with_fuel(pow256, 9);
}

/// Up to 8 bytes hold no more than 64 bits.
pub proof fn lemma_pow256_bound(n: nat)
    requires
        n <= 8,
    ensures
        0 < pow256(n) <= 0x1_0000_0000_0000_0000,
{
    reveal_with_fuel(pow256, 9);
    if n == 0 {
    } else if n == 1 {
    } else if n == 2 {
    } else if n == 3 {
    } else if n == 4 {
    } else if n == 5 {
    } else if n == 6 {
    } else if n == 7 {
    } else {
    }
}

/// `width` bytes are `width` bytes.
pub proof fn lemma_le_bytes_len(value: nat, width: nat)
    ensures
        le_bytes(value, width).len() == width,
    decreases width,
{
    if width > 0 {
        lemma_le_bytes_len(value / 256, (width - 1) as nat);
    }
}

/// The bytes of a number that fits hold that number.
pub proof fn lemma_le_value_of_bytes(value: nat, width: nat)
    requires
        value < pow256(width),
    ensures
        le_value(le_bytes(value, width)) == value,
    decreases width,
{
    if width > 0 {
        let rest = le_bytes(value / 256, (width - 1) as nat);
        lemma_le_value_of_bytes(value / 256, (width - 1) as nat);
        assert(le_bytes(value, width).skip(1) == rest);
    }
}

/// The number that some bytes hold fits in as many bytes, and its bytes are
/// those bytes.
pub proof fn lemma_le_bytes_of_value(bytes: Seq<u8>)
    ensures
        le_value(bytes) < pow256(bytes.len()),
        le_bytes(le_value(bytes), bytes.len()) == bytes,
    decreases bytes.len(),
{
    if bytes.len() > 0 {
        lemma_le_bytes_of_value(bytes.skip(1));
        let high = le_value(bytes.skip(1));
        assert(le_value(bytes) == bytes[0] as nat + 256 * high);
        assert(le_value(bytes) / 256 == high);
        assert(le_value(bytes) % 256 == bytes[0] as nat);
        assert(seq![bytes[0]] + bytes.skip(1) == bytes);
    }
}

/// Appends the `width` least significant bytes of `value` to `out`.
pub fn write_le(out: &mut Vec<u8>, value: u64, width: usize)
    requires
        width <= 8,
    ensures
        final(out)@ == old(out)@ + le_bytes(value as nat, width as nat),
{
    let mut rest: u64 = value;
    let mut i: usize = 0;
    while i < width
        invariant
            i <= width,
            out@ + le_bytes(rest as nat, (width - i) as nat) == old(out)@ + le_bytes(
                value as nat,
                width as nat,
            ),
        decreases width - i,
    {
        let ghost before = out@;
        let ghost tail = le_bytes(rest as nat / 256, (width - i - 1) as nat);
        out.push((rest % 256) as u8);
        assert(before + (seq![(rest % 256) as u8] + tail) == before.push((rest % 256) as u8)
            + tail);
        rest = rest / 256;
        i += 1;
    }
    assert(out@ + Seq::<u8>::empty() == out@);
}

/// Reads the number that the `width` bytes of `input` from `start` on hold.
pub fn read_le(input: &[u8], start: usize, width: usize) -> (r: u64)
    requires
        width <= 8,
        start + width <= input.len(),
    ensures
        r == le_value(input@.subrange(start as int, start + width)),
{
    let mut value: u128 = 0;
    let mut i: usize = width;
    let ghost end = start + width;
    assert(input@.subrange(end, end).len() == 0);
    proof {
        lemma_pow256_widths();
    }
    while i > 0
        invariant
            i <= width <= 8,
            end == start + width,
            end <= input.len(),
            value == le_value(input@.subrange(start + i, end)),
            value < pow256((width - i) as nat),
        decreases i,
    {
        proof {
            lemma_pow256_bound((width - i) as nat);
            assert(input@.subrange(start + i - 1, end).skip(1) == input@.subrange(
                start + i,
                end,
            ));
        }
        value = value * 256 + input[start + i - 1] as u128;
        i -= 1;
    }
    proof {
        lemma_pow256_bound(width as nat);
    }
    value as u64
}

} // verus!
