//! Bit-level helpers: most-significant-bit position, a forward scan for the
//! next set bit, and a packed big-endian bit write.

use vstd::prelude::*;

use fixedbitset::FixedBitSet;

use crate::bitvec::{bit_at, bit_len, bits_of, write_bit};

verus! {

/// The position of the most significant set bit of `x`, or `0` when `x` has
/// no set bit at all.
pub open spec fn spec_msb(x: nat) -> nat
    decreases x,
{
    if x <= 1 {
        0
    } else {
        1 + spec_msb(x / 2)
    }
}

/// The index of the first set bit of `s` at or after `from`, or `s.len()`
/// when every bit from `from` on is clear.
pub open spec fn first_set_from(s: Seq<bool>, from: int) -> int
    decreases s.len() - from,
{
    if from < 0 || from >= s.len() {
        s.len() as int
    } else if s[from] {
        from
    } else {
        first_set_from(s, from + 1)
    }
}

/// What `first_set_from` returns: an index in `[from, s.len()]`, set if it is
/// a real index, with every bit before it (at or after `from`) clear.
pub proof fn lemma_first_set_from_properties(s: Seq<bool>, from: int)
    requires
        0 <= from <= s.len(),
    ensures
        from <= first_set_from(s, from) <= s.len(),
        first_set_from(s, from) < s.len() ==> s[first_set_from(s, from)],
        forall|m: int| from <= m < first_set_from(s, from) ==> !s[m],
    decreases s.len() - from,
{
    if from == s.len() {
    } else if s[from] {
    } else {
        lemma_first_set_from_properties(s, from + 1);
    }
}

/// The first set bit at or after `from` is `found` exactly when `found` is
/// set and nothing before it (at or after `from`) is.
pub proof fn lemma_first_set_from_is(s: Seq<bool>, from: int, found: int)
    requires
        0 <= from <= found < s.len(),
        s[found],
        forall|m: int| from <= m < found ==> !s[m],
    ensures
        first_set_from(s, from) == found,
{
    lemma_first_set_from_properties(s, from);
    let r = first_set_from(s, from);
    if r < found {
        assert(s[r]);
    }
    if r > found {
        assert(!s[found]);
    }
}

/// The position of the most significant set bit of `n`, with `msb(0) == 0`.
pub fn msb(n: u64) -> (r: u64)
    ensures
        r as nat == spec_msb(n as nat),
        r <= 63,
{
    let mut v: u64 = n;
    let mut r: u64 = 0;
    proof {
        assert(n >> 0u64 == n) by (bit_vector);
    }
    while v > 1
        invariant
            r <= 63,
            v == n >> r,
            spec_msb(n as nat) == r + spec_msb(v as nat),
        decreases v,
    {
        proof {
            assert(r <= 62) by (bit_vector)
                requires
                    v == n >> r && v > 1 && r <= 63,
            ;
            assert((n >> r) / 2 == n >> (r + 1)) by (bit_vector)
                requires
                    r <= 62,
            ;
        }
        v = v / 2;
        r = r + 1;
    }
    r
}

/// Scans `bitset` for the first set bit at or after `index`; returns `0` when
/// no bit at or after `index` is set. A result of `0` is therefore ambiguous
/// when bit `0` itself can be set.
pub fn get_next_set(bitset: &FixedBitSet, index: usize) -> (r: u64)
    ensures
        first_set_from(bits_of(*bitset), index as int) < bits_of(*bitset).len() ==> r as int
            == first_set_from(bits_of(*bitset), index as int),
        first_set_from(bits_of(*bitset), index as int) == bits_of(*bitset).len() ==> r == 0,
{
    let len = bit_len(bitset);
    let mut i = index;
    while i < len
        invariant
            len == bits_of(*bitset).len(),
            index <= i,
            first_set_from(bits_of(*bitset), index as int) == first_set_from(
                bits_of(*bitset),
                i as int,
            ),
        decreases len - i,
    {
        if bit_at(bitset, i) {
            return i as u64;
        }
        i = i + 1;
    }
    0
}

/// Writes the `length`-bit big-endian binary representation of `bits` into
/// `b` at positions `offset..offset + length`, leaving every other bit alone.
pub fn set_bits(b: &mut FixedBitSet, offset: u64, bits: u64, length: u64)
    requires
        length <= 64,
        offset + length <= bits_of(*old(b)).len(),
        offset + length <= usize::MAX,
    ensures
        bits_of(*final(b)).len() == bits_of(*old(b)).len(),
        forall|k: int|
            offset <= k < offset + length ==> #[trigger] bits_of(*final(b))[k] == (((bits >> ((
            offset + length - 1 - k) as u64)) & 1u64) == 1u64),
        forall|k: int|
            0 <= k < bits_of(*old(b)).len() && !(offset <= k < offset + length) ==> bits_of(
                *final(b),
            )[k] == bits_of(*old(b))[k],
{
    let mut i: u64 = 0;
    while i < length
        invariant
            i <= length,
            length <= 64,
            offset + length <= bits_of(*b).len(),
            offset + length <= usize::MAX,
            bits_of(*b).len() == bits_of(*old(b)).len(),
            forall|k: int|
                offset <= k < offset + i ==> #[trigger] bits_of(*b)[k] == (((bits >> ((offset
                + length - 1 - k) as u64)) & 1u64) == 1u64),
            forall|k: int|
                0 <= k < bits_of(*old(b)).len() && !(offset <= k < offset + i) ==> bits_of(
                    *b,
                )[k] == bits_of(*old(b))[k],
        decreases length - i,
    {
        let sh: u64 = length - 1 - i;
        let bitv: bool = ((bits >> sh) & 1) == 1;
        write_bit(b, (offset + i) as usize, bitv);
        i = i + 1;
    }
}

} // verus!
