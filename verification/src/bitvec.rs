//! The boundary to `fixedbitset`, the bit vector that backs the encoding.
//!
//! Everything the rest of the crate knows about a `FixedBitSet` goes through
//! the contracts below, stated over `bits_of`, the sequence of bits the set
//! holds.

use vstd::prelude::*;

use fixedbitset::FixedBitSet;

verus! {

#[verifier::external_type_specification]
#[verifier::external_body]
pub struct ExFixedBitSet(FixedBitSet);

/// The bits held by a `FixedBitSet`, lowest index first.
pub uninterp spec fn bits_of(b: FixedBitSet) -> Seq<bool>;

/// Relies on `FixedBitSet::with_capacity`: a set with exactly `len` bits,
/// all initially clear.
#[verifier::external_body]
pub(crate) fn new_bits(len: usize) -> (b: FixedBitSet)
    ensures
        bits_of(b) == Seq::new(len as nat, |k: int| false),
{
    FixedBitSet::with_capacity(len)
}

/// Relies on `FixedBitSet::len`: the number of bits the set was created with.
#[verifier::external_body]
pub(crate) fn bit_len(b: &FixedBitSet) -> (r: usize)
    ensures
        r == bits_of(*b).len(),
{
    b.len()
}

/// Relies on `FixedBitSet::contains`: whether bit `i` is set; bits outside
/// the range are reported clear.
#[verifier::external_body]
pub(crate) fn bit_at(b: &FixedBitSet, i: usize) -> (r: bool)
    ensures
        r == (i < bits_of(*b).len() && bits_of(*b)[i as int]),
{
    b.contains(i)
}

/// Relies on `FixedBitSet::set`: writes bit `i` and leaves every other bit
/// alone. The call panics outside the range, so the range is required here.
#[verifier::external_body]
pub(crate) fn write_bit(b: &mut FixedBitSet, i: usize, value: bool)
    requires
        i < bits_of(*old(b)).len(),
    ensures
        bits_of(*final(b)) == bits_of(*old(b)).update(i as int, value),
{
    b.set(i, value);
}

} // verus!
