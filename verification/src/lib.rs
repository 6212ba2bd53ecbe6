//! An Elias–Fano encoding of a non-decreasing sequence of bounded integers.
//!
//! A sequence of `count` values, each at most `universe`, is packed into a
//! single bit vector: each value's high part is written in unary into a high
//! region, and its low `lower_bits` bits are packed big-endian into a low
//! region. A cursor decodes values back out, sequentially with `next` or by
//! random access with `visit`, by scanning the high region for set bits.

use vstd::prelude::*;

pub mod bitvec;
pub mod utils;

use fixedbitset::FixedBitSet;

use crate::bitvec::bits_of;
use crate::utils::{first_set_from, spec_msb};

verus! {

/// The width of the packed low part of each value: the most significant bit
/// position of `universe / count` when `universe` exceeds `count`, else zero.
pub open spec fn spec_low_width(universe: u64, count: u64) -> u64
    recommends
        1 <= count,
{
    if universe > count {
        spec_msb(((universe as int) / (count as int)) as nat) as u64
    } else {
        0
    }
}

/// The size in bits of the high region: one slot per element, one per
/// possible high value, and two guard bits.
pub open spec fn spec_high_length(universe: u64, count: u64) -> int
    recommends
        1 <= count,
{
    count + (universe >> spec_low_width(universe, count)) + 2
}

/// The full bit vector length: the high region followed by `count` packed
/// low parts.
pub open spec fn spec_total_bits(universe: u64, count: u64) -> int
    recommends
        1 <= count,
{
    spec_high_length(universe, count) + count * spec_low_width(universe, count)
}

/// `s` never decreases.
pub open spec fn sorted(s: Seq<u64>) -> bool {
    forall|i: int, j: int| 0 <= i <= j < s.len() ==> s[i] <= s[j]
}

/// Every element of `s` is at most `universe`.
pub open spec fn bounded(s: Seq<u64>, universe: u64) -> bool {
    forall|i: int| 0 <= i < s.len() ==> s[i] <= universe
}

/// The bit index in the high region that encodes element `i` of `s`.
pub open spec fn high_pos(s: Seq<u64>, width: u64, i: int) -> int {
    (s[i] >> width) + i + 1
}

/// The bit index in the low region of bit `j` (big-endian) of element `i`.
pub open spec fn low_index(high_length: int, width: u64, i: int, j: int) -> int {
    high_length + i * width + j
}

/// Bit `j` (big-endian, `j < width`) of the low part of value `v`.
pub open spec fn low_bit_set(v: u64, width: u64, j: int) -> bool {
    ((v >> ((width - 1 - j) as u64)) & 1u64) == 1u64
}

/// The bit vector `bits` encodes the first `k` elements of `s`: their high
/// bits are set and are the only set bits in the high region, their low parts
/// are stored big-endian in the low region, and everything at or after the
/// `k`-th low slot is still clear.
pub open spec fn encoded_prefix(
    bits: Seq<bool>,
    s: Seq<u64>,
    width: u64,
    high_length: int,
    k: int,
) -> bool {
    &&& 0 <= k <= s.len()
    &&& 0 <= high_length <= bits.len()
    &&& high_length + s.len() * width <= bits.len()
    &&& forall|i: int| 0 <= i < k ==> 0 < #[trigger] high_pos(s, width, i) < high_length
    &&& forall|i: int| 0 <= i < k ==> bits[#[trigger] high_pos(s, width, i)]
    &&& forall|m: int|
        0 <= m < high_length && #[trigger] bits[m] ==> exists|i: int|
            0 <= i < k && m == high_pos(s, width, i)
    &&& forall|i: int, j: int|
        0 <= i < k && 0 <= j < width ==> bits[#[trigger] low_index(high_length, width, i, j)]
            == low_bit_set(s[i], width, j)
    &&& forall|m: int| high_length + k * width <= m < bits.len() ==> !(#[trigger] bits[m])
}

/// The bit vector `bits` encodes all of `s`.
pub open spec fn encoded(bits: Seq<bool>, s: Seq<u64>, width: u64, high_length: int) -> bool {
    encoded_prefix(bits, s, width, high_length, s.len() as int)
}

/// The index of the set bit in `bits` that a decoder reaches after `p + 1`
/// forward scans from the start: the bit encoding the high part of element
/// `p` when `bits` is a sound encoding.
pub open spec fn nth_set(bits: Seq<bool>, p: int) -> int
    decreases p,
{
    if p <= 0 {
        first_set_from(bits, 0)
    } else {
        first_set_from(bits, nth_set(bits, p - 1) + 1)
    }
}

/// The value read big-endian from the `w` bits of `bits` starting at
/// `start`: bit `start` is the most significant.
pub open spec fn low_value(bits: Seq<bool>, start: int, w: int) -> u64
    decreases w,
{
    if w <= 0 {
        0u64
    } else {
        (low_value(bits, start, w - 1) << 1u64) | (if bits[start + w - 1] {
            1u64
        } else {
            0u64
        })
    }
}

/// The value the cursor protocol decodes at logical index `p`: the high part
/// recovered from the `p`-th set bit, recombined with the packed low part.
pub open spec fn decode_at(bits: Seq<bool>, width: u64, high_length: int, p: int) -> u64 {
    (((nth_set(bits, p) - p - 1) as u64) << width) | low_value(
        bits,
        high_length + p * width,
        width as int,
    )
}

/// Returned by `next` and `visit` when the requested logical position holds
/// no element.
#[derive(Debug)]
pub struct OutOfBoundsError;

/// An Elias–Fano sequence: derived geometry, the backing bit vector, and the
/// cursor state (`position`, `cur_value`, `high_bits_pos`).
#[verifier::ext_equal]
pub struct EliasFano {
    universe: u64,
    n: u64,
    lower_bits: u64,
    higher_bits_length: u64,
    mask: u64,
    lower_bits_offset: u64,
    bv_len: u64,
    b: FixedBitSet,
    cur_value: u64,
    position: u64,
    high_bits_pos: u64,
    elems: Ghost<Seq<u64>>,
}

impl EliasFano {
    /// The sequence this structure was built from.
    pub closed spec fn view_elems(self) -> Seq<u64> {
        self.elems@
    }

    /// The `universe` bound given at construction.
    pub closed spec fn spec_universe(self) -> u64 {
        self.universe
    }

    /// The element count given at construction.
    pub closed spec fn spec_count(self) -> u64 {
        self.n
    }

    /// The logical index the cursor stands on.
    pub closed spec fn spec_position(self) -> u64 {
        self.position
    }

    /// The decoded value at the cursor.
    pub closed spec fn spec_value(self) -> u64 {
        self.cur_value
    }

    /// The length of the backing bit vector.
    pub closed spec fn spec_bit_size(self) -> nat {
        bits_of(self.b).len()
    }

    /// The geometry constants agree with `(universe, n)` and the bit vector
    /// has exactly the derived length.
    spec fn wf_geometry(self) -> bool {
        &&& 1 <= self.n
        &&& self.lower_bits == spec_low_width(self.universe, self.n)
        &&& self.lower_bits <= 63
        &&& self.mask == ((1u64 << self.lower_bits) - 1) as u64
        &&& self.higher_bits_length as int == spec_high_length(self.universe, self.n)
        &&& self.lower_bits_offset == self.higher_bits_length
        &&& self.bv_len as int == spec_total_bits(self.universe, self.n)
        &&& self.bv_len <= usize::MAX as u64
        &&& bits_of(self.b).len() == self.bv_len
    }

    /// Freshly constructed: sound geometry, an all-clear bit vector, and the
    /// cursor at position zero. `compress` starts from here.
    pub closed spec fn fresh(self) -> bool {
        &&& self.wf_geometry()
        &&& self.position == 0
        &&& forall|k: int| 0 <= k < bits_of(self.b).len() ==> !(#[trigger] bits_of(self.b)[k])
    }

    /// Built and ready to read: the bit vector encodes `view_elems()` and the
    /// cursor stands on a valid element, holding its decoded value.
    pub closed spec fn loaded(self) -> bool {
        &&& self.wf_geometry()
        &&& self.elems@.len() == self.n
        &&& sorted(self.elems@)
        &&& bounded(self.elems@, self.universe)
        &&& encoded(bits_of(self.b), self.elems@, self.lower_bits, self.higher_bits_length as int)
        &&& self.position < self.n
        &&& self.cur_value == self.elems@[self.position as int]
        &&& self.high_bits_pos as int == high_pos(self.elems@, self.lower_bits, self.position as int)
    }

    /// The cursor state after moving to logical index `t`.
    pub closed spec fn spec_visit(self, t: int) -> EliasFano {
        EliasFano {
            position: t as u64,
            cur_value: self.elems@[t],
            high_bits_pos: high_pos(self.elems@, self.lower_bits, t) as u64,
            ..self
        }
    }

    /// The cursor state after a rewind to the first element.
    pub closed spec fn spec_reset(self) -> EliasFano {
        self.spec_visit(0)
    }

    /// Allocates the geometry and the backing bit vector for `n` elements
    /// bounded by `universe`. The count must be positive (the low width is
    /// derived by dividing by it) and the derived bit length must be
    /// addressable.
    pub fn new(universe: u64, n: u64) -> (r: EliasFano)
        requires
            1 <= n,
            spec_total_bits(universe, n) <= usize::MAX as int,
        ensures
            r.fresh(),
            r.spec_universe() == universe,
            r.spec_count() == n,
    {
        let lower_bits: u64 = if universe > n {
            crate::utils::msb(universe / n)
        } else {
            0
        };
        proof {
            lemma_mul_nonneg_u64(n as int, lower_bits as int);
            assert(1u64 << lower_bits >= 1) by (bit_vector)
                requires
                    lower_bits <= 63,
            ;
        }
        let higher_bits_length: u64 = n + (universe >> lower_bits) + 2;
        let mask: u64 = (1u64 << lower_bits) - 1;
        let lower_bits_offset: u64 = higher_bits_length;
        let bv_len: u64 = lower_bits_offset + n * lower_bits;
        let b = crate::bitvec::new_bits(bv_len as usize);
        EliasFano {
            universe,
            n,
            lower_bits,
            higher_bits_length,
            mask,
            lower_bits_offset,
            bv_len,
            b,
            cur_value: 0,
            position: 0,
            high_bits_pos: 0,
            elems: Ghost(Seq::empty()),
        }
    }

    /// The element count.
    pub fn size(&self) -> (r: u64)
        ensures
            r == self.spec_count(),
    {
        self.n
    }

    /// The length of the backing bit vector; on a constructed structure this
    /// is exactly the derived total bit count.
    pub fn bit_size(&self) -> (r: usize)
        ensures
            r == self.spec_bit_size(),
            self.fresh() || self.loaded() ==> r as int == spec_total_bits(
                self.spec_universe(),
                self.spec_count(),
            ),
    {
        crate::bitvec::bit_len(&self.b)
    }

    /// The logical index the cursor stands on.
    pub fn position(&self) -> (r: u64)
        ensures
            r == self.spec_position(),
    {
        self.position
    }

    /// The decoded value at the cursor; on a built structure this is exactly
    /// the element the cursor stands on.
    pub fn value(&self) -> (r: u64)
        ensures
            r == self.spec_value(),
            self.loaded() ==> r == self.view_elems()[self.spec_position() as int],
    {
        self.cur_value
    }
}

impl EliasFano {
    /// Encodes `elems` into the bit vector: for each element, one set bit in
    /// the high region at `(value >> lower_bits) + index + 1`, and the low
    /// `lower_bits` bits packed big-endian in the low region. The cursor is
    /// left on the first element. The input must be non-decreasing, bounded
    /// by `universe`, and exactly `count` long.
    #[verifier::loop_isolation(false)]
    pub fn compress(&mut self, elems: &[u64])
        requires
            old(self).fresh(),
            elems@.len() == old(self).spec_count(),
            sorted(elems@),
            bounded(elems@, old(self).spec_universe()),
        ensures
            final(self).loaded(),
            final(self).view_elems() == elems@,
            final(self).spec_universe() == old(self).spec_universe(),
            final(self).spec_count() == old(self).spec_count(),
            final(self).spec_position() == 0,
            final(self).spec_value() == elems@[0],
    {
        proof {
            self.elems@ = elems@;
        }
        let ghost s = elems@;
        let ghost w = self.lower_bits;
        let ghost hl = self.higher_bits_length as int;
        let n_elems: usize = elems.len();
        let mut i: usize = 0;
        while i < n_elems
            invariant
                0 <= i <= n_elems,
                self.universe == old(self).universe,
                self.n == old(self).n,
                self.lower_bits == old(self).lower_bits,
                self.higher_bits_length == old(self).higher_bits_length,
                self.mask == old(self).mask,
                self.lower_bits_offset == old(self).lower_bits_offset,
                self.bv_len == old(self).bv_len,
                self.position == 0,
                self.elems@ == s,
                bits_of(self.b).len() == self.bv_len,
                encoded_prefix(bits_of(self.b), s, w, hl, i as int),
                i > 0 ==> self.cur_value == s[0] && self.high_bits_pos as int == high_pos(
                    s,
                    w,
                    0,
                ),
            decreases n_elems - i,
        {
            let elem: u64 = *vstd::slice::slice_index_get(elems, i);
            proof {
                lemma_shr_le(s[i as int], self.universe, w);
                lemma_mul_nonneg_u64(i as int, w as int);
            }
            let high: u64 = (elem >> self.lower_bits) + (i as u64) + 1;
            let ghost before_high = bits_of(self.b);
            crate::bitvec::write_bit(&mut self.b, high as usize, true);
            proof {
                let bits1 = bits_of(self.b);
                assert forall|m: int| 0 <= m < hl && #[trigger] bits1[m] implies exists|i2: int|
                    0 <= i2 < i + 1 && m == high_pos(s, w, i2) by {
                    if m == high as int {
                        assert(m == high_pos(s, w, i as int));
                    } else {
                        assert(before_high[m]);
                    }
                }
            }
            proof {
                vstd::arithmetic::mul::lemma_mul_inequality(i as int + 1, self.n as int, w as int);
                assert((i + 1) * w == i * w + w) by (nonlinear_arith);
                vstd::arithmetic::mul::lemma_mul_nonnegative(i as int, w as int);
            }
            let offset: u64 = self.lower_bits_offset + (i as u64) * self.lower_bits;
            let low: u64 = elem & self.mask;
            let ghost before_low = bits_of(self.b);
            crate::utils::set_bits(&mut self.b, offset, low, self.lower_bits);
            proof {
                let bits2 = bits_of(self.b);
                assert forall|i2: int, j: int| 0 <= i2 < i + 1 && 0 <= j < w implies bits2[
                    #[trigger] low_index(hl, w, i2, j)] == low_bit_set(s[i2], w, j) by {
                    vstd::arithmetic::mul::lemma_mul_nonnegative(i2 as int, w as int);
                    if i2 == i as int {
                        assert(low_index(hl, w, i2, j) == offset + j);
                        lemma_masked_bit(s[i2], w, j as u64);
                    } else {
                        vstd::arithmetic::mul::lemma_mul_inequality(i2 + 1, i as int, w as int);
                        assert((i2 + 1) * w == i2 * w + w) by (nonlinear_arith);
                        assert(low_index(hl, w, i2, j) < offset);
                        assert(bits2[low_index(hl, w, i2, j)] == before_low[low_index(hl, w, i2, j)]);
                        assert(before_low[low_index(hl, w, i2, j)] == before_high[low_index(hl, w, i2, j)]);
                    }
                }
                assert forall|i2: int| 0 <= i2 < i + 1 implies bits2[#[trigger] high_pos(
                    s,
                    w,
                    i2,
                )] by {
                    vstd::arithmetic::mul::lemma_mul_nonnegative(i as int, w as int);
                }
                assert forall|m: int| 0 <= m < hl && #[trigger] bits2[m] implies exists|i2: int|
                    0 <= i2 < i + 1 && m == high_pos(s, w, i2) by {
                    vstd::arithmetic::mul::lemma_mul_nonnegative(i as int, w as int);
                    assert(before_low[m]);
                }
                assert forall|m: int| hl + (i + 1) * w <= m < bits2.len() implies !(
                #[trigger] bits2[m]) by {
                    vstd::arithmetic::mul::lemma_mul_nonnegative(i as int, w as int);
                    assert((i + 1) * w == i * w + w) by (nonlinear_arith);
                    assert(bits2[m] == before_low[m]);
                    assert(before_low[m] == before_high[m]);
                }
                assert((i + 1) * w == i * w + w) by (nonlinear_arith);
            }
            if i == 0 {
                self.cur_value = elem;
                self.high_bits_pos = high;
            }
            i = i + 1;
        }
    }

    /// A built structure whose cursor stands on a valid element but whose
    /// `high_bits_pos` still points strictly before that element's high bit
    /// (or at zero, before the first element): the state from which
    /// `read_current_value` decodes.
    pub closed spec fn ready_to_decode(self) -> bool {
        &&& self.wf_geometry()
        &&& self.elems@.len() == self.n
        &&& sorted(self.elems@)
        &&& bounded(self.elems@, self.universe)
        &&& encoded(bits_of(self.b), self.elems@, self.lower_bits, self.higher_bits_length as int)
        &&& self.position < self.n
        &&& if self.position == 0 {
            self.high_bits_pos == 0
        } else {
            high_pos(self.elems@, self.lower_bits, self.position - 1) <= self.high_bits_pos
                && (self.high_bits_pos as int) < high_pos(
                self.elems@,
                self.lower_bits,
                self.position as int,
            )
        }
    }

    /// Scans the high region for the next set bit, reads the packed low bits
    /// of the current position, and recombines them into `cur_value`,
    /// advancing `high_bits_pos` to the bit just found.
    #[verifier::loop_isolation(false)]
    pub fn read_current_value(&mut self)
        requires
            old(self).ready_to_decode(),
        ensures
            *final(self) == old(self).spec_visit(old(self).spec_position() as int),
            final(self).loaded(),
            final(self).spec_position() == old(self).spec_position(),
            final(self).spec_value() == old(self).view_elems()[old(self).spec_position() as int],
            final(self).view_elems() == old(self).view_elems(),
    {
        let ghost s = self.elems@;
        let ghost w = self.lower_bits;
        let ghost hl = self.higher_bits_length as int;
        let ghost p = self.position as int;
        proof {
            if p > 0 {
                assert(0 < high_pos(s, w, p - 1));
            }
            assert(0 < high_pos(s, w, p) < hl);
        }
        let start: u64 = if self.high_bits_pos > 0 {
            self.high_bits_pos + 1
        } else {
            self.high_bits_pos
        };
        proof {
            lemma_first_set_at_high(bits_of(self.b), s, w, hl, p, start as int);
        }
        let h: u64 = crate::utils::get_next_set(&self.b, start as usize);
        self.high_bits_pos = h;
        proof {
            vstd::arithmetic::mul::lemma_mul_inequality(p + 1, self.n as int, w as int);
            assert((p + 1) * w == p * w + w) by (nonlinear_arith);
            vstd::arithmetic::mul::lemma_mul_nonnegative(p, w as int);
        }
        let offset: u64 = self.lower_bits_offset + self.position * self.lower_bits;
        let mut low: u64 = 0;
        let mut j: u64 = 0;
        while j < self.lower_bits
            invariant
                j <= self.lower_bits,
                low == low_value(bits_of(self.b), offset as int, j as int),
            decreases self.lower_bits - j,
        {
            let idx: u64 = offset + j;
            let bitv: bool = crate::bitvec::bit_at(&self.b, idx as usize);
            proof {
                assert(idx as int == low_index(hl, w, p, j as int));
            }
            low = (low << 1) | (if bitv {
                1
            } else {
                0
            });
            j = j + 1;
        }
        proof {
            lemma_low_acc(bits_of(self.b), s, w, hl, p, w as int);
            let x = s[p];
            let m: u64 = self.mask;
            assert((x & m) >> 0u64 == x & m) by (bit_vector);
        }
        let value: u64 = ((h - self.position - 1) << self.lower_bits) | low;
        proof {
            let x = s[p];
            let m: u64 = self.mask;
            assert(1u64 << w >= 1) by (bit_vector)
                requires
                    w <= 63,
            ;
            assert(((x >> w) << w) | (x & m) == x) by (bit_vector)
                requires
                    w <= 63 && m == (1u64 << w) - 1,
            ;
        }
        self.cur_value = value;
        proof {
            assert(*self =~= old(self).spec_visit(p));
        }
    }

    /// Rewinds the cursor to the first element and decodes it afresh from
    /// the start of the bit vector.
    pub fn reset(&mut self)
        requires
            old(self).loaded(),
        ensures
            *final(self) == old(self).spec_reset(),
            final(self).loaded(),
            final(self).spec_position() == 0,
            final(self).spec_value() == old(self).view_elems()[0],
            final(self).view_elems() == old(self).view_elems(),
            final(self).spec_universe() == old(self).spec_universe(),
            final(self).spec_count() == old(self).spec_count(),
    {
        self.high_bits_pos = 0;
        self.position = 0;
        self.read_current_value();
        proof {
            assert(*self =~= old(self).spec_reset());
        }
    }

    /// Advances the cursor one position and returns the value there. When
    /// the cursor already stands on the last element the call fails and the
    /// cursor is left where it was: a failed step past the end does not
    /// disturb the state.
    pub fn next(&mut self) -> (r: Result<u64, OutOfBoundsError>)
        requires
            old(self).loaded(),
        ensures
            old(self).spec_position() + 1 < old(self).spec_count() ==> *final(self) == old(
                self,
            ).spec_visit(old(self).spec_position() + 1) && final(self).loaded() && r
                == Ok::<u64, OutOfBoundsError>(
                old(self).view_elems()[old(self).spec_position() + 1],
            ),
            old(self).spec_position() + 1 < old(self).spec_count() ==> final(self).spec_position()
                == old(self).spec_position() + 1,
            old(self).spec_position() + 1 >= old(self).spec_count() ==> *final(self) == *old(self)
                && r is Err,
            final(self).view_elems() == old(self).view_elems(),
            final(self).spec_universe() == old(self).spec_universe(),
            final(self).spec_count() == old(self).spec_count(),
            r is Ok <==> old(self).spec_position() + 1 < old(self).spec_count(),
    {
        if self.position + 1 >= self.n {
            return Err(OutOfBoundsError);
        }
        proof {
            lemma_high_pos_step(self.elems@, self.lower_bits, self.position as int);
        }
        self.position = self.position + 1;
        self.read_current_value();
        proof {
            assert(*self =~= old(self).spec_visit(old(self).spec_position() + 1));
        }
        Ok(self.cur_value)
    }

    /// Moves the cursor straight to logical index `position` and returns the
    /// value there. A backward move rewinds to the start first and scans
    /// forward; a forward move resumes from the current high-bit pointer.
    /// Positions at or past the element count hold no value, so they are
    /// rejected and the cursor is left untouched.
    #[verifier::loop_isolation(false)]
    pub fn visit(&mut self, position: u64) -> (r: Result<u64, OutOfBoundsError>)
        requires
            old(self).loaded(),
        ensures
            position < old(self).spec_count() ==> *final(self) == old(self).spec_visit(
                position as int,
            ) && final(self).loaded() && r == Ok::<u64, OutOfBoundsError>(
                old(self).view_elems()[position as int],
            ),
            position < old(self).spec_count() ==> final(self).spec_position() == position
                && final(self).spec_value() == old(self).view_elems()[position as int],
            position >= old(self).spec_count() ==> *final(self) == *old(self) && r is Err,
            final(self).view_elems() == old(self).view_elems(),
            final(self).spec_universe() == old(self).spec_universe(),
            final(self).spec_count() == old(self).spec_count(),
            r is Ok <==> position < old(self).spec_count(),
    {
        if position >= self.n {
            return Err(OutOfBoundsError);
        }
        if position == self.position {
            proof {
                assert(*self =~= old(self).spec_visit(position as int));
            }
            return Ok(self.cur_value);
        }
        if position < self.position {
            self.reset();
        }
        while self.position < position
            invariant
                self.loaded(),
                self.position <= position < self.n,
                self.universe == old(self).universe,
                self.n == old(self).n,
                self.lower_bits == old(self).lower_bits,
                self.higher_bits_length == old(self).higher_bits_length,
                self.mask == old(self).mask,
                self.lower_bits_offset == old(self).lower_bits_offset,
                self.bv_len == old(self).bv_len,
                self.b == old(self).b,
                self.elems == old(self).elems,
            decreases position - self.position,
        {
            proof {
                lemma_high_pos_step(self.elems@, self.lower_bits, self.position as int);
            }
            self.position = self.position + 1;
            self.read_current_value();
        }
        proof {
            assert(*self =~= old(self).spec_visit(position as int));
        }
        Ok(self.cur_value)
    }
}

impl EliasFano {
    /// Renders the geometry constants — universe, count, low width, high
    /// region length, mask, low region offset, total bit length — as text
    /// for diagnostics. Relies on std's `format!`; nothing is promised of
    /// the text.
    #[verifier::external_body]
    pub fn info(&self) -> String {
        format!(
            "\n    Universe: {:?}\n    Elements: {:?}\n    Lower_bits: {:?}\n    Higher_bits_length: {:?}\n    Mask: 0b{:?}\n    Lower_bits_offset: {:?}\n    Bitvector length: {:?}\n",
            self.universe,
            self.n,
            self.lower_bits,
            self.higher_bits_length,
            self.mask,
            self.lower_bits_offset,
            self.bv_len,
        )
    }
}

/// Whether `(universe, n)` names a geometry this library can allocate: a
/// positive count (the low width is derived by dividing by it) and a total
/// bit length that fits in `usize`. Exactly the precondition of `new`.
pub fn geometry_fits(universe: u64, n: u64) -> (r: bool)
    ensures
        r == (1 <= n && spec_total_bits(universe, n) <= usize::MAX as int),
{
    if n == 0 {
        return false;
    }
    let lower_bits: u64 = if universe > n {
        crate::utils::msb(universe / n)
    } else {
        0
    };
    proof {
        vstd::arithmetic::mul::lemma_mul_upper_bound(
            n as int,
            u64::MAX as int,
            lower_bits as int,
            63,
        );
        vstd::arithmetic::mul::lemma_mul_nonnegative(n as int, lower_bits as int);
    }
    let high_part: u128 = (n as u128) + ((universe >> lower_bits) as u128) + 2;
    let total: u128 = high_part + (n as u128) * (lower_bits as u128);
    total <= (usize::MAX as u128)
}

/// The `p`-th forward scan lands exactly on the high bit of element `p`.
proof fn lemma_nth_set_matches(bits: Seq<bool>, s: Seq<u64>, width: u64, high_length: int, p: int)
    requires
        sorted(s),
        width <= 63,
        encoded(bits, s, width, high_length),
        0 <= p < s.len(),
    ensures
        nth_set(bits, p) == high_pos(s, width, p),
    decreases p,
{
    if p == 0 {
        lemma_first_set_at_high(bits, s, width, high_length, 0, 0);
    } else {
        lemma_nth_set_matches(bits, s, width, high_length, p - 1);
        lemma_high_pos_step(s, width, p - 1);
        lemma_first_set_at_high(bits, s, width, high_length, p, nth_set(bits, p - 1) + 1);
    }
}

/// Round-trip: a bit vector that encodes a non-decreasing sequence decodes,
/// at every position, to exactly the value that was stored there — the
/// encoding loses no information.
pub proof fn lemma_round_trip(bits: Seq<bool>, s: Seq<u64>, width: u64, high_length: int, i: int)
    requires
        sorted(s),
        width <= 63,
        encoded(bits, s, width, high_length),
        0 <= i < s.len(),
    ensures
        decode_at(bits, width, high_length, i) == s[i],
{
    lemma_nth_set_matches(bits, s, width, high_length, i);
    lemma_low_acc(bits, s, width, high_length, i, width as int);
    let x = s[i];
    assert(1u64 << width >= 1) by (bit_vector)
        requires
            width <= 63,
    ;
    let m: u64 = ((1u64 << width) - 1) as u64;
    assert((x & m) >> 0u64 == x & m) by (bit_vector);
    assert(((x >> width) << width) | (x & m) == x) by (bit_vector)
        requires
            width <= 63 && m == (1u64 << width) - 1,
    ;
}

/// Sequential scan equivalence: walking the positions in order decodes the
/// built sequence itself, value for value — so repeated `next` from the
/// start and direct `visit` of each index see the same values in the same
/// order.
pub proof fn lemma_sequential_scan_equivalence(
    bits: Seq<bool>,
    s: Seq<u64>,
    width: u64,
    high_length: int,
)
    requires
        sorted(s),
        width <= 63,
        encoded(bits, s, width, high_length),
    ensures
        (Seq::new(s.len(), |i: int| decode_at(bits, width, high_length, i))) == s,
{
    let d = Seq::new(s.len(), |i: int| decode_at(bits, width, high_length, i));
    assert forall|i: int| 0 <= i < s.len() implies d[i] == s[i] by {
        lemma_round_trip(bits, s, width, high_length, i);
    }
    assert(d =~= s);
}

/// Idempotent reset: any run of consecutive resets leaves the cursor exactly
/// where a single reset leaves it — at position zero, on the first value.
pub proof fn lemma_reset_idempotent(ef: EliasFano)
    requires
        ef.loaded(),
    ensures
        ef.spec_reset().spec_reset() == ef.spec_reset(),
        ef.spec_reset().spec_position() == 0,
        ef.spec_reset().spec_value() == ef.view_elems()[0],
{
    assert(ef.spec_reset().spec_reset() =~= ef.spec_reset());
}

/// Random-access symmetry: visiting `i`, then any `j`, then `i` again puts
/// the cursor in the same state both times it stands on `i`, and both times
/// it reads the `i`-th built value — whether `j` lies before or after `i`.
pub proof fn lemma_visit_symmetry(ef: EliasFano, i: int, j: int)
    requires
        ef.loaded(),
        0 <= i < ef.spec_count(),
        0 <= j < ef.spec_count(),
    ensures
        ef.spec_visit(i).spec_visit(j).spec_visit(i) == ef.spec_visit(i),
        ef.spec_visit(i).spec_value() == ef.view_elems()[i],
{
    assert(ef.spec_visit(i).spec_visit(j).spec_visit(i) =~= ef.spec_visit(i));
}

/// `x <= y` stays true after both are shifted right by the same amount.
proof fn lemma_shr_le(x: u64, y: u64, sh: u64)
    requires
        x <= y,
        sh <= 63,
    ensures
        x >> sh <= y >> sh,
{
    assert(x >> sh <= y >> sh) by (bit_vector)
        requires
            x <= y && sh <= 63,
    ;
}

/// The product of two non-negative numbers is non-negative.
proof fn lemma_mul_nonneg_u64(x: int, y: int)
    requires
        0 <= x,
        0 <= y,
    ensures
        0 <= x * y,
{
    vstd::arithmetic::mul::lemma_mul_nonnegative(x, y);
}

/// Consecutive high-region bit positions are strictly increasing.
proof fn lemma_high_pos_step(s: Seq<u64>, width: u64, p: int)
    requires
        sorted(s),
        width <= 63,
        0 <= p,
        p + 1 < s.len(),
    ensures
        high_pos(s, width, p) < high_pos(s, width, p + 1),
{
    assert(s[p] <= s[p + 1]);
    lemma_shr_le(s[p], s[p + 1], width);
}

/// In a sound encoding, a scan that starts past the high bit of element
/// `p - 1` (or anywhere at or before the high bit of element `0`) finds the
/// high bit of element `p` next.
proof fn lemma_first_set_at_high(
    bits: Seq<bool>,
    s: Seq<u64>,
    width: u64,
    high_length: int,
    p: int,
    start: int,
)
    requires
        sorted(s),
        width <= 63,
        encoded(bits, s, width, high_length),
        0 <= p < s.len(),
        p == 0 ==> 0 <= start <= high_pos(s, width, 0),
        p > 0 ==> high_pos(s, width, p - 1) < start <= high_pos(s, width, p),
    ensures
        first_set_from(bits, start) == high_pos(s, width, p),
{
    let h = high_pos(s, width, p);
    assert(0 < h < high_length);
    assert(bits[h]);
    assert forall|m: int| start <= m < h implies !bits[m] by {
        if bits[m] {
            assert(0 <= m < high_length);
            let i2 = choose|i2: int| 0 <= i2 < s.len() && m == high_pos(s, width, i2);
            if i2 < p {
                assert(s[i2] <= s[p - 1]);
                lemma_shr_le(s[i2], s[p - 1], width);
                assert(high_pos(s, width, i2) <= high_pos(s, width, p - 1));
            } else {
                assert(s[p] <= s[i2]);
                lemma_shr_le(s[p], s[i2], width);
                assert(h <= high_pos(s, width, i2));
            }
        }
    }
    crate::utils::lemma_first_set_from_is(bits, start, h);
}

/// Reading back the first `wpart` stored low bits of element `p` yields the
/// top `wpart` bits of its masked low part.
proof fn lemma_low_acc(
    bits: Seq<bool>,
    s: Seq<u64>,
    width: u64,
    high_length: int,
    p: int,
    wpart: int,
)
    requires
        encoded(bits, s, width, high_length),
        width <= 63,
        0 <= p < s.len(),
        0 <= wpart <= width,
    ensures
        low_value(bits, high_length + p * width, wpart) == ((s[p] & (((1u64 << width)
            - 1) as u64)) >> ((width - wpart) as u64)),
    decreases wpart,
{
    let x = s[p];
    assert(1u64 << width >= 1) by (bit_vector)
        requires
            width <= 63,
    ;
    let m: u64 = ((1u64 << width) - 1) as u64;
    if wpart == 0 {
        assert((x & m) >> width == 0) by (bit_vector)
            requires
                m == (1u64 << width) - 1 && width <= 63,
        ;
    } else {
        lemma_low_acc(bits, s, width, high_length, p, wpart - 1);
        let shv: u64 = (width - wpart) as u64;
        assert(bits[low_index(high_length, width, p, wpart - 1)] == low_bit_set(
            x,
            width,
            wpart - 1,
        ));
        assert(low_index(high_length, width, p, wpart - 1) == high_length + p * width + (wpart
            - 1));
        assert((x >> shv) & 1u64 == 1u64 || (x >> shv) & 1u64 == 0u64) by (bit_vector);
        assert((((x & m) >> (shv + 1)) << 1u64) | ((x >> shv) & 1u64) == (x & m) >> shv)
            by (bit_vector)
            requires
                shv < width && width <= 63 && m == (1u64 << width) - 1,
        ;
    }
}

/// Masking a value to its low `width` bits does not change any of those bits.
proof fn lemma_masked_bit(x: u64, width: u64, j: u64)
    requires
        j < width,
        width <= 63,
    ensures
        (((x & (((1u64 << width) - 1) as u64)) >> ((width - 1 - j) as u64)) & 1u64) == ((x >> ((
        width - 1 - j) as u64)) & 1u64),
{
    assert(1u64 << width >= 1) by (bit_vector)
        requires
            width <= 63,
    ;
    let m: u64 = ((1u64 << width) - 1) as u64;
    let sh: u64 = (width - 1 - j) as u64;
    assert(((x & m) >> sh) & 1u64 == (x >> sh) & 1u64) by (bit_vector)
        requires
            m == (1u64 << width) - 1 && sh < width && width <= 63,
    ;
}

} // verus!
