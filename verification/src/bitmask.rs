//! A fixed-length set of flags, kept in a `bitvec` bit vector.

use bitvec::order::Lsb0;
use bitvec::vec::BitVec;
use vstd::prelude::*;

verus! {

/// One flag per stop (or per route), packed into machine words.
#[verifier::external_body]
pub struct BitMask {
    bits: BitVec<usize, Lsb0>,
}

/// The flags that a mask holds, in index order.
pub uninterp spec fn mask_bits(m: BitMask) -> Seq<bool>;

/// The indices of the set flags, in increasing order.
pub open spec fn set_positions(bits: Seq<bool>) -> Seq<usize>
    decreases bits.len(),
{
    if bits.len() == 0 {
        Seq::empty()
    } else if bits.last() {
        set_positions(bits.drop_last()).push((bits.len() - 1) as usize)
    } else {
        set_positions(bits.drop_last())
    }
}

impl BitMask {
    /// A mask of `len` cleared flags.
    ///
    /// Trusted: bitvec's `BitVec::repeat`, which makes a bit vector of the
    /// given length with every bit set to the given value; it panics only
    /// when the length exceeds `BitSlice::MAX_BITS` (`usize::MAX >> 3`).
    #[verifier::external_body]
    pub(crate) fn new(len: usize) -> (m: BitMask)
        requires
            len <= usize::MAX / 8,
        ensures
            mask_bits(m) == Seq::new(len as nat, |i: int| false),
    {
        BitMask { bits: BitVec::repeat(false, len) }
    }

    /// Trusted: bitvec's `len`, the number of bits.
    #[verifier::external_body]
    pub(crate) fn len(&self) -> (n: usize)
        ensures
            n == mask_bits(*self).len(),
    {
        self.bits.len()
    }

    /// Trusted: bitvec's indexing, which reads the bit at an index below the
    /// length.
    #[verifier::external_body]
    pub(crate) fn get(&self, i: usize) -> (b: bool)
        requires
            i < mask_bits(*self).len(),
        ensures
            b == mask_bits(*self)[i as int],
    {
        self.bits[i]
    }

    /// Trusted: bitvec's `BitSlice::set`, which writes the bit at an index
    /// below the length and leaves the others.
    #[verifier::external_body]
    pub(crate) fn set(&mut self, i: usize, value: bool)
        requires
            i < mask_bits(*old(self)).len(),
        ensures
            mask_bits(*final(self)) == mask_bits(*old(self)).update(i as int, value),
    {
        self.bits.set(i, value);
    }

    /// Trusted: bitvec's `BitSlice::fill`, which writes every bit.
    #[verifier::external_body]
    pub(crate) fn fill(&mut self, value: bool)
        ensures
            mask_bits(*final(self)) == Seq::new(mask_bits(*old(self)).len(), |i: int| value),
    {
        self.bits.fill(value);
    }

    /// Trusted: bitvec's `BitSlice::not_any`, true when no bit is set.
    #[verifier::external_body]
    pub(crate) fn not_any(&self) -> (b: bool)
        ensures
            b == (forall|i: int| 0 <= i < mask_bits(*self).len() ==> !mask_bits(*self)[i]),
    {
        self.bits.not_any()
    }

    /// Trusted: bitvec's `BitSlice::iter_ones`, collected; it yields the index
    /// of every set bit, in increasing order.
    #[verifier::external_body]
    pub(crate) fn iter_ones(&self) -> (ones: Vec<usize>)
        ensures
            ones@ == set_positions(mask_bits(*self)),
            forall|k: int|
                0 <= k < ones@.len() ==> #[trigger] ones@[k] < mask_bits(*self).len()
                    && mask_bits(*self)[ones@[k] as int],
            forall|i: int|
                0 <= i < mask_bits(*self).len() && #[trigger] mask_bits(*self)[i] ==> ones@.contains(
                    i as usize,
                ),
            forall|k: int, l: int| 0 <= k < l < ones@.len() ==> ones@[k] < ones@[l],
    {
        self.bits.iter_ones().collect()
    }
}

} // verus!
