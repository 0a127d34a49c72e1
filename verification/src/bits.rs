//! A fixed-length bit set backed by `bitvec`.

use vstd::prelude::*;
use bitvec::boxed::BitBox;
use bitvec::order::Lsb0;
use bitvec::vec::BitVec;

verus! {

/// A boxed bit slice of fixed length. `BitBox`'s generic declaration carries
/// bounds that are traits of `bitvec`, so the box is held here as an opaque
/// field, and its bits are named by [`bits_of`].
#[verifier::external_body]
#[derive(Debug)]
pub struct Bits {
    inner: BitBox<usize, Lsb0>,
}

/// The most bits a bit slice can address: `bitvec` refuses (panics on)
/// longer ones.
pub const MAX_BITS: usize = usize::MAX / 8;

/// The bits a [`Bits`] holds, in index order.
pub uninterp spec fn bits_of(b: Bits) -> Seq<bool>;

impl Bits {
    /// `BitVec::repeat(false, len).into_boxed_bitslice()`: `len` zero bits.
    /// `bitvec` panics on a length beyond [`MAX_BITS`].
    #[verifier::external_body]
    pub(crate) fn new(len: usize) -> (r: Bits)
        requires
            len <= MAX_BITS,
        ensures
            bits_of(r) == Seq::new(len as nat, |_i: int| false),
    {
        Bits { inner: BitVec::<usize, Lsb0>::repeat(false, len).into_boxed_bitslice() }
    }

    /// `BitSlice::len`: the number of bits.
    #[verifier::external_body]
    pub fn len(&self) -> (r: usize)
        ensures
            r == bits_of(*self).len(),
    {
        self.inner.len()
    }

    /// Indexing a `BitSlice`: the bit at `index` (which panics past the end).
    #[verifier::external_body]
    pub fn get(&self, index: usize) -> (r: bool)
        requires
            index < bits_of(*self).len(),
        ensures
            r == bits_of(*self)[index as int],
    {
        self.inner[index]
    }

    /// `BitSlice::set`: writes one bit (which panics past the end).
    #[verifier::external_body]
    pub(crate) fn set(&mut self, index: usize, value: bool)
        requires
            index < bits_of(*old(self)).len(),
        ensures
            bits_of(*final(self)) == bits_of(*old(self)).update(index as int, value),
    {
        self.inner.set(index, value)
    }

    /// `BitSlice::fill`: writes every bit.
    #[verifier::external_body]
    pub(crate) fn fill(&mut self, value: bool)
        ensures
            bits_of(*final(self)) == Seq::new(bits_of(*old(self)).len(), |_i: int| value),
    {
        self.inner.fill(value)
    }

    /// The indices of the set bits, in increasing order.
    pub fn ones(&self) -> (r: Vec<u32>)
        requires
            bits_of(*self).len() <= u32::MAX,
        ensures
            forall|k: int| 0 <= k < r@.len() ==> #[trigger] r@[k] < bits_of(*self).len(),
            forall|k: int| 0 <= k < r@.len() ==> bits_of(*self)[#[trigger] r@[k] as int],
            forall|k: int, l: int| 0 <= k < l < r@.len() ==> r@[k] < r@[l],
            forall|i: int| 0 <= i < bits_of(*self).len() && bits_of(*self)[i]
                ==> r@.contains(i as u32),
    {
        let n = self.len();
        let mut r: Vec<u32> = Vec::new();
        let mut i: usize = 0;
        while i < n
            invariant
                n == bits_of(*self).len(),
                n <= u32::MAX,
                i <= n,
                forall|k: int| 0 <= k < r@.len() ==> bits_of(*self)[#[trigger] r@[k] as int],
                forall|k: int| 0 <= k < r@.len() ==> #[trigger] r@[k] < i,
                forall|k: int, l: int| 0 <= k < l < r@.len() ==> r@[k] < r@[l],
                forall|j: int| 0 <= j < i && bits_of(*self)[j] ==> r@.contains(j as u32),
            decreases n - i,
        {
            let ghost old_r = r@;
            if self.get(i) {
                r.push(i as u32);
            }
            assert forall|j: int| 0 <= j < i + 1 && bits_of(*self)[j] implies r@.contains(j as u32) by {
                if j < i {
                    let k = choose|k: int| 0 <= k < old_r.len() && old_r[k] == j as u32;
                    assert(r@[k] == j as u32);
                } else {
                    assert(r@[r@.len() - 1] == j as u32);
                }
            }
            i = i + 1;
        }
        r
    }
}

} // verus!
