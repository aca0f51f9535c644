//! The growable bit vector of `bitvec`, as large ballots store their codes.
use vstd::prelude::*;

use bitvec::order::Lsb0;
use bitvec::vec::BitVec;

verus! {

/// Holds a `bitvec` bit vector (`u8` storage, least significant bit first).
/// The vector is reachable only through the functions of this module.
#[verifier::external_body]
#[derive(Debug)]
pub struct BitStorage {
    bits: BitVec<u8, Lsb0>,
}

/// The bits that a storage holds, in index order.
pub uninterp spec fn bit_contents(storage: BitStorage) -> Seq<bool>;

impl Clone for BitStorage {
    /// Calls `BitVec::clone`, which copies the bits.
    #[verifier::external_body]
    fn clone(&self) -> (r: BitStorage)
        ensures
            bit_contents(r) == bit_contents(*self),
    {
        BitStorage { bits: self.bits.clone() }
    }
}

impl BitStorage {
    /// Calls `BitVec::repeat(false, len)`: a vector of `len` bits, all clear.
    #[verifier::external_body]
    pub(crate) fn zeroed(len: usize) -> (storage: BitStorage)
        ensures
            bit_contents(storage) == Seq::new(len as nat, |k: int| false),
    {
        BitStorage { bits: BitVec::repeat(false, len) }
    }

    /// Calls `BitSlice::len`: the number of bits held.
    #[verifier::external_body]
    pub(crate) fn len(&self) -> (r: usize)
        ensures
            r == bit_contents(*self).len(),
    {
        self.bits.len()
    }

    /// Reads bit `idx` through `BitSlice` indexing, which panics out of
    /// bounds.
    #[verifier::external_body]
    pub(crate) fn get(&self, idx: usize) -> (b: bool)
        requires
            idx < bit_contents(*self).len(),
        ensures
            b == bit_contents(*self)[idx as int],
    {
        self.bits[idx]
    }

    /// Calls `BitSlice::set(idx, value)`, which writes one bit and panics out
    /// of bounds.
    #[verifier::external_body]
    pub(crate) fn set(&mut self, idx: usize, value: bool)
        requires
            idx < bit_contents(*old(self)).len(),
        ensures
            bit_contents(*final(self)) == bit_contents(*old(self)).update(idx as int, value),
    {
        self.bits.set(idx, value)
    }
}

} // verus!
