//! The primality table: a growable sequence of bits, stored in a `bitvec`
//! bit-vector so that a table of several million entries stays compact.
//!
//! Verus sees the table only through the trusted wrappers below; each wrapper
//! states, over `table_bits`, what the underlying `bitvec` call does.
use vstd::prelude::*;
use bitvec::order::Lsb0;
use bitvec::vec::BitVec;

verus! {

/// A sequence of booleans backed by a `bitvec::vec::BitVec`.
#[verifier::external_body]
pub struct PrimeTable {
    bits: BitVec<u8, Lsb0>,
}

/// The sequence of bits that a table holds.
pub uninterp spec fn table_bits(t: PrimeTable) -> Seq<bool>;

impl View for PrimeTable {
    type V = Seq<bool>;

    open spec fn view(&self) -> Seq<bool> {
        table_bits(*self)
    }
}

impl PrimeTable {
    /// Relies on bitvec's `BitVec::repeat`: builds a vector of `len` copies of `bit`.
    #[verifier::external_body]
    pub fn repeat(bit: bool, len: usize) -> (r: PrimeTable)
        ensures
            table_bits(r) == Seq::new(len as nat, |i: int| bit),
    {
        PrimeTable { bits: BitVec::repeat(bit, len) }
    }

    /// Relies on bitvec's `BitSlice::len` (through `BitVec`'s deref): the number
    /// of bits held.
    #[verifier::external_body]
    pub fn len(&self) -> (r: usize)
        ensures
            r == table_bits(*self).len(),
    {
        self.bits.len()
    }

    /// Relies on bitvec's `BitSlice::set` (through `BitVec`'s deref): writes one
    /// bit in place.
    #[verifier::external_body]
    pub fn set(&mut self, i: usize, value: bool)
        requires
            i < table_bits(*old(self)).len(),
        ensures
            table_bits(*final(self)) == table_bits(*old(self)).update(i as int, value),
    {
        self.bits.set(i, value)
    }

    /// Relies on bitvec's `Index<usize>` impl for `BitSlice` (through `BitVec`'s
    /// deref): reads one bit.
    #[verifier::external_body]
    pub fn get(&self, i: usize) -> (r: bool)
        requires
            i < table_bits(*self).len(),
        ensures
            r == table_bits(*self)[i as int],
    {
        self.bits[i]
    }
}

} // verus!
