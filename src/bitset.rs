//! A fixed-length bit vector, kept in the `bv` crate's `BitVec` and seen by
//! contracts as a sequence of booleans.
use vstd::prelude::*;

verus! {

/// A fixed-length sequence of bits.
#[verifier::external_body]
pub struct Bits {
    inner: bv::BitVec<u8>,
}

/// The bits held, in position order.
pub uninterp spec fn bits_of(b: Bits) -> Seq<bool>;

impl Bits {
    /// Relies on `bv::BitVec::new_fill`: `len` bits, all equal to `value`.
    #[verifier::external_body]
    pub(crate) fn filled(value: bool, len: u64) -> (r: Bits)
        ensures
            bits_of(r) == Seq::new(len as nat, |i: int| value),
    {
        Bits { inner: bv::BitVec::new_fill(value, len) }
    }

    /// Relies on `bv::BitVec::get`: the bit at `position`, which must be in bounds.
    #[verifier::external_body]
    pub(crate) fn get(&self, position: u64) -> (r: bool)
        requires
            position < bits_of(*self).len(),
        ensures
            r == bits_of(*self)[position as int],
    {
        self.inner.get(position)
    }

    /// Relies on `bv::BitVec::set`: the bit at `position`, which must be in
    /// bounds, becomes `value`; no other bit changes.
    #[verifier::external_body]
    pub(crate) fn set(&mut self, position: u64, value: bool)
        requires
            position < bits_of(*old(self)).len(),
        ensures
            bits_of(*final(self)) == bits_of(*old(self)).update(position as int, value),
    {
        self.inner.set(position, value)
    }

    /// A bit vector holding exactly the given booleans.
    pub fn from_bools(v: &Vec<bool>) -> (r: Bits)
        ensures
            bits_of(r) == v@,
    {
        let n: u64 = v.len() as u64;
        let mut r = Bits::filled(false, n);
        let mut i: usize = 0;
        while i < v.len()
            invariant
                n == v@.len(),
                i <= v@.len(),
                bits_of(r).len() == v@.len(),
                forall|j: int| 0 <= j < i ==> bits_of(r)[j] == v@[j],
                forall|j: int| i <= j < v@.len() ==> !bits_of(r)[j],
            decreases v@.len() - i,
        {
            if v[i] {
                r.set(i as u64, true);
            }
            i = i + 1;
        }
        assert(bits_of(r) =~= v@);
        r
    }
}

} // verus!
