//! Fixed-universe bitset over interned handles: constant-time membership,
//! union and intersection tests used throughout the path search.

use vstd::prelude::*;

verus! {

/// A set of handles drawn from a fixed universe `0 .. len`.
pub struct SmallBitmap {
    bits: Vec<bool>,
}

impl View for SmallBitmap {
    type V = Seq<bool>;

    closed spec fn view(&self) -> Seq<bool> {
        self.bits@
    }
}

impl SmallBitmap {
    /// True when handle `i` is in the set.
    pub open spec fn spec_contains(&self, i: int) -> bool {
        0 <= i < self@.len() && self@[i]
    }

    pub fn new(len: usize) -> (r: Self)
        ensures
            r@.len() == len,
            forall|i: int| 0 <= i < len ==> !r@[i],
    {
        let mut bits: Vec<bool> = Vec::new();
        let mut k: usize = 0;
        while k < len
            invariant
                k <= len,
                bits@.len() == k,
                forall|i: int| 0 <= i < k ==> !bits@[i],
            decreases len - k,
        {
            bits.push(false);
            k += 1;
        }
        SmallBitmap { bits }
    }

    pub fn len(&self) -> (r: usize)
        ensures
            r == self@.len(),
    {
        self.bits.len()
    }

    pub fn contains(&self, i: usize) -> (r: bool)
        requires
            i < self@.len(),
        ensures
            r == self.spec_contains(i as int),
    {
        self.bits[i]
    }

    pub fn insert(&mut self, i: usize)
        requires
            i < old(self)@.len(),
        ensures
            final(self)@ == old(self)@.update(i as int, true),
    {
        self.bits.set(i, true);
    }

    pub fn remove(&mut self, i: usize)
        requires
            i < old(self)@.len(),
        ensures
            final(self)@ == old(self)@.update(i as int, false),
    {
        self.bits.set(i, false);
    }

    /// Adds every handle of `other` to the set.
    pub fn union(&mut self, other: &SmallBitmap)
        requires
            old(self)@.len() == other@.len(),
        ensures
            final(self)@.len() == old(self)@.len(),
            forall|i: int|
                0 <= i < final(self)@.len() ==> final(self)@[i] == (old(self)@[i] || other@[i]),
    {
        let n = self.bits.len();
        let mut merged: Vec<bool> = Vec::new();
        let mut k: usize = 0;
        while k < n
            invariant
                n == self@.len() == other@.len(),
                k <= n,
                merged@.len() == k,
                forall|i: int| 0 <= i < k ==> merged@[i] == (self@[i] || other@[i]),
            decreases n - k,
        {
            merged.push(self.bits[k] || other.bits[k]);
            k += 1;
        }
        self.bits = merged;
    }

    /// True when the two sets share at least one handle.
    pub fn intersects(&self, other: &SmallBitmap) -> (r: bool)
        requires
            self@.len() == other@.len(),
        ensures
            r == exists|i: int| 0 <= i < self@.len() && self@[i] && other@[i],
    {
        let n = self.bits.len();
        let mut k: usize = 0;
        while k < n
            invariant
                n == self@.len() == other@.len(),
                k <= n,
                forall|i: int| 0 <= i < k ==> !(self@[i] && other@[i]),
            decreases n - k,
        {
            if self.bits[k] && other.bits[k] {
                return true;
            }
            k += 1;
        }
        false
    }

    /// An independent copy of the set.
    pub fn duplicate(&self) -> (r: Self)
        ensures
            r@ == self@,
    {
        let n = self.bits.len();
        let mut bits: Vec<bool> = Vec::new();
        let mut k: usize = 0;
        while k < n
            invariant
                n == self@.len(),
                k <= n,
                bits@.len() == k,
                forall|i: int| 0 <= i < k ==> bits@[i] == self@[i],
            decreases n - k,
        {
            bits.push(self.bits[k]);
            k += 1;
        }
        let r = SmallBitmap { bits };
        proof {
            assert(r@ =~= self@);
        }
        r
    }
}

} // verus!
