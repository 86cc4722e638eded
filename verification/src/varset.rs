//! Sets of variable identifiers, stored densely in a `bit_set::BitSet`.
//!
//! Nothing in this module is proved. Each function hands its arguments to
//! the `bit-set` crate, and its contract records what that crate does, in
//! terms of the mathematical set of members.

use bit_set::BitSet;
use vstd::prelude::*;

verus! {

/// A set of variable identifiers.
#[verifier::external_body]
pub struct VarSet {
    bits: BitSet,
}

/// The members of a set: `v` belongs to it exactly when the bit at position
/// `v` is stored and set.
pub uninterp spec fn members(s: VarSet) -> Set<usize>;

impl View for VarSet {
    type V = Set<usize>;

    open spec fn view(&self) -> Set<usize> {
        members(*self)
    }
}

impl VarSet {
    /// `BitSet::new`: a set without members.
    #[verifier::external_body]
    pub fn new() -> (s: VarSet)
        ensures
            members(s) == Set::<usize>::empty(),
    {
        VarSet { bits: BitSet::new() }
    }

    /// `BitSet::contains`: whether `v` is a member.
    #[verifier::external_body]
    pub fn contains(&self, v: usize) -> (b: bool)
        ensures
            b == members(*self).contains(v),
    {
        self.bits.contains(v)
    }

    /// `BitSet::insert`: adds `v`, and tells whether it was absent before.
    ///
    /// The bit vector grows to `v + 1` bits, a number that `usize` must hold.
    #[verifier::external_body]
    pub fn insert(&mut self, v: usize) -> (added: bool)
        requires
            v < usize::MAX,
        ensures
            members(*final(self)) == members(*old(self)).insert(v),
            added == !members(*old(self)).contains(v),
    {
        self.bits.insert(v)
    }

    /// `BitSet::remove`: takes `v` out, and tells whether it was a member.
    #[verifier::external_body]
    pub fn remove(&mut self, v: usize) -> (removed: bool)
        ensures
            members(*final(self)) == members(*old(self)).remove(v),
            removed == members(*old(self)).contains(v),
    {
        self.bits.remove(v)
    }

    /// `BitSet::is_disjoint`: whether the two sets have no member in common.
    #[verifier::external_body]
    pub fn is_disjoint(&self, other: &VarSet) -> (b: bool)
        ensures
            b == members(*self).disjoint(members(*other)),
    {
        self.bits.is_disjoint(&other.bits)
    }
}

impl Clone for VarSet {
    /// `BitSet::clone`: a set with the same members.
    #[verifier::external_body]
    fn clone(&self) -> (s: VarSet)
        ensures
            members(s) == members(*self),
    {
        VarSet { bits: self.bits.clone() }
    }
}

} // verus!
