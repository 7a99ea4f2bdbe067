//! The operators of the set algebra: `&`, `|`, `^`, `-` and `!` on sets, with
//! a set or a single flag on the right, and the conversion of a flag into
//! the set that holds it.

use crate::bit_model::{below, symmetric_difference};
use crate::bits::Bits;
use crate::flag::BitFlag;
use crate::set::BitSet;
use core::ops::{BitAnd, BitOr, BitXor, Not, Sub};
use vstd::prelude::*;
use vstd::std_specs::convert::FromSpecImpl;
use vstd::std_specs::ops::{
    BitAndSpecImpl, BitOrSpecImpl, BitXorSpecImpl, NotSpecImpl, SubSpecImpl,
};

verus! {

impl<F: BitFlag> FromSpecImpl<F> for BitSet<F> {
    open spec fn obeys_from_spec() -> bool {
        true
    }

    open spec fn from_spec(flag: F) -> Self {
        BitSet::spec_single(flag)
    }
}

impl<F: BitFlag> From<F> for BitSet<F> {
    /// A flag as the set that holds it and nothing else.
    fn from(flag: F) -> (set: Self)
        ensures
            set@ == set![flag.ordinal() as nat],
    {
        BitSet::single(flag)
    }
}

impl<F: BitFlag> BitAndSpecImpl for BitSet<F> {
    open spec fn obeys_bitand_spec() -> bool {
        true
    }

    open spec fn bitand_req(self, rhs: Self) -> bool {
        true
    }

    open spec fn bitand_spec(self, rhs: Self) -> Self {
        self.spec_intersect(rhs)
    }
}

impl<F: BitFlag> BitAnd for BitSet<F> {
    type Output = Self;

    /// `a & b` is the intersection of two sets.
    fn bitand(self, rhs: Self) -> (set: Self)
        ensures
            set@ == self@.intersect(rhs@),
    {
        self.intersect(rhs)
    }
}

impl<F: BitFlag> BitAndSpecImpl<F> for BitSet<F> {
    open spec fn obeys_bitand_spec() -> bool {
        true
    }

    open spec fn bitand_req(self, rhs: F) -> bool {
        true
    }

    open spec fn bitand_spec(self, rhs: F) -> bool {
        self.contains(rhs)
    }
}

impl<F: BitFlag> BitAnd<F> for BitSet<F> {
    type Output = bool;

    /// `set & flag` tells whether the flag is in the set.
    fn bitand(self, rhs: F) -> (held: bool) {
        self.get(rhs)
    }
}

impl<F: BitFlag> BitOrSpecImpl for BitSet<F> {
    open spec fn obeys_bitor_spec() -> bool {
        true
    }

    open spec fn bitor_req(self, rhs: Self) -> bool {
        true
    }

    open spec fn bitor_spec(self, rhs: Self) -> Self {
        self.spec_union(rhs)
    }
}

impl<F: BitFlag> BitOr for BitSet<F> {
    type Output = Self;

    /// `a | b` is the union of two sets.
    fn bitor(self, rhs: Self) -> (set: Self)
        ensures
            set@ == self@.union(rhs@),
    {
        self.union(rhs)
    }
}

impl<F: BitFlag> BitOrSpecImpl<F> for BitSet<F> {
    open spec fn obeys_bitor_spec() -> bool {
        true
    }

    open spec fn bitor_req(self, rhs: F) -> bool {
        true
    }

    open spec fn bitor_spec(self, rhs: F) -> Self {
        self.spec_union(BitSet::spec_single(rhs))
    }
}

impl<F: BitFlag> BitOr<F> for BitSet<F> {
    type Output = Self;

    /// `set | flag` is the set with the flag added.
    fn bitor(self, rhs: F) -> (set: Self)
        ensures
            set@ == self@.insert(rhs.ordinal() as nat),
    {
        let set = self.union(BitSet::single(rhs));
        assert(set@ =~= self@.insert(rhs.ordinal() as nat));
        set
    }
}

impl<F: BitFlag> BitXorSpecImpl for BitSet<F> {
    open spec fn obeys_bitxor_spec() -> bool {
        true
    }

    open spec fn bitxor_req(self, rhs: Self) -> bool {
        true
    }

    open spec fn bitxor_spec(self, rhs: Self) -> Self {
        self.spec_xor(rhs)
    }
}

impl<F: BitFlag> BitXor for BitSet<F> {
    type Output = Self;

    /// `a ^ b` is the symmetric difference of two sets.
    fn bitxor(self, rhs: Self) -> (set: Self)
        ensures
            set@ == symmetric_difference(self@, rhs@),
    {
        self.xor(rhs)
    }
}

impl<F: BitFlag> BitXorSpecImpl<F> for BitSet<F> {
    open spec fn obeys_bitxor_spec() -> bool {
        true
    }

    open spec fn bitxor_req(self, rhs: F) -> bool {
        true
    }

    open spec fn bitxor_spec(self, rhs: F) -> Self {
        self.spec_xor(BitSet::spec_single(rhs))
    }
}

impl<F: BitFlag> BitXor<F> for BitSet<F> {
    type Output = Self;

    /// `set ^ flag` is the set with the flag toggled.
    fn bitxor(self, rhs: F) -> (set: Self)
        ensures
            set@ == if self.contains(rhs) {
                self@.remove(rhs.ordinal() as nat)
            } else {
                self@.insert(rhs.ordinal() as nat)
            },
    {
        let set = self.xor(BitSet::single(rhs));
        assert(set@ =~= if self.contains(rhs) {
            self@.remove(rhs.ordinal() as nat)
        } else {
            self@.insert(rhs.ordinal() as nat)
        });
        set
    }
}

impl<F: BitFlag> SubSpecImpl for BitSet<F> {
    open spec fn obeys_sub_spec() -> bool {
        true
    }

    open spec fn sub_req(self, rhs: Self) -> bool {
        true
    }

    open spec fn sub_spec(self, rhs: Self) -> Self {
        self.spec_difference(rhs)
    }
}

impl<F: BitFlag> Sub for BitSet<F> {
    type Output = Self;

    /// `a - b` is the set of the flags of `a` that are not in `b`.
    fn sub(self, rhs: Self) -> (set: Self)
        ensures
            set@ == self@.difference(rhs@),
    {
        self.difference(rhs)
    }
}

impl<F: BitFlag> SubSpecImpl<F> for BitSet<F> {
    open spec fn obeys_sub_spec() -> bool {
        true
    }

    open spec fn sub_req(self, rhs: F) -> bool {
        true
    }

    open spec fn sub_spec(self, rhs: F) -> Self {
        self.spec_difference(BitSet::spec_single(rhs))
    }
}

impl<F: BitFlag> Sub<F> for BitSet<F> {
    type Output = Self;

    /// `set - flag` is the set with the flag taken out.
    fn sub(self, rhs: F) -> (set: Self)
        ensures
            set@ == self@.remove(rhs.ordinal() as nat),
    {
        let set = self.difference(BitSet::single(rhs));
        assert(set@ =~= self@.remove(rhs.ordinal() as nat));
        set
    }
}

impl<F: BitFlag> NotSpecImpl for BitSet<F> {
    open spec fn obeys_not_spec() -> bool {
        true
    }

    open spec fn not_req(self) -> bool {
        true
    }

    open spec fn not_spec(self) -> Self {
        self.spec_complement()
    }
}

impl<F: BitFlag> Not for BitSet<F> {
    type Output = Self;

    /// `!set` is the complement of the set over all bits of the storage.
    /// Verified code calls `complement`: Verus does not take `!` on a type
    /// that is no integer yet.
    fn not(self) -> (set: Self)
        ensures
            set@ == below(F::Storage::COUNT as nat).difference(self@),
    {
        self.complement()
    }
}

/// The set of two flags. A generated binding gives a bare flag the operator
/// `|` with this result.
pub fn union_of<F: BitFlag>(a: F, b: F) -> (set: BitSet<F>)
    ensures
        set == BitSet::spec_single(a).spec_union(BitSet::spec_single(b)),
        set@ == set![a.ordinal() as nat, b.ordinal() as nat],
{
    let set = BitSet::single(a).union(BitSet::single(b));
    assert(set@ =~= set![a.ordinal() as nat, b.ordinal() as nat]);
    set
}

/// The complement of the set of one flag, over all bits of the storage. A
/// generated binding gives a bare flag the operator `!` with this result.
pub fn complement_of<F: BitFlag>(flag: F) -> (set: BitSet<F>)
    ensures
        set == BitSet::spec_single(flag).spec_complement(),
        set@ == below(F::Storage::COUNT as nat).remove(flag.ordinal() as nat),
{
    let set = BitSet::single(flag).complement();
    assert(set@ =~= below(F::Storage::COUNT as nat).remove(flag.ordinal() as nat));
    set
}

} // verus!
