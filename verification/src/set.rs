//! The set of flags.

use crate::bit_model::{
    below, least, lemma_least, lemma_least_exists, symmetric_difference,
};
use crate::bits::Bits;
use crate::flag::{
    flag_at, is_ascending, is_mapped, lemma_flag_at_ordinal, lemma_from_index,
    lemma_ordinals_of_push, mask_of, ordinals_of, BitFlag,
};
use vstd::prelude::*;
use vstd::std_specs::cmp::{PartialEqSpec, PartialEqSpecImpl};
use vstd::std_specs::ops::{BitAndSpec, BitOrSpec, BitXorSpec, NotSpec};

verus! {

/// Why a set could not be reduced to exactly one flag.
#[derive(Clone, Copy, Debug, PartialEq, Eq, Structural)]
pub enum GetSingleError {
    /// No bit of the set is one.
    Empty,
    /// More than one bit of the set is one.
    TooMany,
    /// One bit of the set is one, and no flag has its position.
    Invalid,
}

/// A set of the flags of one enumeration, held in one storage value: a flag
/// is in the set where the bit at the flag's position is one.
///
/// The view of a set is the set of the positions of its ones. Every bit
/// pattern of the storage is a set; a position that no flag has can hold a
/// one too, after a complement.
pub struct BitSet<F: BitFlag>(F::Storage);

impl<F: BitFlag> Clone for BitSet<F> {
    fn clone(&self) -> (copy: Self)
        ensures
            copy == *self,
    {
        BitSet(self.0)
    }
}

impl<F: BitFlag> Copy for BitSet<F> {

}

impl<F: BitFlag> PartialEqSpecImpl for BitSet<F> {
    open spec fn obeys_eq_spec() -> bool {
        true
    }

    open spec fn eq_spec(&self, other: &Self) -> bool {
        *self == *other
    }
}

impl<F: BitFlag> PartialEq for BitSet<F> {
    fn eq(&self, other: &Self) -> (equal: bool) {
        proof {
            F::Storage::lemma_indices(self.0, other.0);
        }
        self.0 == other.0
    }
}

impl<F: BitFlag> Eq for BitSet<F> {

}

impl<F: BitFlag> View for BitSet<F> {
    type V = Set<nat>;

    closed spec fn view(&self) -> Set<nat> {
        self.0.indices()
    }
}

impl<F: BitFlag> BitSet<F> {
    /// Whether `flag` is in the set.
    pub open spec fn contains(self, flag: F) -> bool {
        self@.contains(flag.ordinal() as nat)
    }

    /// The flags of the set.
    pub open spec fn members(self) -> Set<F> {
        Set::new(|flag: F| self.contains(flag))
    }

    /// Whether a flag stands at each position at which the set holds a one.
    pub open spec fn all_mapped(self) -> bool {
        forall|index: nat| self@.contains(index) ==> is_mapped::<F>(index)
    }

    /// The positions of the flags of the set: its ones at positions that a
    /// flag has.
    pub open spec fn mapped_positions(self) -> Set<nat> {
        Set::new(|index: nat| self@.contains(index) && is_mapped::<F>(index))
    }

    /// The flag of the set with the lowest position, and `None` for a set
    /// without flags.
    pub open spec fn lowest_member(self) -> Option<F> {
        if self.mapped_positions().is_empty() {
            None
        } else {
            flag_at::<F>(least(self.mapped_positions()))
        }
    }

    /// The position whose one `pop` takes out: that of the lowest flag of the
    /// set, and the lowest one of a set without flags.
    pub open spec fn popped_position(self) -> nat {
        if self.mapped_positions().is_empty() {
            least(self@)
        } else {
            least(self.mapped_positions())
        }
    }

    /// Whether `flags` is what the iteration over the set yields: the flags
    /// of the set, from the lowest position up.
    pub open spec fn lists(self, flags: Seq<F>) -> bool {
        &&& is_ascending(flags)
        &&& ordinals_of(flags) == self.mapped_positions()
    }

    /// The set that `new` returns.
    pub closed spec fn spec_new() -> Self {
        BitSet(F::Storage::ZERO)
    }

    /// The set that `single` returns.
    pub closed spec fn spec_single(flag: F) -> Self {
        BitSet(mask_of(flag))
    }

    /// The set that `union` returns.
    pub closed spec fn spec_union(self, rhs: Self) -> Self {
        BitSet(self.0.bitor_spec(rhs.0))
    }

    /// The set that `intersect` returns.
    pub closed spec fn spec_intersect(self, rhs: Self) -> Self {
        BitSet(self.0.bitand_spec(rhs.0))
    }

    /// The set of the flags that are in one of two sets and not in the other.
    pub closed spec fn spec_xor(self, rhs: Self) -> Self {
        BitSet(self.0.bitxor_spec(rhs.0))
    }

    /// The set of the flags of `self` that are not in `rhs`.
    pub closed spec fn spec_difference(self, rhs: Self) -> Self {
        BitSet(self.0.bitand_spec(rhs.0.not_spec()))
    }

    /// The set with a one wherever `self` has none, over all bits of the
    /// storage.
    pub closed spec fn spec_complement(self) -> Self {
        BitSet(self.0.not_spec())
    }

    /// What `is_subset` returns.
    pub open spec fn spec_is_subset(self, superset: Self) -> bool {
        self.spec_intersect(superset) == self
    }

    /// What `get_single` returns.
    pub open spec fn spec_get_single(self) -> Result<F, GetSingleError> {
        if self@.is_empty() {
            Err(GetSingleError::Empty)
        } else if self@.len() > 1 {
            Err(GetSingleError::TooMany)
        } else {
            match flag_at::<F>(least(self@)) {
                Some(flag) => Ok(flag),
                None => Err(GetSingleError::Invalid),
            }
        }
    }

    /// The positions of the ones of a set are finitely many, and all of them
    /// are below the number of bits of the storage.
    pub proof fn lemma_view(self)
        ensures
            self@.finite(),
            self@.subset_of(below(F::Storage::COUNT as nat)),
            self@.len() <= F::Storage::COUNT,
    {
        F::Storage::lemma_indices(self.0, self.0);
        crate::bit_model::lemma_below(F::Storage::COUNT as nat);
        vstd::set_lib::lemma_len_subset(self@, below(F::Storage::COUNT as nat));
    }

    /// Two sets with ones at the same positions are the same set.
    pub proof fn lemma_view_injective(a: Self, b: Self)
        requires
            a@ == b@,
        ensures
            a == b,
    {
        F::Storage::lemma_indices(a.0, b.0);
    }

    /// The views of the empty set and of the set of one flag.
    pub proof fn lemma_constructors(flag: F)
        ensures
            Self::spec_new()@ == Set::<nat>::empty(),
            Self::spec_single(flag)@ == set![flag.ordinal() as nat],
    {
        F::Storage::lemma_indices(F::Storage::ZERO, F::Storage::ZERO);
        F::Storage::lemma_bit(flag.ordinal());
        F::lemma_ordinal(flag, flag);
    }

    /// The lowest flag of a set is in the set and no flag of the set has a
    /// lower position; a set without flags has none. What `pop` takes out of
    /// a set that is not empty is a one of the set: the one of its lowest
    /// flag, if it has a flag.
    pub proof fn lemma_lowest_member(self)
        ensures
            match self.lowest_member() {
                Some(flag) => {
                    &&& self.contains(flag)
                    &&& self.popped_position() == flag.ordinal()
                    &&& forall|other: F| self.contains(other) ==> flag.ordinal() <= other.ordinal()
                },
                None => forall|other: F| !self.contains(other),
            },
            !self@.is_empty() ==> self@.contains(self.popped_position()),
            self.mapped_positions().subset_of(self@),
    {
        let mapped = self.mapped_positions();
        if mapped.is_empty() {
            assert forall|other: F| !self.contains(other) by {
                if self.contains(other) {
                    lemma_flag_at_ordinal(other);
                    assert(mapped.contains(other.ordinal() as nat));
                }
            }
            if !self@.is_empty() {
                lemma_least_exists(self@, self@.choose());
            }
        } else {
            lemma_least_exists(mapped, mapped.choose());
            let lowest = least(mapped);
            let flag = flag_at::<F>(lowest).unwrap();
            assert(flag.ordinal() == lowest);
            assert forall|other: F| self.contains(other) implies flag.ordinal()
                <= other.ordinal() by {
                lemma_flag_at_ordinal(other);
                assert(mapped.contains(other.ordinal() as nat));
            }
        }
    }

    /// The views of the sets that the operations of the algebra give.
    pub proof fn lemma_operations(a: Self, b: Self)
        ensures
            a.spec_union(b)@ == a@.union(b@),
            a.spec_intersect(b)@ == a@.intersect(b@),
            a.spec_xor(b)@ == symmetric_difference(a@, b@),
            a.spec_difference(b)@ == a@.difference(b@),
            a.spec_complement()@ == below(F::Storage::COUNT as nat).difference(a@),
            a.spec_is_subset(b) == a@.subset_of(b@),
    {
        F::Storage::lemma_operations(a.0, b.0);
        F::Storage::lemma_operations(b.0, b.0);
        F::Storage::lemma_operations(a.0, b.0.not_spec());
        F::Storage::lemma_indices(a.0, b.0);
        assert(a.spec_difference(b)@ =~= a@.difference(b@));
        F::Storage::lemma_indices(a.0.bitand_spec(b.0), a.0);
        assert(a@.subset_of(b@) <==> a@.intersect(b@) =~= a@);
    }

    /// The empty set.
    #[verifier::when_used_as_spec(spec_new)]
    pub fn new() -> (set: Self)
        ensures
            set == Self::spec_new(),
            set@ == Set::<nat>::empty(),
    {
        proof {
            F::Storage::lemma_indices(F::Storage::ZERO, F::Storage::ZERO);
        }
        BitSet(F::Storage::ZERO)
    }

    /// The set that holds `flag` and nothing else.
    #[verifier::when_used_as_spec(spec_single)]
    pub fn single(flag: F) -> (set: Self)
        ensures
            set == Self::spec_single(flag),
            set@ == set![flag.ordinal() as nat],
    {
        proof {
            Self::lemma_constructors(flag);
        }
        BitSet(flag.bits())
    }

    /// Takes every flag out of the set.
    pub fn clear(&mut self)
        ensures
            *final(self) == Self::spec_new(),
            final(self)@ == Set::<nat>::empty(),
    {
        proof {
            F::Storage::lemma_indices(F::Storage::ZERO, F::Storage::ZERO);
        }
        self.0 = F::Storage::ZERO;
    }

    /// The set of the flags that are in `self` or in `rhs`.
    #[verifier::when_used_as_spec(spec_union)]
    pub fn union(self, rhs: Self) -> (set: Self)
        ensures
            set == self.spec_union(rhs),
            set@ == self@.union(rhs@),
    {
        proof {
            Self::lemma_operations(self, rhs);
            F::Storage::lemma_operations(self.0, rhs.0);
        }
        BitSet(self.0 | rhs.0)
    }

    /// The set of the flags that are in `self` and in `rhs`.
    #[verifier::when_used_as_spec(spec_intersect)]
    pub fn intersect(self, rhs: Self) -> (set: Self)
        ensures
            set == self.spec_intersect(rhs),
            set@ == self@.intersect(rhs@),
    {
        proof {
            Self::lemma_operations(self, rhs);
            F::Storage::lemma_operations(self.0, rhs.0);
        }
        BitSet(self.0 & rhs.0)
    }

    /// The set of the flags that are in one of `self` and `rhs` and not in
    /// the other.
    #[verifier::when_used_as_spec(spec_xor)]
    pub fn xor(self, rhs: Self) -> (set: Self)
        ensures
            set == self.spec_xor(rhs),
            set@ == symmetric_difference(self@, rhs@),
    {
        proof {
            Self::lemma_operations(self, rhs);
            F::Storage::lemma_operations(self.0, rhs.0);
        }
        BitSet(self.0 ^ rhs.0)
    }

    /// The set of the flags of `self` that are not in `rhs`.
    #[verifier::when_used_as_spec(spec_difference)]
    pub fn difference(self, rhs: Self) -> (set: Self)
        ensures
            set == self.spec_difference(rhs),
            set@ == self@.difference(rhs@),
    {
        proof {
            Self::lemma_operations(self, rhs);
            F::Storage::lemma_operations(rhs.0, rhs.0);
        }
        let kept = !rhs.0;
        proof {
            F::Storage::lemma_operations(self.0, kept);
        }
        BitSet(self.0 & kept)
    }

    /// The complement of the set over all bits of the storage: the positions
    /// that no flag has get a one too.
    #[verifier::when_used_as_spec(spec_complement)]
    pub fn complement(self) -> (set: Self)
        ensures
            set == self.spec_complement(),
            set@ == below(F::Storage::COUNT as nat).difference(self@),
    {
        proof {
            Self::lemma_operations(self, self);
            F::Storage::lemma_operations(self.0, self.0);
        }
        BitSet(!self.0)
    }

    /// Replaces the set by its complement over all bits of the storage.
    pub fn invert(&mut self)
        ensures
            *final(self) == old(self).spec_complement(),
            final(self)@ == below(F::Storage::COUNT as nat).difference(old(self)@),
    {
        proof {
            Self::lemma_operations(*self, *self);
            F::Storage::lemma_operations(self.0, self.0);
        }
        self.0 = !self.0;
    }

    /// Keeps of the set what is in `rhs` too: `&` in place.
    pub fn bitand_assign(&mut self, rhs: Self)
        ensures
            *final(self) == old(self).spec_intersect(rhs),
            final(self)@ == old(self)@.intersect(rhs@),
    {
        *self = self.intersect(rhs);
    }

    /// Adds to the set what is in `rhs`: `|` in place.
    pub fn bitor_assign(&mut self, rhs: Self)
        ensures
            *final(self) == old(self).spec_union(rhs),
            final(self)@ == old(self)@.union(rhs@),
    {
        *self = self.union(rhs);
    }

    /// Toggles in the set what is in `rhs`: `^` in place.
    pub fn bitxor_assign(&mut self, rhs: Self)
        ensures
            *final(self) == old(self).spec_xor(rhs),
            final(self)@ == symmetric_difference(old(self)@, rhs@),
    {
        *self = self.xor(rhs);
    }

    /// Takes out of the set what is in `rhs`: `-` in place.
    pub fn sub_assign(&mut self, rhs: Self)
        ensures
            *final(self) == old(self).spec_difference(rhs),
            final(self)@ == old(self)@.difference(rhs@),
    {
        *self = self.difference(rhs);
    }

    /// Whether every one of `self` is a one of `superset` too.
    #[verifier::when_used_as_spec(spec_is_subset)]
    pub fn is_subset(self, superset: Self) -> (contained: bool)
        ensures
            contained == self.spec_is_subset(superset),
            contained == self@.subset_of(superset@),
    {
        proof {
            Self::lemma_operations(self, superset);
            F::Storage::lemma_operations(self.0, superset.0);
        }
        let common = self.0 & superset.0;
        proof {
            F::Storage::lemma_indices(common, self.0);
        }
        common == self.0
    }

    /// The storage value of the set.
    pub fn bits(&self) -> (storage: &F::Storage)
        ensures
            storage.indices() == self@,
    {
        &self.0
    }

    /// Whether the set holds no one at all.
    pub fn is_empty(&self) -> (empty: bool)
        ensures
            empty == self@.is_empty(),
    {
        proof {
            F::Storage::lemma_indices(self.0, F::Storage::ZERO);
        }
        self.0 == F::Storage::ZERO
    }

    /// The number of ones of the set. A one at a position that no flag has
    /// is counted too.
    pub fn count(&self) -> (count: usize)
        ensures
            count == self@.len(),
    {
        self.0.count_ones()
    }

    /// Whether `flag` is in the set.
    pub fn get(&self, flag: F) -> (held: bool)
        ensures
            held == self.contains(flag),
    {
        let mask = flag.bits();
        proof {
            F::Storage::lemma_operations(mask, self.0);
        }
        let common = mask & self.0;
        proof {
            Self::lemma_constructors(flag);
            F::Storage::lemma_indices(common, F::Storage::ZERO);
            assert(common.indices() =~= if self.contains(flag) {
                set![flag.ordinal() as nat]
            } else {
                Set::<nat>::empty()
            });
            assert(set![flag.ordinal() as nat].contains(flag.ordinal() as nat));
        }
        common != F::Storage::ZERO
    }

    /// Puts `flag` into the set, and tells whether it was there before.
    pub fn set(&mut self, flag: F) -> (held: bool)
        ensures
            held == old(self).contains(flag),
            final(self)@ == old(self)@.insert(flag.ordinal() as nat),
    {
        let held = self.get(flag);
        let mask = flag.bits();
        proof {
            Self::lemma_constructors(flag);
            F::Storage::lemma_operations(self.0, mask);
            assert(self@.union(set![flag.ordinal() as nat]) =~= self@.insert(flag.ordinal() as nat));
        }
        self.0 = self.0 | mask;
        held
    }

    /// Takes the one at `position` out of the set.
    fn remove_position(&mut self, position: usize)
        ensures
            final(self)@ == old(self)@.remove(position as nat),
    {
        let mask = F::Storage::bit(position);
        proof {
            F::Storage::lemma_operations(mask, mask);
        }
        let kept = !mask;
        proof {
            F::Storage::lemma_operations(self.0, kept);
        }
        let rest = self.0 & kept;
        proof {
            F::Storage::lemma_indices(self.0, mask);
            F::Storage::lemma_bit(position);
            assert(rest.indices() =~= self@.remove(position as nat));
        }
        self.0 = rest;
    }

    /// Finds the flag of the set with the lowest position, and the position
    /// that `pop` takes out.
    fn lowest(&self) -> (found: (Option<F>, usize))
        ensures
            found.0 == self.lowest_member(),
            found.1 == if self@.is_empty() {
                F::Storage::COUNT as nat
            } else {
                self.popped_position()
            },
    {
        let mut candidates = self.0;
        proof {
            F::Storage::lemma_indices(candidates, F::Storage::ZERO);
        }
        while candidates != F::Storage::ZERO
            invariant
                candidates.indices().finite(),
                candidates.indices().subset_of(self@),
                forall|index: nat|
                    self@.contains(index) && !candidates.indices().contains(index)
                        ==> !is_mapped::<F>(index),
            decreases candidates.indices().len(),
        {
            proof {
                F::Storage::lemma_indices(candidates, F::Storage::ZERO);
            }
            let next = candidates.trailing_zeros();
            let flag = F::from_index(next);
            proof {
                lemma_from_index(next, flag);
            }
            match flag {
                Some(lowest) => {
                    proof {
                        let mapped = self.mapped_positions();
                        assert(mapped.contains(next as nat));
                        assert forall|other: nat| mapped.contains(other) implies next
                            <= other by {
                            assert(candidates.indices().contains(other));
                        }
                        lemma_least(mapped, next as nat);
                    }
                    return (Some(lowest), next);
                },
                None => {
                    let mask = F::Storage::bit(next);
                    proof {
                        F::Storage::lemma_operations(mask, mask);
                    }
                    let kept = !mask;
                    proof {
                        F::Storage::lemma_operations(candidates, kept);
                    }
                    let fewer = candidates & kept;
                    proof {
                        F::Storage::lemma_indices(fewer, mask);
                        F::Storage::lemma_bit(next);
                        assert(fewer.indices() =~= candidates.indices().remove(next as nat));
                    }
                    candidates = fewer;
                },
            }
        }
        proof {
            F::Storage::lemma_indices(candidates, F::Storage::ZERO);
            assert(self.mapped_positions() =~= Set::<nat>::empty());
        }
        let position = self.0.trailing_zeros();
        proof {
            if !self@.is_empty() {
                lemma_least(self@, position as nat);
            }
        }
        (None, position)
    }

    /// Takes a flag out of the set and returns it: the flag of the set with
    /// the lowest position. Of a set without flags it returns `None` and
    /// takes out the lowest one, if there is a one.
    pub fn pop(&mut self) -> (flag: Option<F>)
        ensures
            flag == old(self).lowest_member(),
            final(self)@ == old(self)@.remove(old(self).popped_position()),
    {
        let (flag, position) = self.lowest();
        self.remove_position(position);
        proof {
            assert(self@ =~= old(self)@.remove(old(self).popped_position()));
        }
        flag
    }

    /// One step of the iteration over the set: the same as `pop`.
    pub fn next(&mut self) -> (flag: Option<F>)
        ensures
            flag == old(self).lowest_member(),
            final(self)@ == old(self)@.remove(old(self).popped_position()),
    {
        self.pop()
    }

    /// The iteration over the set to its end: the flags that `pop` yields
    /// one after the other until it yields none. These are the flags of the
    /// set, each of them once, in the order of their positions, lowest
    /// first.
    pub fn collect(self) -> (flags: Vec<F>)
        ensures
            self.lists(flags@),
    {
        let mut rest = self;
        let mut flags: Vec<F> = Vec::new();
        proof {
            lemma_ordinals_of_push(flags@, arbitrary());
            self.lemma_view();
            assert(rest.mapped_positions() =~= self.mapped_positions().difference(
                ordinals_of(flags@),
            ));
        }
        loop
            invariant_except_break
                rest@.finite(),
                ordinals_of(flags@).subset_of(self.mapped_positions()),
                rest.mapped_positions() == self.mapped_positions().difference(
                    ordinals_of(flags@),
                ),
                is_ascending(flags@),
                forall|taken: nat, kept: nat|
                    ordinals_of(flags@).contains(taken) && rest.mapped_positions().contains(kept)
                        ==> taken < kept,
            ensures
                self.lists(flags@),
            decreases rest@.len(),
        {
            let ghost before = rest;
            proof {
                before.lemma_lowest_member();
            }
            let popped = rest.pop();
            match popped {
                Some(flag) => {
                    proof {
                        let position = flag.ordinal() as nat;
                        lemma_flag_at_ordinal(flag);
                        assert(before.mapped_positions().contains(position));
                        lemma_ordinals_of_push(flags@, flag);
                        assert(rest.mapped_positions() =~= before.mapped_positions().remove(
                            position,
                        ));
                        assert(rest.mapped_positions() =~= self.mapped_positions().difference(
                            ordinals_of(flags@.push(flag)),
                        ));
                        assert forall|kept: nat|
                            rest.mapped_positions().contains(kept) implies position < kept by {
                            let other = flag_at::<F>(kept).unwrap();
                            assert(before.contains(other));
                        }
                        assert forall|i: int, j: int|
                            0 <= i < j < flags@.push(flag).len() implies (#[trigger] flags@.push(
                            flag,
                        )[i]).ordinal() < (#[trigger] flags@.push(flag)[j]).ordinal() by {
                            if j == flags@.len() {
                                assert(ordinals_of(flags@).contains(flags@[i].ordinal() as nat));
                            }
                        }
                    }
                    flags.push(flag);
                },
                None => {
                    proof {
                        assert forall|index: nat|
                            self.mapped_positions().contains(index) implies ordinals_of(
                            flags@,
                        ).contains(index) by {
                            if !ordinals_of(flags@).contains(index) {
                                assert(before.mapped_positions().contains(index));
                                let other = flag_at::<F>(index).unwrap();
                                assert(before.contains(other));
                            }
                        }
                        assert(self.mapped_positions() =~= ordinals_of(flags@));
                    }
                    break ;
                },
            }
        }
        flags
    }

    /// Puts every flag of `flags` into the set.
    pub fn extend(&mut self, flags: &[F])
        ensures
            final(self)@ == old(self)@.union(ordinals_of(flags@)),
    {
        let count = flags.len();
        let mut i: usize = 0;
        proof {
            lemma_ordinals_of_push(flags@.take(0), arbitrary());
            assert(flags@.take(0) =~= Seq::<F>::empty());
            assert(self@ =~= old(self)@.union(ordinals_of(flags@.take(0))));
        }
        while i < count
            invariant
                count == flags@.len(),
                i <= count,
                self@ == old(self)@.union(ordinals_of(flags@.take(i as int))),
            decreases count - i,
        {
            let flag = flags[i];
            proof {
                lemma_ordinals_of_push(flags@.take(i as int), flag);
                assert(flags@.take(i + 1) =~= flags@.take(i as int).push(flag));
            }
            self.set(flag);
            proof {
                assert(self@ =~= old(self)@.union(ordinals_of(flags@.take(i + 1))));
            }
            i += 1;
        }
        proof {
            assert(flags@.take(count as int) =~= flags@);
        }
    }

    /// The set of the flags of `flags`. A flag that occurs more than once is
    /// in the set once.
    pub fn from_iter(flags: &[F]) -> (set: Self)
        ensures
            set@ == ordinals_of(flags@),
            set.all_mapped(),
    {
        let mut set = BitSet::new();
        set.extend(flags);
        proof {
            assert(set@ =~= ordinals_of(flags@));
            assert forall|index: nat| set@.contains(index) implies is_mapped::<F>(index) by {
                let k = choose|k: int|
                    0 <= k < flags@.len() && (#[trigger] flags@[k]).ordinal() == index;
                lemma_flag_at_ordinal(flags@[k]);
            }
        }
        set
    }

    /// The one flag of the set.
    ///
    /// The set has no flag to give where it is empty, where it holds more
    /// than one one, and where its only one is at a position that no flag
    /// has.
    #[verifier::when_used_as_spec(spec_get_single)]
    pub fn get_single(self) -> (outcome: Result<F, GetSingleError>)
        ensures
            outcome == self.spec_get_single(),
    {
        if self.is_empty() {
            return Err(GetSingleError::Empty);
        }
        let mut rest = self;
        let popped = rest.pop();
        proof {
            self.lemma_view();
            self.lemma_lowest_member();
            rest.lemma_view();
            if rest@.is_empty() {
                let position = self.popped_position();
                assert(self@ =~= set![position]);
                lemma_least(self@, position);
                if popped is Some {
                    lemma_flag_at_ordinal(popped.unwrap());
                } else if is_mapped::<F>(position) {
                    assert(self.mapped_positions().contains(position));
                }
            }
        }
        if rest.is_empty() {
            match popped {
                Some(flag) => Ok(flag),
                None => Err(GetSingleError::Invalid),
            }
        } else {
            Err(GetSingleError::TooMany)
        }
    }
}

} // verus!
