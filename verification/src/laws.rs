//! What holds of the masks of the flags and of the algebra of the sets.

use crate::bit_model::lemma_least;
use crate::bits::Bits;
use crate::flag::{
    flag_at, is_ascending, is_mapped, lemma_flag_at_ordinal, mask_of, ordinals_of, BitFlag,
};
use crate::set::{BitSet, GetSingleError};
use vstd::prelude::*;
use vstd::std_specs::ops::BitAndSpec;

verus! {

/// The masks of two different flags have no one in common.
pub proof fn lemma_masks_disjoint<F: BitFlag>(a: F, b: F)
    requires
        a != b,
    ensures
        mask_of(a).bitand_spec(mask_of(b)) == F::Storage::ZERO,
{
    F::lemma_ordinal(a, b);
    F::lemma_ordinal(b, a);
    F::Storage::lemma_bit(a.ordinal());
    F::Storage::lemma_bit(b.ordinal());
    F::Storage::lemma_operations(mask_of(a), mask_of(b));
    let common = mask_of(a).bitand_spec(mask_of(b));
    assert(common.indices() =~= Set::<nat>::empty());
    F::Storage::lemma_indices(common, F::Storage::ZERO);
}

/// The mask of a flag has exactly one one, at the position of the flag.
pub proof fn lemma_mask_is_single_bit<F: BitFlag>(flag: F)
    ensures
        mask_of(flag).indices() == set![flag.ordinal() as nat],
        mask_of(flag).indices().len() == 1,
        flag.ordinal() < F::Storage::COUNT,
{
    F::lemma_ordinal(flag, flag);
    F::Storage::lemma_bit(flag.ordinal());
}

/// The reverse lookup undoes the position of a flag: at the position of a
/// flag stands that flag, and at a position that no flag has stands none, as
/// at every position that is not below the number of bits of the storage.
pub proof fn lemma_from_index_inverts_ordinal<F: BitFlag>(flag: F, index: nat)
    ensures
        flag_at::<F>(flag.ordinal() as nat) == Some(flag),
        (forall|other: F| other.ordinal() != index) ==> flag_at::<F>(index) == None::<F>,
        flag_at::<F>(index) matches Some(found) ==> found.ordinal() == index,
        index >= F::Storage::COUNT ==> flag_at::<F>(index) == None::<F>,
{
    lemma_flag_at_ordinal(flag);
    if is_mapped::<F>(index) {
        let found = flag_at::<F>(index).unwrap();
        F::lemma_ordinal(found, found);
    }
    if forall|other: F| other.ordinal() != index {
        if is_mapped::<F>(index) {
            let found = flag_at::<F>(index).unwrap();
            assert(found.ordinal() != index);
        }
    }
}

/// Union does not depend on the order of its operands.
pub proof fn lemma_union_commutative<F: BitFlag>(a: BitSet<F>, b: BitSet<F>)
    ensures
        a.union(b) == b.union(a),
{
    BitSet::lemma_operations(a, b);
    BitSet::lemma_operations(b, a);
    assert(a.union(b)@ =~= b.union(a)@);
    BitSet::lemma_view_injective(a.union(b), b.union(a));
}

/// Union does not depend on the grouping of its operands.
pub proof fn lemma_union_associative<F: BitFlag>(a: BitSet<F>, b: BitSet<F>, c: BitSet<F>)
    ensures
        a.union(b).union(c) == a.union(b.union(c)),
{
    BitSet::lemma_operations(a, b);
    BitSet::lemma_operations(a.union(b), c);
    BitSet::lemma_operations(b, c);
    BitSet::lemma_operations(a, b.union(c));
    assert(a.union(b).union(c)@ =~= a.union(b.union(c))@);
    BitSet::lemma_view_injective(a.union(b).union(c), a.union(b.union(c)));
}

/// Intersection does not depend on the order of its operands.
pub proof fn lemma_intersect_commutative<F: BitFlag>(a: BitSet<F>, b: BitSet<F>)
    ensures
        a.intersect(b) == b.intersect(a),
{
    BitSet::lemma_operations(a, b);
    BitSet::lemma_operations(b, a);
    assert(a.intersect(b)@ =~= b.intersect(a)@);
    BitSet::lemma_view_injective(a.intersect(b), b.intersect(a));
}

/// Intersection does not depend on the grouping of its operands.
pub proof fn lemma_intersect_associative<F: BitFlag>(a: BitSet<F>, b: BitSet<F>, c: BitSet<F>)
    ensures
        a.intersect(b).intersect(c) == a.intersect(b.intersect(c)),
{
    BitSet::lemma_operations(a, b);
    BitSet::lemma_operations(a.intersect(b), c);
    BitSet::lemma_operations(b, c);
    BitSet::lemma_operations(a, b.intersect(c));
    assert(a.intersect(b).intersect(c)@ =~= a.intersect(b.intersect(c))@);
    BitSet::lemma_view_injective(a.intersect(b).intersect(c), a.intersect(b.intersect(c)));
}

/// A set without itself is the empty set, and so is what two copies of a set
/// do not share.
pub proof fn lemma_difference_with_self<F: BitFlag>(s: BitSet<F>)
    ensures
        s.difference(s) == BitSet::<F>::new(),
        s.xor(s) == BitSet::<F>::new(),
{
    BitSet::lemma_operations(s, s);
    BitSet::<F>::lemma_constructors(arbitrary());
    assert(s.difference(s)@ =~= BitSet::<F>::new()@);
    assert(s.xor(s)@ =~= BitSet::<F>::new()@);
    BitSet::lemma_view_injective(s.difference(s), BitSet::<F>::new());
    BitSet::lemma_view_injective(s.xor(s), BitSet::<F>::new());
}

/// The complement of the complement of a set is the set, bit for bit.
pub proof fn lemma_complement_twice<F: BitFlag>(s: BitSet<F>)
    ensures
        s.complement().complement() == s,
{
    s.lemma_view();
    BitSet::lemma_operations(s, s);
    BitSet::lemma_operations(s.complement(), s);
    assert(s.complement().complement()@ =~= s@);
    BitSet::lemma_view_injective(s.complement().complement(), s);
}

/// The union of a set with itself, and of the set of a flag with that of the
/// same flag, is the set.
pub proof fn lemma_union_with_self<F: BitFlag>(s: BitSet<F>)
    ensures
        s.union(s) == s,
{
    BitSet::lemma_operations(s, s);
    assert(s.union(s)@ =~= s@);
    BitSet::lemma_view_injective(s.union(s), s);
}

/// `a & b == a` holds exactly where every one of `a` is a one of `b`.
pub proof fn lemma_subset_by_positions<F: BitFlag>(a: BitSet<F>, b: BitSet<F>)
    ensures
        (a.intersect(b) == a) == a@.subset_of(b@),
        a.is_subset(b) == a@.subset_of(b@),
{
    BitSet::lemma_operations(a, b);
}

/// For a set with a flag at each of its ones, `a & b == a` holds exactly
/// where every flag of `a` is a flag of `b`.
pub proof fn lemma_subset_by_members<F: BitFlag>(a: BitSet<F>, b: BitSet<F>)
    requires
        a.all_mapped(),
    ensures
        (a.intersect(b) == a) == (forall|flag: F| a.contains(flag) ==> b.contains(flag)),
        a.is_subset(b) == a.members().subset_of(b.members()),
{
    BitSet::lemma_operations(a, b);
    if forall|flag: F| a.contains(flag) ==> b.contains(flag) {
        assert forall|index: nat| a@.contains(index) implies b@.contains(index) by {
            let flag = flag_at::<F>(index).unwrap();
            assert(a.contains(flag));
            assert(b.contains(flag));
        }
    }
    if a.members().subset_of(b.members()) {
        assert forall|flag: F| a.contains(flag) implies b.contains(flag) by {
            assert(a.members().contains(flag));
            assert(b.members().contains(flag));
        }
    }
}

/// The set of one flag gives that flag back, the empty set gives none, and
/// the set of two different flags holds too many.
pub proof fn lemma_get_single_round_trip<F: BitFlag>(a: F, b: F)
    ensures
        BitSet::single(a).get_single() == Ok::<F, GetSingleError>(a),
        BitSet::<F>::new().get_single() == Err::<F, GetSingleError>(GetSingleError::Empty),
        a != b ==> BitSet::single(a).union(BitSet::single(b)).get_single() == Err::<
            F,
            GetSingleError,
        >(GetSingleError::TooMany),
{
    BitSet::<F>::lemma_constructors(a);
    BitSet::<F>::lemma_constructors(b);
    let one = BitSet::single(a);
    let position = a.ordinal() as nat;
    assert(one@.contains(position));
    lemma_least(one@, position);
    lemma_flag_at_ordinal(a);
    assert(one@.len() == 1);
    if a != b {
        F::lemma_ordinal(a, b);
        let two = BitSet::single(a).union(BitSet::single(b));
        BitSet::lemma_operations(BitSet::single(a), BitSet::single(b));
        assert(two@ =~= set![position].insert(b.ordinal() as nat));
        assert(two@.contains(position));
        assert(two@.len() == 2);
    }
}

/// The iteration over a set yields exactly the flags of the set, each of
/// them once, in the order of their positions; a one at a position that no
/// flag has does not end it.
pub proof fn lemma_iteration_yields_members<F: BitFlag>(set: BitSet<F>, listed: Seq<F>)
    requires
        set.lists(listed),
    ensures
        is_ascending(listed),
        listed.no_duplicates(),
        listed.to_set() == set.members(),
        listed.len() == set.mapped_positions().len(),
{
    assert forall|i: int, j: int| 0 <= i < listed.len() && 0 <= j < listed.len() && i
        != j implies listed[i] != listed[j] by {
        if i < j {
            assert(listed[i].ordinal() < listed[j].ordinal());
        } else {
            assert(listed[j].ordinal() < listed[i].ordinal());
        }
    }
    assert forall|flag: F| listed.to_set().contains(flag) <==> set.members().contains(flag) by {
        if listed.to_set().contains(flag) {
            let i = choose|i: int| 0 <= i < listed.len() && listed[i] == flag;
            assert(ordinals_of(listed).contains(listed[i].ordinal() as nat));
        }
        if set.members().contains(flag) {
            lemma_flag_at_ordinal(flag);
            assert(set.mapped_positions().contains(flag.ordinal() as nat));
            let i = choose|i: int|
                0 <= i < listed.len() && (#[trigger] listed[i]).ordinal() == flag.ordinal() as nat;
            F::lemma_ordinal(listed[i], flag);
        }
    }
    assert(listed.to_set() =~= set.members());
    lemma_listed_len(listed);
}

/// What `pop` returns is the flag of the set with the lowest position: it is
/// a flag exactly where the set holds a flag, and a one at a lower position
/// that no flag has does not hide it.
pub proof fn lemma_pop_yields_lowest_member<F: BitFlag>(set: BitSet<F>, held: F)
    requires
        set.contains(held),
    ensures
        set.lowest_member() matches Some(flag) && set.contains(flag) && flag.ordinal()
            <= held.ordinal(),
        set@.contains(set.popped_position()),
        set@.remove(set.popped_position()).len() == set@.len() - 1,
{
    set.lemma_lowest_member();
    set.lemma_view();
}

/// The iteration over a set that was built from a sequence of flags yields
/// exactly the flags of the sequence, each of them once, in the order of
/// their positions.
pub proof fn lemma_iteration_exhaustive<F: BitFlag>(
    flags: Seq<F>,
    set: BitSet<F>,
    listed: Seq<F>,
)
    requires
        set@ == ordinals_of(flags),
        set.lists(listed),
    ensures
        is_ascending(listed),
        listed.no_duplicates(),
        listed.to_set() == flags.to_set(),
        listed.to_set() == set.members(),
        listed.len() == set@.len(),
{
    lemma_iteration_yields_members(set, listed);
    assert forall|index: nat| set@.contains(index) implies is_mapped::<F>(index) by {
        let k = choose|k: int| 0 <= k < flags.len() && (#[trigger] flags[k]).ordinal() == index;
        lemma_flag_at_ordinal(flags[k]);
    }
    assert(set.mapped_positions() =~= set@);
    assert forall|flag: F| set.members().contains(flag) <==> flags.to_set().contains(flag) by {
        if set.members().contains(flag) {
            let k = choose|k: int|
                0 <= k < flags.len() && (#[trigger] flags[k]).ordinal() == flag.ordinal() as nat;
            F::lemma_ordinal(flags[k], flag);
        }
        if flags.to_set().contains(flag) {
            let k = choose|k: int| 0 <= k < flags.len() && flags[k] == flag;
            assert(ordinals_of(flags).contains(flags[k].ordinal() as nat));
        }
    }
    assert(set.members() =~= flags.to_set());
}

/// A sequence of flags at rising positions has as many positions as flags.
proof fn lemma_listed_len<F: BitFlag>(listed: Seq<F>)
    requires
        is_ascending(listed),
    ensures
        ordinals_of(listed).finite(),
        ordinals_of(listed).len() == listed.len(),
    decreases listed.len(),
{
    if listed.len() == 0 {
        assert(ordinals_of(listed) =~= Set::<nat>::empty());
    } else {
        let shorter = listed.drop_last();
        let last = listed.last();
        lemma_listed_len(shorter);
        crate::flag::lemma_ordinals_of_push(shorter, last);
        assert(shorter.push(last) =~= listed);
        if ordinals_of(shorter).contains(last.ordinal() as nat) {
            let k = choose|k: int|
                0 <= k < shorter.len() && (#[trigger] shorter[k]).ordinal() == last.ordinal();
            assert(listed[k].ordinal() < listed[listed.len() - 1].ordinal());
        }
    }
}

} // verus!
