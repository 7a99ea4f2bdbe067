//! The bits of an unsigned integer as a set of positions.
//!
//! Every storage width is read through its value as a `u128`. The facts about
//! bitwise operations are proved once, here, over that widest type.

use vstd::prelude::*;
use vstd::set_lib::*;
use vstd::std_specs::bits::{axiom_u64_trailing_zeros, u64_trailing_zeros};

verus! {

/// Whether the bit at position `index` of `value` is one.
pub open spec fn bit_is_set(value: u128, index: nat) -> bool {
    index < 128 && (value >> (index as u128)) & 1 == 1
}

/// The positions at which `value` holds a one.
pub open spec fn bit_indices(value: u128) -> Set<nat> {
    Set::new(|index: nat| bit_is_set(value, index))
}

/// The positions below `count`.
pub open spec fn below(count: nat) -> Set<nat> {
    Set::new(|index: nat| index < count)
}

/// The members of either set that are not members of both.
pub open spec fn symmetric_difference(a: Set<nat>, b: Set<nat>) -> Set<nat> {
    a.union(b).difference(a.intersect(b))
}

/// Whether `index` is the least member of `positions`.
pub open spec fn is_least(positions: Set<nat>, index: nat) -> bool {
    &&& positions.contains(index)
    &&& forall|other: nat| positions.contains(other) ==> index <= other
}

/// The least member of `positions`, where there is one.
pub open spec fn least(positions: Set<nat>) -> nat {
    choose|index: nat| is_least(positions, index)
}

/// The value with ones at the positions below `width`, for the five storage
/// widths.
pub open spec fn low_mask(width: nat) -> u128 {
    if width == 8 {
        0xff
    } else if width == 16 {
        0xffff
    } else if width == 32 {
        0xffff_ffff
    } else if width == 64 {
        0xffff_ffff_ffff_ffff
    } else {
        0xffff_ffff_ffff_ffff_ffff_ffff_ffff_ffff
    }
}

/// Whether `width` is one of the five storage widths.
pub open spec fn is_storage_width(width: nat) -> bool {
    width == 8 || width == 16 || width == 32 || width == 64 || width == 128
}

proof fn lemma_bit_of_operations(a: u128, b: u128, k: u128)
    by (bit_vector)
    requires
        k < 128,
    ensures
        ((a & b) >> k) & 1 == 1 <==> (a >> k) & 1 == 1 && (b >> k) & 1 == 1,
        ((a | b) >> k) & 1 == 1 <==> (a >> k) & 1 == 1 || (b >> k) & 1 == 1,
        ((a ^ b) >> k) & 1 == 1 <==> ((a >> k) & 1 == 1) != ((b >> k) & 1 == 1),
        ((!a) >> k) & 1 == 1 <==> (a >> k) & 1 != 1,
        (0u128 >> k) & 1 != 1,
{
}

proof fn lemma_bit_of_low_masks(a: u128, k: u128)
    by (bit_vector)
    requires
        k < 128,
    ensures
        ((a & 0xff) >> k) & 1 == 1 <==> k < 8 && (a >> k) & 1 == 1,
        ((a & 0xffff) >> k) & 1 == 1 <==> k < 16 && (a >> k) & 1 == 1,
        ((a & 0xffff_ffff) >> k) & 1 == 1 <==> k < 32 && (a >> k) & 1 == 1,
        ((a & 0xffff_ffff_ffff_ffff) >> k) & 1 == 1 <==> k < 64 && (a >> k) & 1 == 1,
        a & 0xffff_ffff_ffff_ffff_ffff_ffff_ffff_ffff == a,
{
}

proof fn lemma_bit_of_shifted_one(k: u128, j: u128)
    by (bit_vector)
    requires
        k < 128,
        j < 128,
    ensures
        ((1u128 << k) >> j) & 1 == 1 <==> j == k,
{
}

proof fn lemma_bit_of_halves(value: u128, k: u64)
    by (bit_vector)
    requires
        k < 64,
    ensures
        (((value & 0xffff_ffff_ffff_ffff) as u64) >> k) & 1 == 1 <==> (value >> (k as u128)) & 1
            == 1,
        (((value >> 64) as u64) >> k) & 1 == 1 <==> (value >> ((k + 64) as u128)) & 1 == 1,
        value == 0 <==> (value & 0xffff_ffff_ffff_ffff) as u64 == 0 && (value >> 64) as u64 == 0,
{
}

/// The positions below `count` are `count` in number.
pub proof fn lemma_below(count: nat)
    ensures
        below(count).finite(),
        below(count).len() == count,
    decreases count,
{
    if count == 0 {
        assert(below(0) =~= Set::<nat>::empty());
    } else {
        let shorter = (count - 1) as nat;
        lemma_below(shorter);
        assert(below(count) =~= below(shorter).insert(shorter));
    }
}

/// A set with a member has a least member, and `least` names it.
pub proof fn lemma_least_exists(positions: Set<nat>, member: nat)
    requires
        positions.contains(member),
    ensures
        is_least(positions, least(positions)),
    decreases member,
{
    if !is_least(positions, member) {
        let smaller = choose|other: nat| positions.contains(other) && other < member;
        lemma_least_exists(positions, smaller);
    }
}

/// If `index` is a least member of `positions`, it is the one `least` names.
pub proof fn lemma_least(positions: Set<nat>, index: nat)
    requires
        is_least(positions, index),
    ensures
        least(positions) == index,
{
    let chosen = least(positions);
    assert(is_least(positions, chosen));
}

/// The positions of the ones of a value are finitely many, all below 128.
pub proof fn lemma_indices_finite(value: u128)
    ensures
        bit_indices(value).finite(),
        bit_indices(value).subset_of(below(128)),
        bit_indices(value).len() <= 128,
{
    lemma_below(128);
    assert(bit_indices(value).subset_of(below(128)));
    lemma_len_subset(bit_indices(value), below(128));
}

/// A value that fits in `width` bits has no ones at or above `width`.
pub proof fn lemma_indices_bounded(value: u128, width: nat)
    requires
        is_storage_width(width),
        value <= low_mask(width),
    ensures
        bit_indices(value).subset_of(below(width)),
{
    assert forall|index: nat| bit_indices(value).contains(index) implies index < width by {
        let k = index as u128;
        lemma_bit_of_low_masks(value, k);
        lemma_masked_is_same(value);
    }
}

proof fn lemma_masked_is_same(value: u128)
    by (bit_vector)
    ensures
        value <= 0xff ==> value & 0xff == value,
        value <= 0xffff ==> value & 0xffff == value,
        value <= 0xffff_ffff ==> value & 0xffff_ffff == value,
        value <= 0xffff_ffff_ffff_ffff ==> value & 0xffff_ffff_ffff_ffff == value,
{
}

/// The ones of `a & b`, `a | b` and `a ^ b`, and of zero.
pub proof fn lemma_indices_of_operations(a: u128, b: u128)
    ensures
        bit_indices(a & b) == bit_indices(a).intersect(bit_indices(b)),
        bit_indices(a | b) == bit_indices(a).union(bit_indices(b)),
        bit_indices(a ^ b) == symmetric_difference(bit_indices(a), bit_indices(b)),
        bit_indices(0) == Set::<nat>::empty(),
{
    assert forall|index: nat|
        #![trigger bit_is_set(a, index)]
        #![trigger bit_is_set(b, index)]
        index < 128 implies {
        &&& bit_is_set(a & b, index) == (bit_is_set(a, index) && bit_is_set(b, index))
        &&& bit_is_set(a | b, index) == (bit_is_set(a, index) || bit_is_set(b, index))
        &&& bit_is_set(a ^ b, index) == (bit_is_set(a, index) != bit_is_set(b, index))
    } by {
        lemma_bit_of_operations(a, b, index as u128);
    }
    assert forall|index: nat| !bit_is_set(0, index) by {
        if index < 128 {
            lemma_bit_of_operations(a, b, index as u128);
        }
    }
    assert(bit_indices(a & b) =~= bit_indices(a).intersect(bit_indices(b)));
    assert(bit_indices(a | b) =~= bit_indices(a).union(bit_indices(b)));
    assert(bit_indices(a ^ b) =~= symmetric_difference(bit_indices(a), bit_indices(b)));
    assert(bit_indices(0) =~= Set::<nat>::empty());
}

/// The ones of the complement of `value` within `width` bits.
pub proof fn lemma_indices_of_complement(value: u128, width: nat)
    requires
        is_storage_width(width),
    ensures
        bit_indices(!value & low_mask(width)) == below(width).difference(bit_indices(value)),
        width == 128 ==> !value & low_mask(width) == !value,
{
    let flipped = !value & low_mask(width);
    lemma_bit_of_low_masks(!value, 0);
    assert forall|index: nat| index < 128 implies (bit_is_set(flipped, index) <==> index < width
        && !bit_is_set(value, index)) by {
        let k = index as u128;
        lemma_bit_of_low_masks(!value, k);
        lemma_bit_of_operations(value, value, k);
    }
    assert(bit_indices(flipped) =~= below(width).difference(bit_indices(value)));
}

/// A one shifted left by `index` has its only one at `index`.
pub proof fn lemma_indices_of_shifted_one(index: nat)
    requires
        index < 128,
    ensures
        bit_indices(1u128 << (index as u128)) == set![index],
{
    let k = index as u128;
    assert forall|other: nat| other < 128 implies (bit_is_set(1u128 << k, other) <==> other
        == index) by {
        lemma_bit_of_shifted_one(k, other as u128);
    }
    assert(bit_indices(1u128 << k) =~= set![index]);
}

/// The position of the lowest one of `value`, and 128 for zero.
pub open spec fn lowest_one(value: u128) -> nat {
    let low = (value & 0xffff_ffff_ffff_ffff) as u64;
    let high = (value >> 64) as u64;
    if low != 0 {
        u64_trailing_zeros(low) as nat
    } else {
        (64 + u64_trailing_zeros(high)) as nat
    }
}

/// `lowest_one` names the least position of a one, and 128 exactly for zero.
pub proof fn lemma_lowest_one(value: u128)
    ensures
        lowest_one(value) <= 128,
        value == 0 <==> lowest_one(value) == 128,
        value == 0 <==> bit_indices(value) == Set::<nat>::empty(),
        value != 0 ==> is_least(bit_indices(value), lowest_one(value)),
{
    let low = (value & 0xffff_ffff_ffff_ffff) as u64;
    let high = (value >> 64) as u64;
    axiom_u64_trailing_zeros(low);
    axiom_u64_trailing_zeros(high);
    lemma_bit_of_halves(value, 0);
    let found = lowest_one(value);
    if value != 0 {
        if low != 0 {
            let k = u64_trailing_zeros(low) as u64;
            lemma_bit_of_halves(value, k);
            assert(bit_is_set(value, found));
            assert forall|other: nat| bit_indices(value).contains(other) implies found
                <= other by {
                if other < found {
                    let j = other as u64;
                    lemma_bit_of_halves(value, j);
                    assert((low >> j) & 1u64 == 0u64);
                    lemma_bit_is_zero_or_one(low, j);
                }
            }
        } else {
            let k = u64_trailing_zeros(high) as u64;
            lemma_bit_of_halves(value, k);
            assert(bit_is_set(value, found));
            assert forall|other: nat| bit_indices(value).contains(other) implies found
                <= other by {
                if other < 64 {
                    let j = other as u64;
                    lemma_bit_of_halves(value, j);
                    lemma_zero_has_no_bit(j);
                } else if other < found {
                    let j = (other - 64) as u64;
                    lemma_bit_of_halves(value, j);
                    assert((high >> j) & 1u64 == 0u64);
                    lemma_bit_is_zero_or_one(high, j);
                }
            }
        }
        assert(bit_indices(value).contains(found));
    } else {
        lemma_indices_of_operations(value, value);
    }
}

proof fn lemma_bit_is_zero_or_one(value: u64, k: u64)
    by (bit_vector)
    ensures
        (value >> k) & 1 == 0 || (value >> k) & 1 == 1,
{
}

proof fn lemma_zero_has_no_bit(k: u64)
    by (bit_vector)
    ensures
        (0u64 >> k) & 1 == 0,
{
}

/// Two values with ones at the same positions are the same value.
pub proof fn lemma_indices_injective(a: u128, b: u128)
    requires
        bit_indices(a) == bit_indices(b),
    ensures
        a == b,
{
    let differing = a ^ b;
    lemma_xor_zero(a, b);
    if differing != 0 {
        lemma_lowest_one(differing);
        let found = lowest_one(differing);
        lemma_indices_of_operations(a, b);
        assert(bit_indices(differing).contains(found));
        assert(bit_indices(a).contains(found) != bit_indices(b).contains(found));
    }
}

proof fn lemma_xor_zero(a: u128, b: u128)
    by (bit_vector)
    ensures
        a ^ b == 0 <==> a == b,
{
}

} // verus!
