//! The storage of a set of flags: a fixed-width unsigned integer, read as
//! the set of the positions of its ones.

use crate::bit_model::{
    below, bit_indices, is_least, lemma_indices_bounded, lemma_indices_finite,
    lemma_indices_injective, lemma_indices_of_complement, lemma_indices_of_operations,
    lemma_indices_of_shifted_one, lemma_lowest_one, symmetric_difference,
};
use core::ops::{BitAnd, BitOr, BitXor, Not};
use vstd::prelude::*;
use vstd::std_specs::bits::*;
use vstd::std_specs::cmp::PartialEqSpec;
use vstd::std_specs::ops::{BitAndSpec, BitOrSpec, BitXorSpec, NotSpec};

verus! {

/// A fixed-width unsigned integer that can hold a bitmask.
///
/// A value stands for the set of the positions of its ones, `indices`. The
/// three `lemma_` members state what an implementation owes: that this set
/// tells the values apart, that it lies below `COUNT`, and that the bitwise
/// operators of the type act on it as intersection, union, symmetric
/// difference and complement.
pub trait Bits: Sized + Clone + Copy + PartialEq + Eq + BitOr<Output = Self> + BitAnd<
    Output = Self,
> + BitXor<Output = Self> + Not<Output = Self> {
    /// The value without any one.
    const ZERO: Self;

    /// The number of bits of the type.
    const COUNT: usize;

    /// The positions at which the value holds a one.
    spec fn indices(self) -> Set<nat>;

    /// The value that `bit` returns for `index`.
    spec fn bit_spec(index: usize) -> Self;

    /// The set of positions is finite, lies below `COUNT` and determines the
    /// value; `ZERO` has the empty set; `==` compares the values.
    proof fn lemma_indices(a: Self, b: Self)
        ensures
            a.indices().finite(),
            a.indices().subset_of(below(Self::COUNT as nat)),
            a.indices() == b.indices() ==> a == b,
            Self::ZERO.indices() == Set::<nat>::empty(),
            Self::obeys_eq_spec(),
            a.eq_spec(&b) == (a == b),
    ;

    /// `&`, `|`, `^` and `!` are defined on all values and act on the sets
    /// of positions as intersection, union, symmetric difference and
    /// complement below `COUNT`.
    proof fn lemma_operations(a: Self, b: Self)
        ensures
            Self::obeys_bitand_spec(),
            a.bitand_req(b),
            a.bitand_spec(b).indices() == a.indices().intersect(b.indices()),
            Self::obeys_bitor_spec(),
            a.bitor_req(b),
            a.bitor_spec(b).indices() == a.indices().union(b.indices()),
            Self::obeys_bitxor_spec(),
            a.bitxor_req(b),
            a.bitxor_spec(b).indices() == symmetric_difference(a.indices(), b.indices()),
            Self::obeys_not_spec(),
            a.not_req(),
            a.not_spec().indices() == below(Self::COUNT as nat).difference(a.indices()),
    ;

    /// The mask of a position below `COUNT` has its only one there; that of
    /// any other position has none.
    proof fn lemma_bit(index: usize)
        ensures
            Self::bit_spec(index).indices() == if index < Self::COUNT {
                set![index as nat]
            } else {
                Set::<nat>::empty()
            },
    ;

    /// The value with a one at `index` and nowhere else, or `ZERO` where
    /// `index` is not below `COUNT`.
    fn bit(index: usize) -> (mask: Self)
        ensures
            mask == Self::bit_spec(index),
    ;

    /// The position of the lowest one, or `COUNT` for `ZERO`.
    fn trailing_zeros(self) -> (position: usize)
        ensures
            self.indices().is_empty() ==> position == Self::COUNT,
            !self.indices().is_empty() ==> is_least(self.indices(), position as nat),
    ;

    /// The number of ones.
    fn count_ones(self) -> (count: usize)
        ensures
            count == self.indices().len(),
    ;
}

/// Calls `u128::count_ones` of the standard library, which returns the
/// number of ones in the binary representation of the value: the number of
/// positions at which the value holds a one.
#[verifier::external_body]
fn count_ones_of(value: u128) -> (count: u32)
    ensures
        count == bit_indices(value).len(),
{
    value.count_ones()
}

proof fn lemma_widen_u8(a: u8, b: u8, k: u8)
    by (bit_vector)
    ensures
        (a & b) as u128 == (a as u128) & (b as u128),
        (a | b) as u128 == (a as u128) | (b as u128),
        (a ^ b) as u128 == (a as u128) ^ (b as u128),
        (!a) as u128 == !(a as u128) & 0xff,
        k < 8 ==> (1u8 << k) as u128 == 1u128 << (k as u128),
        k < 8 ==> ((a >> k) & 1 == 1 <==> ((a as u128) >> (k as u128)) & 1 == 1),
        k < 8 ==> ((a >> k) & 1 == 0 || (a >> k) & 1 == 1),
{
}

impl Bits for u8 {
    const ZERO: Self = 0;

    const COUNT: usize = 8;

    open spec fn indices(self) -> Set<nat> {
        bit_indices(self as u128)
    }

    open spec fn bit_spec(index: usize) -> Self {
        if index < 8 {
            1u8 << index
        } else {
            0
        }
    }

    proof fn lemma_indices(a: Self, b: Self) {
        lemma_indices_finite(a as u128);
        lemma_indices_bounded(a as u128, 8);
        lemma_indices_of_operations(a as u128, b as u128);
        if a.indices() == b.indices() {
            lemma_indices_injective(a as u128, b as u128);
        }
    }

    proof fn lemma_operations(a: Self, b: Self) {
        lemma_widen_u8(a, b, 0);
        lemma_indices_of_operations(a as u128, b as u128);
        lemma_indices_of_complement(a as u128, 8);
    }

    proof fn lemma_bit(index: usize) {
        if index < 8 {
            lemma_widen_u8(0, 0, index as u8);
            lemma_indices_of_shifted_one(index as nat);
        } else {
            lemma_indices_of_operations(0, 0);
        }
    }

    fn bit(index: usize) -> (mask: Self) {
        if index < 8 {
            1u8 << index
        } else {
            0
        }
    }

    fn trailing_zeros(self) -> (position: usize) {
        let found = self.trailing_zeros();
        proof {
            axiom_u8_trailing_zeros(self);
            lemma_lowest_one(self as u128);
            if self != 0 {
                lemma_widen_u8(self, self, found as u8);
                assert forall|other: nat| self.indices().contains(other) implies found
                    <= other by {
                    if other < found {
                        let j = other as u8;
                        lemma_widen_u8(self, self, j);
                        assert((self >> j) & 1u8 == 0u8);
                    }
                }
            }
        }
        found as usize
    }

    fn count_ones(self) -> (count: usize) {
        count_ones_of(self as u128) as usize
    }
}

proof fn lemma_widen_u16(a: u16, b: u16, k: u16)
    by (bit_vector)
    ensures
        (a & b) as u128 == (a as u128) & (b as u128),
        (a | b) as u128 == (a as u128) | (b as u128),
        (a ^ b) as u128 == (a as u128) ^ (b as u128),
        (!a) as u128 == !(a as u128) & 0xffff,
        k < 16 ==> (1u16 << k) as u128 == 1u128 << (k as u128),
        k < 16 ==> ((a >> k) & 1 == 1 <==> ((a as u128) >> (k as u128)) & 1 == 1),
        k < 16 ==> ((a >> k) & 1 == 0 || (a >> k) & 1 == 1),
{
}

impl Bits for u16 {
    const ZERO: Self = 0;

    const COUNT: usize = 16;

    open spec fn indices(self) -> Set<nat> {
        bit_indices(self as u128)
    }

    open spec fn bit_spec(index: usize) -> Self {
        if index < 16 {
            1u16 << index
        } else {
            0
        }
    }

    proof fn lemma_indices(a: Self, b: Self) {
        lemma_indices_finite(a as u128);
        lemma_indices_bounded(a as u128, 16);
        lemma_indices_of_operations(a as u128, b as u128);
        if a.indices() == b.indices() {
            lemma_indices_injective(a as u128, b as u128);
        }
    }

    proof fn lemma_operations(a: Self, b: Self) {
        lemma_widen_u16(a, b, 0);
        lemma_indices_of_operations(a as u128, b as u128);
        lemma_indices_of_complement(a as u128, 16);
    }

    proof fn lemma_bit(index: usize) {
        if index < 16 {
            lemma_widen_u16(0, 0, index as u16);
            lemma_indices_of_shifted_one(index as nat);
        } else {
            lemma_indices_of_operations(0, 0);
        }
    }

    fn bit(index: usize) -> (mask: Self) {
        if index < 16 {
            1u16 << index
        } else {
            0
        }
    }

    fn trailing_zeros(self) -> (position: usize) {
        let found = self.trailing_zeros();
        proof {
            axiom_u16_trailing_zeros(self);
            lemma_lowest_one(self as u128);
            if self != 0 {
                lemma_widen_u16(self, self, found as u16);
                assert forall|other: nat| self.indices().contains(other) implies found
                    <= other by {
                    if other < found {
                        let j = other as u16;
                        lemma_widen_u16(self, self, j);
                        assert((self >> j) & 1u16 == 0u16);
                    }
                }
            }
        }
        found as usize
    }

    fn count_ones(self) -> (count: usize) {
        count_ones_of(self as u128) as usize
    }
}

proof fn lemma_widen_u32(a: u32, b: u32, k: u32)
    by (bit_vector)
    ensures
        (a & b) as u128 == (a as u128) & (b as u128),
        (a | b) as u128 == (a as u128) | (b as u128),
        (a ^ b) as u128 == (a as u128) ^ (b as u128),
        (!a) as u128 == !(a as u128) & 0xffff_ffff,
        k < 32 ==> (1u32 << k) as u128 == 1u128 << (k as u128),
        k < 32 ==> ((a >> k) & 1 == 1 <==> ((a as u128) >> (k as u128)) & 1 == 1),
        k < 32 ==> ((a >> k) & 1 == 0 || (a >> k) & 1 == 1),
{
}

impl Bits for u32 {
    const ZERO: Self = 0;

    const COUNT: usize = 32;

    open spec fn indices(self) -> Set<nat> {
        bit_indices(self as u128)
    }

    open spec fn bit_spec(index: usize) -> Self {
        if index < 32 {
            1u32 << index
        } else {
            0
        }
    }

    proof fn lemma_indices(a: Self, b: Self) {
        lemma_indices_finite(a as u128);
        lemma_indices_bounded(a as u128, 32);
        lemma_indices_of_operations(a as u128, b as u128);
        if a.indices() == b.indices() {
            lemma_indices_injective(a as u128, b as u128);
        }
    }

    proof fn lemma_operations(a: Self, b: Self) {
        lemma_widen_u32(a, b, 0);
        lemma_indices_of_operations(a as u128, b as u128);
        lemma_indices_of_complement(a as u128, 32);
    }

    proof fn lemma_bit(index: usize) {
        if index < 32 {
            lemma_widen_u32(0, 0, index as u32);
            lemma_indices_of_shifted_one(index as nat);
        } else {
            lemma_indices_of_operations(0, 0);
        }
    }

    fn bit(index: usize) -> (mask: Self) {
        if index < 32 {
            1u32 << index
        } else {
            0
        }
    }

    fn trailing_zeros(self) -> (position: usize) {
        let found = self.trailing_zeros();
        proof {
            axiom_u32_trailing_zeros(self);
            lemma_lowest_one(self as u128);
            if self != 0 {
                lemma_widen_u32(self, self, found as u32);
                assert forall|other: nat| self.indices().contains(other) implies found
                    <= other by {
                    if other < found {
                        let j = other as u32;
                        lemma_widen_u32(self, self, j);
                        assert((self >> j) & 1u32 == 0u32);
                    }
                }
            }
        }
        found as usize
    }

    fn count_ones(self) -> (count: usize) {
        count_ones_of(self as u128) as usize
    }
}

proof fn lemma_widen_u64(a: u64, b: u64, k: u64)
    by (bit_vector)
    ensures
        (a & b) as u128 == (a as u128) & (b as u128),
        (a | b) as u128 == (a as u128) | (b as u128),
        (a ^ b) as u128 == (a as u128) ^ (b as u128),
        (!a) as u128 == !(a as u128) & 0xffff_ffff_ffff_ffff,
        k < 64 ==> (1u64 << k) as u128 == 1u128 << (k as u128),
        k < 64 ==> ((a >> k) & 1 == 1 <==> ((a as u128) >> (k as u128)) & 1 == 1),
        k < 64 ==> ((a >> k) & 1 == 0 || (a >> k) & 1 == 1),
{
}

impl Bits for u64 {
    const ZERO: Self = 0;

    const COUNT: usize = 64;

    open spec fn indices(self) -> Set<nat> {
        bit_indices(self as u128)
    }

    open spec fn bit_spec(index: usize) -> Self {
        if index < 64 {
            1u64 << index
        } else {
            0
        }
    }

    proof fn lemma_indices(a: Self, b: Self) {
        lemma_indices_finite(a as u128);
        lemma_indices_bounded(a as u128, 64);
        lemma_indices_of_operations(a as u128, b as u128);
        if a.indices() == b.indices() {
            lemma_indices_injective(a as u128, b as u128);
        }
    }

    proof fn lemma_operations(a: Self, b: Self) {
        lemma_widen_u64(a, b, 0);
        lemma_indices_of_operations(a as u128, b as u128);
        lemma_indices_of_complement(a as u128, 64);
    }

    proof fn lemma_bit(index: usize) {
        if index < 64 {
            lemma_widen_u64(0, 0, index as u64);
            lemma_indices_of_shifted_one(index as nat);
        } else {
            lemma_indices_of_operations(0, 0);
        }
    }

    fn bit(index: usize) -> (mask: Self) {
        if index < 64 {
            1u64 << index
        } else {
            0
        }
    }

    fn trailing_zeros(self) -> (position: usize) {
        let found = self.trailing_zeros();
        proof {
            axiom_u64_trailing_zeros(self);
            lemma_lowest_one(self as u128);
            if self != 0 {
                lemma_widen_u64(self, self, found as u64);
                assert forall|other: nat| self.indices().contains(other) implies found
                    <= other by {
                    if other < found {
                        let j = other as u64;
                        lemma_widen_u64(self, self, j);
                        assert((self >> j) & 1u64 == 0u64);
                    }
                }
            }
        }
        found as usize
    }

    fn count_ones(self) -> (count: usize) {
        count_ones_of(self as u128) as usize
    }
}

impl Bits for u128 {
    const ZERO: Self = 0;

    const COUNT: usize = 128;

    open spec fn indices(self) -> Set<nat> {
        bit_indices(self)
    }

    open spec fn bit_spec(index: usize) -> Self {
        if index < 128 {
            1u128 << index
        } else {
            0
        }
    }

    proof fn lemma_indices(a: Self, b: Self) {
        lemma_indices_finite(a);
        lemma_indices_of_operations(a, b);
        if a.indices() == b.indices() {
            lemma_indices_injective(a, b);
        }
    }

    proof fn lemma_operations(a: Self, b: Self) {
        lemma_indices_of_operations(a, b);
        lemma_indices_of_complement(a, 128);
    }

    proof fn lemma_bit(index: usize) {
        if index < 128 {
            lemma_indices_of_shifted_one(index as nat);
        } else {
            lemma_indices_of_operations(0, 0);
        }
    }

    fn bit(index: usize) -> (mask: Self) {
        if index < 128 {
            1u128 << index
        } else {
            0
        }
    }

    fn trailing_zeros(self) -> (position: usize) {
        let low = (self & 0xffff_ffff_ffff_ffff) as u64;
        let high = (self >> 64) as u64;
        proof {
            axiom_u64_trailing_zeros(high);
            lemma_lowest_one(self);
        }
        let found = if low != 0 {
            low.trailing_zeros()
        } else {
            64 + high.trailing_zeros()
        };
        found as usize
    }

    fn count_ones(self) -> (count: usize) {
        count_ones_of(self) as usize
    }
}

/// The widths and the zeros of the five storage types.
pub proof fn lemma_storage_constants()
    ensures
        <u8 as Bits>::COUNT == 8,
        <u16 as Bits>::COUNT == 16,
        <u32 as Bits>::COUNT == 32,
        <u64 as Bits>::COUNT == 64,
        <u128 as Bits>::COUNT == 128,
        <u8 as Bits>::ZERO == 0,
        <u16 as Bits>::ZERO == 0,
        <u32 as Bits>::ZERO == 0,
        <u64 as Bits>::ZERO == 0,
        <u128 as Bits>::ZERO == 0,
{
}

} // verus!
