//! The binding of an enumeration of flags to bit positions.

use crate::bits::Bits;
use vstd::prelude::*;

verus! {

/// A flag: a member of a closed enumeration that has a bit position of its
/// own in a storage type.
///
/// `ordinal` and `lemma_ordinal` are the model of the binding. They exist for
/// the verifier only and are never run: an implementation that is not
/// verified may give `ordinal` any body and `lemma_ordinal` an empty one.
/// What is proved of a set of flags holds of an implementation of which
/// `lemma_ordinal` and the contracts of `bits` and `from_index` are true.
pub trait BitFlag: Sized + Copy {
    /// The integer type that backs a set of these flags.
    type Storage: Bits;

    /// The bit position that stands for the flag.
    spec fn ordinal(self) -> usize;

    /// Every flag has a position below the number of bits of the storage,
    /// and no two flags share a position.
    proof fn lemma_ordinal(a: Self, b: Self)
        ensures
            a.ordinal() < Self::Storage::COUNT,
            a.ordinal() == b.ordinal() ==> a == b,
    ;

    /// The mask of the flag: the storage value with a one at the flag's
    /// position and nowhere else.
    fn bits(self) -> (mask: Self::Storage)
        ensures
            mask == Self::Storage::bit_spec(self.ordinal()),
    ;

    /// The flag at the position `index`, or `None` where no flag has that
    /// position.
    fn from_index(index: usize) -> (flag: Option<Self>)
        ensures
            match flag {
                Some(found) => found.ordinal() == index,
                None => forall|other: Self| other.ordinal() != index,
            },
    ;
}

/// The mask of a flag.
pub open spec fn mask_of<F: BitFlag>(flag: F) -> F::Storage {
    F::Storage::bit_spec(flag.ordinal())
}

/// Whether some flag has the position `index`.
pub open spec fn is_mapped<F: BitFlag>(index: nat) -> bool {
    exists|flag: F| flag.ordinal() == index
}

/// The flag at the position `index`, or `None` where no flag has that
/// position.
pub open spec fn flag_at<F: BitFlag>(index: nat) -> Option<F> {
    if is_mapped::<F>(index) {
        Some(choose|flag: F| flag.ordinal() == index)
    } else {
        None
    }
}

/// The positions of a sequence of flags.
pub open spec fn ordinals_of<F: BitFlag>(flags: Seq<F>) -> Set<nat> {
    Set::new(|index: nat| exists|k: int| 0 <= k < flags.len() && (#[trigger] flags[k]).ordinal() == index)
}

/// Whether the positions of a sequence of flags rise from each flag to the
/// next.
pub open spec fn is_ascending<F: BitFlag>(flags: Seq<F>) -> bool {
    forall|i: int, j: int|
        0 <= i < j < flags.len() ==> (#[trigger] flags[i]).ordinal() < (#[trigger] flags[j]).ordinal()
}

/// The positions of no flags are none, and a flag more gives its position
/// more.
pub proof fn lemma_ordinals_of_push<F: BitFlag>(flags: Seq<F>, flag: F)
    ensures
        ordinals_of(Seq::<F>::empty()) == Set::<nat>::empty(),
        ordinals_of(flags.push(flag)) == ordinals_of(flags).insert(flag.ordinal() as nat),
{
    let longer = flags.push(flag);
    assert(ordinals_of(Seq::<F>::empty()) =~= Set::<nat>::empty());
    assert forall|index: nat| ordinals_of(longer).contains(index) implies ordinals_of(
        flags,
    ).insert(flag.ordinal() as nat).contains(index) by {
        let k = choose|k: int| 0 <= k < longer.len() && (#[trigger] longer[k]).ordinal() == index;
        if k < flags.len() {
            assert(flags[k].ordinal() == index);
        }
    }
    assert forall|index: nat|
        ordinals_of(flags).insert(flag.ordinal() as nat).contains(index) implies ordinals_of(
        longer,
    ).contains(index) by {
        if ordinals_of(flags).contains(index) {
            let k = choose|k: int| 0 <= k < flags.len() && (#[trigger] flags[k]).ordinal() == index;
            assert(longer[k].ordinal() == index);
        } else {
            assert(longer[flags.len() as int].ordinal() == index);
        }
    }
    assert(ordinals_of(longer) =~= ordinals_of(flags).insert(flag.ordinal() as nat));
}

/// A flag is the flag at its own position.
pub proof fn lemma_flag_at_ordinal<F: BitFlag>(flag: F)
    ensures
        is_mapped::<F>(flag.ordinal() as nat),
        flag_at::<F>(flag.ordinal() as nat) == Some(flag),
        flag.ordinal() < F::Storage::COUNT,
{
    let index = flag.ordinal() as nat;
    assert(is_mapped::<F>(index));
    let chosen = flag_at::<F>(index).unwrap();
    F::lemma_ordinal(chosen, flag);
}

/// What `from_index` returns for `index` is the flag at that position.
pub proof fn lemma_from_index<F: BitFlag>(index: usize, flag: Option<F>)
    requires
        match flag {
            Some(found) => found.ordinal() == index,
            None => forall|other: F| other.ordinal() != index,
        },
    ensures
        flag == flag_at::<F>(index as nat),
{
    match flag {
        Some(found) => {
            lemma_flag_at_ordinal(found);
        },
        None => {
            if is_mapped::<F>(index as nat) {
                let chosen = flag_at::<F>(index as nat).unwrap();
                assert(chosen.ordinal() != index);
            }
        },
    }
}

} // verus!
