//! Compact, typed sets over small closed enumerations.
//!
//! A set of flags is one unsigned integer with one bit per flag. The crate
//! holds the storage abstraction ([`Bits`]), the binding of an enumeration to
//! a storage width and to bit positions ([`BitFlag`]), the set itself
//! ([`BitSet`]) and the decisions taken when such a binding is generated for
//! a declared enumeration ([`derive_bit_flag`]).

pub mod bit_model;
pub mod bits;
pub mod derive;
pub mod flag;
pub mod laws;
pub mod ops;
pub mod set;

pub use bits::Bits;
pub use derive::{
    derive_bit_flag, match_constant, select_storage, Binding, DataKind, Declaration, DeriveError,
    FieldsKind, StorageWidth, Variant,
};
pub use flag::BitFlag;
pub use ops::{complement_of, union_of};
pub use set::{BitSet, GetSingleError};
