//! Generating the flag binding of a declared enumeration.
//!
//! The declaration arrives as plain data: the name of the type, what kind of
//! item it is, and its variants with the shape of their fields. From that the
//! binding is planned: the declaration is accepted or rejected, the storage
//! width is chosen, and every flag gets the name of the constant that holds
//! its bit position in the reverse lookup.

use vstd::prelude::*;
use vstd::string::StringExecFns;

verus! {

/// An unsigned integer type that can back a set of flags.
#[derive(Clone, Copy, Debug, PartialEq, Eq, Structural)]
pub enum StorageWidth {
    U8,
    U16,
    U32,
    U64,
    U128,
}

impl StorageWidth {
    /// The number of bits of the type, as a mathematical integer.
    pub open spec fn spec_bits(self) -> nat {
        match self {
            StorageWidth::U8 => 8,
            StorageWidth::U16 => 16,
            StorageWidth::U32 => 32,
            StorageWidth::U64 => 64,
            StorageWidth::U128 => 128,
        }
    }

    /// The number of bits of the type.
    pub fn bits(self) -> (n: usize)
        ensures
            n == self.spec_bits(),
    {
        match self {
            StorageWidth::U8 => 8,
            StorageWidth::U16 => 16,
            StorageWidth::U32 => 32,
            StorageWidth::U64 => 64,
            StorageWidth::U128 => 128,
        }
    }
}

/// Whether `width` is the narrowest storage with a bit for each of `count` flags.
pub open spec fn is_narrowest(width: StorageWidth, count: nat) -> bool {
    &&& count <= width.spec_bits()
    &&& forall|other: StorageWidth| count <= other.spec_bits() ==> width.spec_bits() <= other.spec_bits()
}

/// The storage of an enumeration of `count` variants, and none for more than
/// 128 variants.
pub open spec fn storage_for(count: nat) -> Option<StorageWidth> {
    if count <= 8 {
        Some(StorageWidth::U8)
    } else if count <= 16 {
        Some(StorageWidth::U16)
    } else if count <= 32 {
        Some(StorageWidth::U32)
    } else if count <= 64 {
        Some(StorageWidth::U64)
    } else if count <= 128 {
        Some(StorageWidth::U128)
    } else {
        None
    }
}

/// The storage of an enumeration is the narrowest with a bit for each of its
/// variants, and no other width is; there is none exactly for more than 128
/// variants.
pub proof fn lemma_storage_is_narrowest(count: nat, width: StorageWidth)
    ensures
        storage_for(count) == Some(width) <==> is_narrowest(width, count),
        storage_for(count).is_none() <==> count > 128,
{
    if is_narrowest(width, count) {
        assert(width.spec_bits() <= StorageWidth::U8.spec_bits() || count > 8);
        assert(width.spec_bits() <= StorageWidth::U16.spec_bits() || count > 16);
        assert(width.spec_bits() <= StorageWidth::U32.spec_bits() || count > 32);
        assert(width.spec_bits() <= StorageWidth::U64.spec_bits() || count > 64);
    }
}

/// Chooses the storage for an enumeration of `count` variants: the narrowest
/// of the five widths that has a bit for each variant, and none when there
/// are more than 128 variants.
pub fn select_storage(count: usize) -> (chosen: Option<StorageWidth>)
    ensures
        chosen == storage_for(count as nat),
        match chosen {
            Some(width) => is_narrowest(width, count as nat),
            None => count > 128,
        },
{
    if count <= 8 {
        Some(StorageWidth::U8)
    } else if count <= 16 {
        Some(StorageWidth::U16)
    } else if count <= 32 {
        Some(StorageWidth::U32)
    } else if count <= 64 {
        Some(StorageWidth::U64)
    } else if count <= 128 {
        Some(StorageWidth::U128)
    } else {
        None
    }
}

/// What kind of item a declaration is.
#[derive(Clone, Copy, Debug, PartialEq, Eq, Structural)]
pub enum DataKind {
    Struct,
    Enum,
    Union,
}

/// The shape of the fields of one variant.
#[derive(Clone, Copy, Debug, PartialEq, Eq, Structural)]
pub enum FieldsKind {
    /// Fields with names, in braces.
    Named,
    /// Fields without names, in parentheses.
    Unnamed,
    /// No fields at all.
    Unit,
}

/// One variant of a declared enumeration.
#[derive(Clone, Debug, PartialEq, Eq)]
pub struct Variant {
    pub name: String,
    pub fields: FieldsKind,
}

/// The declaration of the type for which a binding is asked.
///
/// `variants` lists the variants in the order of the declaration; it is empty
/// for an item that is no enumeration.
#[derive(Clone, Debug, PartialEq, Eq)]
pub struct Declaration {
    pub name: String,
    pub data: DataKind,
    pub variants: Vec<Variant>,
}

/// Why no binding is generated for a declaration.
#[derive(Clone, Copy, Debug, PartialEq, Eq, Structural)]
pub enum DeriveError {
    /// The item is a struct or a union.
    NotAnEnum,
    /// A variant of the enumeration has fields.
    NotUnitEnum,
    /// The enumeration has more variants than the widest storage has bits.
    TooLarge,
}

impl DeriveError {
    /// The text of the rejection, as a sequence of characters.
    pub open spec fn spec_message(self) -> Seq<char> {
        match self {
            DeriveError::NotAnEnum => "derive(BitSet) may only be used on enums"@,
            DeriveError::NotUnitEnum => "derive(BitSet) may only be used on unit enums"@,
            DeriveError::TooLarge => "enum too large for a bit set"@,
        }
    }

    /// The text with which the generation is aborted.
    pub fn message(self) -> (text: &'static str)
        ensures
            text@ == self.spec_message(),
    {
        match self {
            DeriveError::NotAnEnum => "derive(BitSet) may only be used on enums",
            DeriveError::NotUnitEnum => "derive(BitSet) may only be used on unit enums",
            DeriveError::TooLarge => "enum too large for a bit set",
        }
    }
}

/// The upper-case form of a text, as `str::to_uppercase` of the standard
/// library computes it.
pub uninterp spec fn uppercase(text: Seq<char>) -> Seq<char>;

/// Calls `str::to_uppercase`. The contract gives the result its name and
/// claims nothing else of it.
#[verifier::external_body]
fn to_uppercase(text: &str) -> (upper: String)
    ensures
        upper@ == uppercase(text@),
{
    text.to_uppercase()
}

/// The name of the constant that holds the bit position of `flag` in the
/// reverse lookup of the type `name`.
pub open spec fn match_constant_name(name: Seq<char>, flag: Seq<char>) -> Seq<char> {
    uppercase("_const_"@ + name + "_"@ + flag)
}

/// Builds the name of the constant that holds the bit position of `flag` in
/// the reverse lookup of the type `name`: `_const_`, the type's name, an
/// underscore and the flag's name, all in upper case.
pub fn match_constant(name: &str, flag: &str) -> (constant: String)
    ensures
        constant@ == match_constant_name(name@, flag@),
{
    let mut text = String::new();
    text.append("_const_");
    text.append(name);
    text.append("_");
    text.append(flag);
    assert(text@ == "_const_"@ + name@ + "_"@ + flag@);
    to_uppercase(text.as_str())
}

/// What the generated binding consists of.
#[derive(Clone, Debug, PartialEq, Eq)]
pub struct Binding {
    /// The name of the enumeration.
    pub name: String,
    /// The storage that backs sets of its flags.
    pub storage: StorageWidth,
    /// The names of the flags, in the order of the declaration.
    pub flags: Vec<String>,
    /// For each flag, the name of the constant that holds its bit position.
    pub match_constants: Vec<String>,
}

impl Declaration {
    /// Whether every variant is without fields.
    pub open spec fn all_unit(self) -> bool {
        forall|i: int| 0 <= i < self.variants@.len() ==> (#[trigger] self.variants@[i]).fields == FieldsKind::Unit
    }

    /// Whether `binding` is the binding of this declaration.
    pub open spec fn is_bound_by(self, binding: Binding) -> bool {
        &&& binding.name@ == self.name@
        &&& storage_for(self.variants@.len()) == Some(binding.storage)
        &&& binding.flags@.len() == self.variants@.len()
        &&& binding.match_constants@.len() == self.variants@.len()
        &&& forall|i: int|
            0 <= i < self.variants@.len() ==> (#[trigger] binding.flags@[i])@
                == self.variants@[i].name@
        &&& forall|i: int|
            0 <= i < self.variants@.len() ==> (#[trigger] binding.match_constants@[i])@
                == match_constant_name(self.name@, self.variants@[i].name@)
    }
}

/// Plans the flag binding of a declared type.
///
/// A declaration that is no enumeration is rejected; then one with a variant
/// that has fields; then one with more than 128 variants. Every other
/// declaration gets the narrowest storage with a bit for each variant, and
/// its flags are the variants in the order of the declaration.
pub fn derive_bit_flag(input: &Declaration) -> (outcome: Result<Binding, DeriveError>)
    ensures
        match outcome {
            Ok(binding) => {
                &&& input.data == DataKind::Enum
                &&& input.all_unit()
                &&& input.variants@.len() <= 128
                &&& input.is_bound_by(binding)
            },
            Err(DeriveError::NotAnEnum) => input.data != DataKind::Enum,
            Err(DeriveError::NotUnitEnum) => input.data == DataKind::Enum && !input.all_unit(),
            Err(DeriveError::TooLarge) => {
                &&& input.data == DataKind::Enum
                &&& input.all_unit()
                &&& input.variants@.len() > 128
            },
        },
{
    match input.data {
        DataKind::Enum => {},
        _ => {
            return Err(DeriveError::NotAnEnum);
        },
    }
    let count = input.variants.len();
    let mut flags: Vec<String> = Vec::new();
    let mut match_constants: Vec<String> = Vec::new();
    let mut i: usize = 0;
    while i < count
        invariant
            input.data == DataKind::Enum,
            count == input.variants@.len(),
            i <= count,
            flags@.len() == i,
            match_constants@.len() == i,
            forall|k: int| 0 <= k < i ==> (#[trigger] input.variants@[k]).fields == FieldsKind::Unit,
            forall|k: int| 0 <= k < i ==> (#[trigger] flags@[k])@ == input.variants@[k].name@,
            forall|k: int|
                0 <= k < i ==> (#[trigger] match_constants@[k])@ == match_constant_name(
                    input.name@,
                    input.variants@[k].name@,
                ),
        decreases count - i,
    {
        let variant = &input.variants[i];
        match variant.fields {
            FieldsKind::Unit => {},
            _ => {
                assert(input.variants@[i as int].fields != FieldsKind::Unit);
                return Err(DeriveError::NotUnitEnum);
            },
        }
        flags.push(variant.name.clone());
        match_constants.push(match_constant(input.name.as_str(), variant.name.as_str()));
        i += 1;
    }
    match select_storage(count) {
        Some(storage) => Ok(Binding { name: input.name.clone(), storage, flags, match_constants }),
        None => Err(DeriveError::TooLarge),
    }
}

} // verus!
