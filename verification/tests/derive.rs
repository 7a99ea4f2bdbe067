use bitset::{
    derive_bit_flag, match_constant, select_storage, Binding, DataKind, Declaration, DeriveError,
    FieldsKind, StorageWidth, Variant,
};

fn unit(name: &str) -> Variant {
    Variant { name: name.to_string(), fields: FieldsKind::Unit }
}

fn enumeration(name: &str, count: usize) -> Declaration {
    let mut variants = Vec::new();
    let mut i = 0;
    while i < count {
        variants.push(unit(&format!("V{}", i)));
        i += 1;
    }
    Declaration { name: name.to_string(), data: DataKind::Enum, variants }
}

#[test]
fn storage_ladder_at_its_steps() {
    assert_eq!(select_storage(0), Some(StorageWidth::U8));
    assert_eq!(select_storage(1), Some(StorageWidth::U8));
    assert_eq!(select_storage(8), Some(StorageWidth::U8));
    assert_eq!(select_storage(9), Some(StorageWidth::U16));
    assert_eq!(select_storage(16), Some(StorageWidth::U16));
    assert_eq!(select_storage(17), Some(StorageWidth::U32));
    assert_eq!(select_storage(32), Some(StorageWidth::U32));
    assert_eq!(select_storage(33), Some(StorageWidth::U64));
    assert_eq!(select_storage(64), Some(StorageWidth::U64));
    assert_eq!(select_storage(65), Some(StorageWidth::U128));
    assert_eq!(select_storage(128), Some(StorageWidth::U128));
    assert_eq!(select_storage(129), None);
    assert_eq!(select_storage(usize::MAX), None);
}

#[test]
fn storage_width_in_bits() {
    assert_eq!(StorageWidth::U8.bits(), 8);
    assert_eq!(StorageWidth::U16.bits(), 16);
    assert_eq!(StorageWidth::U32.bits(), 32);
    assert_eq!(StorageWidth::U64.bits(), 64);
    assert_eq!(StorageWidth::U128.bits(), 128);
}

#[test]
fn selected_storage_is_the_narrowest_that_fits() {
    let widths = [
        StorageWidth::U8,
        StorageWidth::U16,
        StorageWidth::U32,
        StorageWidth::U64,
        StorageWidth::U128,
    ];
    let mut count = 0;
    while count <= 128 {
        let chosen = select_storage(count).unwrap();
        assert!(count <= chosen.bits());
        for other in widths {
            if count <= other.bits() {
                assert!(chosen.bits() <= other.bits());
            }
        }
        count += 1;
    }
}

#[test]
fn four_variants_take_eight_bits() {
    let input = Declaration {
        name: "MyFlag".to_string(),
        data: DataKind::Enum,
        variants: vec![unit("Foo"), unit("Bar"), unit("Bazz"), unit("Bla")],
    };
    let binding = derive_bit_flag(&input).unwrap();
    assert_eq!(
        binding,
        Binding {
            name: "MyFlag".to_string(),
            storage: StorageWidth::U8,
            flags: vec![
                "Foo".to_string(),
                "Bar".to_string(),
                "Bazz".to_string(),
                "Bla".to_string()
            ],
            match_constants: vec![
                "_CONST_MYFLAG_FOO".to_string(),
                "_CONST_MYFLAG_BAR".to_string(),
                "_CONST_MYFLAG_BAZZ".to_string(),
                "_CONST_MYFLAG_BLA".to_string()
            ],
        }
    );
}

#[test]
fn nine_variants_take_sixteen_bits() {
    let binding = derive_bit_flag(&enumeration("Nine", 9)).unwrap();
    assert_eq!(binding.storage, StorageWidth::U16);
    assert_eq!(binding.flags.len(), 9);
    assert_eq!(binding.match_constants.len(), 9);
    assert_eq!(binding.flags[8], "V8");
    assert_eq!(binding.match_constants[8], "_CONST_NINE_V8");
}

#[test]
fn an_enumeration_without_variants_is_bound() {
    let binding = derive_bit_flag(&enumeration("Nothing", 0)).unwrap();
    assert_eq!(binding.name, "Nothing");
    assert_eq!(binding.storage, StorageWidth::U8);
    assert!(binding.flags.is_empty());
    assert!(binding.match_constants.is_empty());
}

#[test]
fn the_widest_enumeration_is_bound() {
    let binding = derive_bit_flag(&enumeration("Wide", 128)).unwrap();
    assert_eq!(binding.storage, StorageWidth::U128);
    assert_eq!(binding.flags.len(), 128);
}

#[test]
fn too_many_variants_are_rejected() {
    assert_eq!(derive_bit_flag(&enumeration("Huge", 129)), Err(DeriveError::TooLarge));
}

#[test]
fn a_struct_and_a_union_are_rejected() {
    let mut input = enumeration("Plain", 0);
    input.data = DataKind::Struct;
    assert_eq!(derive_bit_flag(&input), Err(DeriveError::NotAnEnum));
    input.data = DataKind::Union;
    assert_eq!(derive_bit_flag(&input), Err(DeriveError::NotAnEnum));
}

#[test]
fn a_variant_with_fields_is_rejected() {
    let mut input = enumeration("Mixed", 3);
    input.variants[1].fields = FieldsKind::Named;
    assert_eq!(derive_bit_flag(&input), Err(DeriveError::NotUnitEnum));
    input.variants[1].fields = FieldsKind::Unnamed;
    assert_eq!(derive_bit_flag(&input), Err(DeriveError::NotUnitEnum));
    input.variants[1].fields = FieldsKind::Unit;
    input.variants[2].fields = FieldsKind::Unnamed;
    assert_eq!(derive_bit_flag(&input), Err(DeriveError::NotUnitEnum));
}

#[test]
fn rejections_in_their_order() {
    let mut input = enumeration("Huge", 129);
    input.variants[128].fields = FieldsKind::Unnamed;
    assert_eq!(derive_bit_flag(&input), Err(DeriveError::NotUnitEnum));
    input.data = DataKind::Struct;
    assert_eq!(derive_bit_flag(&input), Err(DeriveError::NotAnEnum));
}

#[test]
fn rejection_messages() {
    assert_eq!(DeriveError::NotAnEnum.message(), "derive(BitSet) may only be used on enums");
    assert_eq!(
        DeriveError::NotUnitEnum.message(),
        "derive(BitSet) may only be used on unit enums"
    );
    assert_eq!(DeriveError::TooLarge.message(), "enum too large for a bit set");
}

#[test]
fn match_constant_is_in_upper_case() {
    assert_eq!(match_constant("MyFlag", "Foo"), "_CONST_MYFLAG_FOO");
    assert_eq!(match_constant("a", "b"), "_CONST_A_B");
    assert_eq!(match_constant("", ""), "_CONST__");
    assert_eq!(match_constant("snake_case", "With9"), "_CONST_SNAKE_CASE_WITH9");
}

#[test]
fn match_constant_keeps_the_order_of_its_parts() {
    assert_eq!(match_constant("Ab", "Cd"), "_CONST_AB_CD");
    assert_ne!(match_constant("Ab", "Cd"), match_constant("Cd", "Ab"));
}
