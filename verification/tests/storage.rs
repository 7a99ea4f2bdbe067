use bitset::Bits;

#[test]
fn zero_and_count_of_each_width() {
    assert_eq!(<u8 as Bits>::ZERO, 0u8);
    assert_eq!(<u16 as Bits>::ZERO, 0u16);
    assert_eq!(<u32 as Bits>::ZERO, 0u32);
    assert_eq!(<u64 as Bits>::ZERO, 0u64);
    assert_eq!(<u128 as Bits>::ZERO, 0u128);
    assert_eq!(<u8 as Bits>::COUNT, 8);
    assert_eq!(<u16 as Bits>::COUNT, 16);
    assert_eq!(<u32 as Bits>::COUNT, 32);
    assert_eq!(<u64 as Bits>::COUNT, 64);
    assert_eq!(<u128 as Bits>::COUNT, 128);
}

#[test]
fn bit_has_one_at_the_index() {
    assert_eq!(<u8 as Bits>::bit(0), 1u8);
    assert_eq!(<u8 as Bits>::bit(3), 8u8);
    assert_eq!(<u8 as Bits>::bit(7), 128u8);
    assert_eq!(<u16 as Bits>::bit(15), 0x8000u16);
    assert_eq!(<u32 as Bits>::bit(31), 0x8000_0000u32);
    assert_eq!(<u64 as Bits>::bit(63), 0x8000_0000_0000_0000u64);
    assert_eq!(<u128 as Bits>::bit(64), 1u128 << 64);
    assert_eq!(<u128 as Bits>::bit(127), 1u128 << 127);
}

#[test]
fn bit_beyond_the_width_is_zero() {
    assert_eq!(<u8 as Bits>::bit(8), 0u8);
    assert_eq!(<u8 as Bits>::bit(9), 0u8);
    assert_eq!(<u16 as Bits>::bit(16), 0u16);
    assert_eq!(<u32 as Bits>::bit(32), 0u32);
    assert_eq!(<u64 as Bits>::bit(64), 0u64);
    assert_eq!(<u128 as Bits>::bit(128), 0u128);
    assert_eq!(<u8 as Bits>::bit(usize::MAX), 0u8);
    assert_eq!(<u128 as Bits>::bit(usize::MAX), 0u128);
}

#[test]
fn bit_of_an_index_above_32_bits_is_zero() {
    let index = (u32::MAX as usize).wrapping_add(4);
    if index > 3 {
        assert_eq!(<u8 as Bits>::bit(index), 0u8);
        assert_eq!(<u64 as Bits>::bit(index), 0u64);
    }
}

#[test]
fn trailing_zeros_of_zero_is_the_width() {
    assert_eq!(<u8 as Bits>::trailing_zeros(0), 8);
    assert_eq!(<u16 as Bits>::trailing_zeros(0), 16);
    assert_eq!(<u32 as Bits>::trailing_zeros(0), 32);
    assert_eq!(<u64 as Bits>::trailing_zeros(0), 64);
    assert_eq!(<u128 as Bits>::trailing_zeros(0), 128);
}

#[test]
fn trailing_zeros_is_the_lowest_one() {
    assert_eq!(<u8 as Bits>::trailing_zeros(0b0001_1000), 3);
    assert_eq!(<u8 as Bits>::trailing_zeros(1), 0);
    assert_eq!(<u8 as Bits>::trailing_zeros(0x80), 7);
    assert_eq!(<u16 as Bits>::trailing_zeros(0x8100), 8);
    assert_eq!(<u32 as Bits>::trailing_zeros(0x8000_0000), 31);
    assert_eq!(<u64 as Bits>::trailing_zeros(1u64 << 40), 40);
    assert_eq!(<u128 as Bits>::trailing_zeros(1u128 << 5), 5);
    assert_eq!(<u128 as Bits>::trailing_zeros(1u128 << 63), 63);
    assert_eq!(<u128 as Bits>::trailing_zeros(1u128 << 64), 64);
    assert_eq!(<u128 as Bits>::trailing_zeros(1u128 << 100), 100);
    assert_eq!(<u128 as Bits>::trailing_zeros(1u128 << 127), 127);
    assert_eq!(<u128 as Bits>::trailing_zeros((1u128 << 100) | (1u128 << 7)), 7);
}

#[test]
fn trailing_zeros_agrees_with_std_on_u128() {
    let mut index = 0;
    while index < 128 {
        let value = (1u128 << index) | (1u128 << 127);
        assert_eq!(<u128 as Bits>::trailing_zeros(value), value.trailing_zeros() as usize);
        index += 1;
    }
}

#[test]
fn count_ones_counts_the_ones() {
    assert_eq!(<u8 as Bits>::count_ones(0), 0);
    assert_eq!(<u8 as Bits>::count_ones(0b1011_0000), 3);
    assert_eq!(<u8 as Bits>::count_ones(0xff), 8);
    assert_eq!(<u16 as Bits>::count_ones(0xffff), 16);
    assert_eq!(<u32 as Bits>::count_ones(0x8000_0001), 2);
    assert_eq!(<u64 as Bits>::count_ones(u64::MAX), 64);
    assert_eq!(<u128 as Bits>::count_ones(u128::MAX), 128);
    assert_eq!(<u128 as Bits>::count_ones((1u128 << 100) | 5), 3);
}
