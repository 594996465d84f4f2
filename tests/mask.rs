use zorder::mask::{bit_mask, interleave_mask, interleave_shift, BitCount};

#[test]
fn allowed_masks() {
    assert_eq!(bit_mask::<u8>(4), 0xF);
    assert_eq!(bit_mask::<u16>(4), 0xF);
    assert_eq!(bit_mask::<u32>(4), 0xF);
    assert_eq!(bit_mask::<u64>(4), 0xF);
    assert_eq!(bit_mask::<u128>(4), 0xF);

    assert_eq!(bit_mask::<u8>(8), 0xFF);
    assert_eq!(bit_mask::<u16>(16), 0xFFFF);
    assert_eq!(bit_mask::<u32>(32), 0xFFFF_FFFF);
    assert_eq!(bit_mask::<u64>(64), 0xFFFF_FFFF_FFFF_FFFF);
    assert_eq!(
        bit_mask::<u128>(128),
        0xFFFF_FFFF_FFFF_FFFF_FFFF_FFFF_FFFF_FFFF
    );
}

#[test]
fn ilog2() {
    assert_eq!(u8::BITS_ILOG2, 3);
    assert_eq!(u16::BITS_ILOG2, 4);
    assert_eq!(u32::BITS_ILOG2, 5);
    assert_eq!(u64::BITS_ILOG2, 6);
    assert_eq!(u128::BITS_ILOG2, 7);
}

#[test]
fn interleave_mask_dim2() {
    assert_eq!(
        interleave_mask::<u128>(2, 32),
        0x0000_0000_FFFF_FFFF_00000000_FFFF_FFFF
    );
    assert_eq!(
        interleave_mask::<u128>(2, 16),
        0x0000_FFFF_0000_FFFF_0000_FFFF_0000_FFFF
    );
    assert_eq!(
        interleave_mask::<u128>(2, 8),
        0x00FF_00FF_00FF_00FF_00FF_00FF_00FF_00FF
    );
    assert_eq!(
        interleave_mask::<u128>(2, 4),
        0x0F0F_0F0F_0F0F_0F0F_0F0F_0F0F_0F0F_0F0F
    );
    assert_eq!(
        interleave_mask::<u128>(2, 2),
        0x3333_3333_3333_3333_3333_3333_3333_3333
    );
    assert_eq!(
        interleave_mask::<u128>(2, 1),
        0x5555_5555_5555_5555_5555_5555_5555_5555
    );
}

#[test]
fn interleave_mask_dim3() {
    assert_eq!(
        interleave_mask::<u128>(3, 16),
        0x0000_FFFF_0000_0000_FFFF_0000_0000_FFFF
    );
    assert_eq!(
        interleave_mask::<u128>(3, 8),
        0xFF00_00FF_0000_FF00_00FF_0000_FF00_00FF
    );
    assert_eq!(
        interleave_mask::<u128>(3, 4),
        0x0F00_F00F_00F0_0F00_F00F_00F0_0F00_F00F
    );
    assert_eq!(
        interleave_mask::<u128>(3, 2),
        0xC30C_30C3_0C30_C30C_30C3_0C30_C30C_30C3
    );
    assert_eq!(
        interleave_mask::<u128>(3, 1),
        0x4924_9249_2492_4924_9249_2492_4924_9249
    );
}

#[test]
fn interleave_mask_dim4() {
    assert_eq!(
        interleave_mask::<u128>(4, 16),
        0x0000_0000_0000_FFFF_0000_0000_0000_FFFF
    );
    assert_eq!(
        interleave_mask::<u128>(4, 8),
        0x0000_00FF_0000_00FF_0000_00FF_0000_00FF
    );
    assert_eq!(
        interleave_mask::<u128>(4, 4),
        0x000F_000F_000F_000F_000F_000F_000F_000F
    );
    assert_eq!(
        interleave_mask::<u128>(4, 2),
        0x0303_0303_0303_0303_0303_0303_0303_0303
    );
    assert_eq!(
        interleave_mask::<u128>(4, 1),
        0x1111_1111_1111_1111_1111_1111_1111_1111
    );
}

#[test]
fn truncated_interleave_mask() {
    assert_eq!(interleave_mask::<u32>(2, 32), 0xFFFF_FFFF);
    assert_eq!(interleave_mask::<u32>(2, 16), 0x0000_FFFF);
    assert_eq!(interleave_mask::<u32>(2, 8), 0x00FF_00FF);
    assert_eq!(interleave_mask::<u32>(2, 4), 0x0F0F_0F0F);
    assert_eq!(interleave_mask::<u32>(2, 2), 0x3333_3333);
    assert_eq!(interleave_mask::<u32>(2, 1), 0x5555_5555);
}

#[test]
fn odd_large_dimension_mask() {
    assert_eq!(
        interleave_mask::<u32>(13, 1),
        0b1_0000_0000_0000_1_0000_0000_0000_1
    )
}

#[test]
fn mask_run_count() {
    // ceil(width / (dim * bits)) runs of `bits` set bits each.
    assert_eq!(interleave_mask::<u32>(13, 1).count_ones(), 3);
    assert_eq!(interleave_mask::<u128>(3, 16).count_ones(), 3 * 16);
    assert_eq!(interleave_mask::<u8>(2, 1).count_ones(), 4);
    assert_eq!(interleave_mask::<u64>(5, 4).count_ones(), 4 * 4);
    assert_eq!(interleave_mask::<u64>(5, 4), 0xF000_0F00_00F0_000F);
}

#[test]
fn mask_with_one_dimension_is_all_ones() {
    assert_eq!(interleave_mask::<u16>(1, 4), u16::MAX);
    assert_eq!(interleave_mask::<u8>(1, 1), u8::MAX);
}

#[test]
fn mask_with_dimension_beyond_the_width() {
    assert_eq!(interleave_mask::<u16>(100, 2), 0b11);
}

#[test]
fn shift_per_stage() {
    assert_eq!(interleave_shift(2, 0), 1);
    assert_eq!(interleave_shift(3, 2), 8);
    assert_eq!(interleave_shift(13, 3), 96);
}

#[test]
fn widths() {
    assert_eq!(<u8 as BitCount>::BITS, 8);
    assert_eq!(<u128 as BitCount>::BITS, 128);
    assert_eq!(<u32 as BitCount>::from_u128(0x1_2345_6789), 0x2345_6789u32);
    assert_eq!(0xABu8.to_u128(), 0xAB);
}
