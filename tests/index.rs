use zorder::{coord_of, generic_coord_of, generic_index_of, index_of, Deinterleave, Interleave};

#[test]
fn index_and_back_16() {
    for i in 0..10_000u16 {
        let array: [_; 2] = coord_of(i);
        assert_eq!(index_of(array), i);
    }
}

#[test]
fn index_and_back_32() {
    for i in 0..10_000u32 {
        let array: [_; 2] = coord_of(i);
        assert_eq!(index_of(array), i);
    }

    for i in 0..10_000u32 {
        let array: [_; 4] = coord_of(i);
        assert_eq!(index_of(array), i);
    }
}

#[test]
fn index_and_back_64() {
    for i in 0..10_000u64 {
        let array: [_; 2] = coord_of(i);
        assert_eq!(index_of(array), i);
    }

    for i in 0..10_000u64 {
        let array: [_; 3] = coord_of(i);
        assert_eq!(index_of(array), i);
    }

    for i in 0..10_000u64 {
        let array: [_; 5] = coord_of(i);
        assert_eq!(index_of(array), i);
    }
}

#[test]
fn index_and_back_128() {
    for i in 0..10_000u128 {
        let array: [_; 2] = coord_of(i);
        assert_eq!(index_of(array), i);
    }

    for i in 0..10_000u128 {
        let array: [_; 3] = coord_of(i);
        assert_eq!(index_of(array), i);
    }

    for i in 0..10_000u128 {
        let array: [_; 5] = coord_of(i);
        assert_eq!(index_of(array), i);
    }

    for i in 0..10_000u128 {
        let array: [_; 9] = coord_of(i);
        assert_eq!(index_of(array), i);
    }
}

#[test]
fn index_of_two_u32() {
    let idx = index_of([3u32, 7u32]);
    assert_eq!(idx, 0b101_111u64);
    assert_eq!(idx, 47);
    let coord: [u32; 2] = coord_of(47u64);
    assert_eq!(coord, [3u32, 7u32]);
}

#[test]
fn index_of_two_u16() {
    let idx = index_of([1u16, 1u16]);
    assert_eq!(idx, 3u32);
    let coord: [u16; 2] = coord_of(3u32);
    assert_eq!(coord, [1u16, 1u16]);
}

#[test]
fn index_of_zeros_in_three_dimensions() {
    assert_eq!(index_of([0u8, 0, 0]), 0u32);
    assert_eq!(index_of([0u16, 0, 0]), 0u64);
    assert_eq!(index_of([0u32, 0, 0]), 0u128);
}

#[test]
fn index_of_one_full_axis_in_three_dimensions() {
    assert_eq!(index_of([0xFFu8, 0, 0]), 0b001_001_001_001_001_001_001_001u32);
    assert_eq!(index_of([0, 0xFFu8, 0]), 0b010_010_010_010_010_010_010_010u32);
    assert_eq!(index_of([0, 0, 0xFFu8]), 0b100_100_100_100_100_100_100_100u32);
}

#[test]
fn axis_i_lands_at_bit_i() {
    assert_eq!(index_of([1u8, 0, 0, 0]), 1u32);
    assert_eq!(index_of([0, 1u8, 0, 0]), 2u32);
    assert_eq!(index_of([0, 0, 1u8, 0]), 4u32);
    assert_eq!(index_of([0, 0, 0, 1u8]), 8u32);
    assert_eq!(index_of([2u8, 0, 0, 0]), 16u32);
}

#[test]
fn coordinates_round_trip() {
    let samples: [[u16; 3]; 4] = [[0, 0, 0], [1, 0, 1], [65535, 12345, 0], [u16::MAX; 3]];
    for c in samples {
        let idx = index_of(c);
        let back: [u16; 3] = coord_of(idx);
        assert_eq!(back, c);
    }

    let wide = [u64::MAX, 0x0123_4567_89AB_CDEF];
    let idx = index_of(wide);
    let back: [u64; 2] = coord_of(idx);
    assert_eq!(back, wide);

    let many = [1u8, 2, 3, 4, 5, 6, 7, 8, 9, 10, 11, 12, 13, 14, 15, 255];
    let idx = index_of(many);
    let back: [u8; 16] = coord_of(idx);
    assert_eq!(back, many);
}

#[test]
fn largest_values_fill_the_index() {
    assert_eq!(index_of([u8::MAX; 16]), u128::MAX);
    assert_eq!(index_of([u64::MAX; 2]), u128::MAX);
    assert_eq!(index_of([u8::MAX; 5]), (1u64 << 40) - 1);
    let coord: [u8; 16] = coord_of(u128::MAX);
    assert_eq!(coord, [u8::MAX; 16]);
}

#[test]
fn index_round_trip_with_unused_high_bits_clear() {
    // Five 8-bit axes fill 40 of the 64 bits.
    for i in [0u64, 1, 0xFF_FFFF_FFFF, 0x12_3456_789A, 0x80_0000_0001] {
        let array: [u8; 5] = coord_of(i);
        assert_eq!(index_of(array), i);
    }
}

#[test]
fn generic_paths_match_the_trait_methods() {
    let idx = generic_index_of([5u8, 9u8], |c: u8| <u8 as Interleave<2>>::interleave(c));
    assert_eq!(idx, index_of([5u8, 9u8]));
    let coord: [u8; 2] =
        generic_coord_of(idx, |x: u16, lsb: usize| <u16 as Deinterleave<2>>::deinterleave(x, lsb));
    assert_eq!(coord, [5u8, 9u8]);
}

#[test]
fn generic_index_of_ors_the_shifted_results() {
    // Whatever the closure returns for axis j is shifted left by j and or-ed in.
    let idx = generic_index_of([1u8, 1u8], |c: u8| c as u16 * 3);
    assert_eq!(idx, 0b11 | 0b110);
    let idx = generic_index_of([0u8, 0, 0], |_c: u8| 1u32);
    assert_eq!(idx, 0b111);
    let idx = generic_index_of([1u8, 1u8], |_c: u8| 0x8000u16);
    assert_eq!(idx, 0x8000);
}

#[test]
fn generic_coord_of_keeps_each_result() {
    let coord: [u8; 3] = generic_coord_of(0u32, |_x: u32, lsb: usize| lsb as u8 * 10);
    assert_eq!(coord, [0, 10, 20]);
}
