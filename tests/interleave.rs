use zorder::Interleave;

#[test]
fn interleave_dim2_u8() {
    let idx = <u8 as Interleave<2>>::interleave(u8::MAX);
    assert_eq!(idx, 0b01_01_01_01_01_01_01_01);
}

#[test]
fn interleave_dim3_u8() {
    let idx = <u8 as Interleave<3>>::interleave(u8::MAX);
    assert_eq!(idx, 0b001_001_001_001_001_001_001_001);
}

#[test]
fn interleave_dim4_u8() {
    let idx = <u8 as Interleave<4>>::interleave(u8::MAX);
    assert_eq!(idx, 0b0001_0001_0001_0001_0001_0001_0001_0001);
}

#[test]
fn interleave_dim4_u8_half() {
    let idx = <u8 as Interleave<4>>::interleave(0xF0);
    assert_eq!(idx, 0b0001_0001_0001_0001_0000_0000_0000_0000);
}

#[test]
fn interleave_dim2_u64() {
    let idx = <u64 as Interleave<2>>::interleave(u64::MAX);
    assert_eq!(idx, 0x5555_5555_5555_5555_5555_5555_5555_5555);
}

#[test]
fn interleave_odd_large_dimension_interleave() {
    let idx = <u8 as Interleave<13>>::interleave(u8::MAX);
    assert_eq!(idx, 0x0000_0000_0800_4002_0010_0080_0400_2001);
}

#[test]
fn interleave_zero_stays_zero() {
    assert_eq!(<u8 as Interleave<2>>::interleave(0), 0u16);
    assert_eq!(<u16 as Interleave<5>>::interleave(0), 0u128);
    assert_eq!(<u32 as Interleave<3>>::interleave(0), 0u128);
}

#[test]
fn interleave_single_bits() {
    // Bit j of the input lands at bit j * N.
    assert_eq!(<u16 as Interleave<3>>::interleave(1 << 15), 1u64 << 45);
    assert_eq!(<u8 as Interleave<16>>::interleave(0x80), 1u128 << 112);
    assert_eq!(<u32 as Interleave<2>>::interleave(0b1010), 0b100_0100u64);
}
