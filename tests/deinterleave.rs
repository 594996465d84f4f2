use zorder::Deinterleave;

#[test]
fn deinterleave_dim2_u8() {
    let x = <u16 as Deinterleave<2>>::deinterleave(2u16, 0);
    let y = <u16 as Deinterleave<2>>::deinterleave(2u16, 1);

    assert_eq!(x, 0);
    assert_eq!(y, 1);
}

#[test]
fn deinterleave_dim3_u8() {
    let x = <u32 as Deinterleave<3>>::deinterleave(2u32, 0);
    let y = <u32 as Deinterleave<3>>::deinterleave(2u32, 1);
    let z = <u32 as Deinterleave<3>>::deinterleave(2u32, 2);

    assert_eq!(x, 0);
    assert_eq!(y, 1);
    assert_eq!(z, 0);
}

#[test]
fn deinterleave_dim4_u8() {
    let x = <u32 as Deinterleave<4>>::deinterleave(2u32, 0);
    let y = <u32 as Deinterleave<4>>::deinterleave(2u32, 1);
    let z = <u32 as Deinterleave<4>>::deinterleave(2u32, 2);
    let w = <u32 as Deinterleave<4>>::deinterleave(2u32, 3);

    assert_eq!(x, 0);
    assert_eq!(y, 1);
    assert_eq!(z, 0);
    assert_eq!(w, 0);
}

#[test]
fn deinterleave_dim2_u64() {
    let x = <u128 as Deinterleave<2>>::deinterleave(0x5555_5555_5555_5555_5555_5555_5555_5555, 0);
    let y = <u128 as Deinterleave<2>>::deinterleave(0x5555_5555_5555_5555_5555_5555_5555_5555, 1);

    assert_eq!(x, u64::MAX);
    assert_eq!(y, 0);
}

#[test]
fn deinterleave_odd_large_dimension_interleave() {
    let idx =
        <u128 as Deinterleave<13>>::deinterleave(0x0000_0000_0800_4002_0010_0080_0400_2001, 0);
    assert_eq!(idx, u8::MAX);
}

#[test]
fn deinterleave_from_an_offset_past_the_axes() {
    // Starting at bit 2 of a 2-axis index reads axis 0 from its second bit on.
    let x = <u16 as Deinterleave<2>>::deinterleave(0b0101_0100u16, 2);
    assert_eq!(x, 0b0111);
}

#[test]
fn deinterleave_all_ones_each_axis() {
    for lsb in 0..16 {
        let c = <u128 as Deinterleave<16>>::deinterleave(u128::MAX, lsb);
        assert_eq!(c, u8::MAX);
    }
}
