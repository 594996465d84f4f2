use zorder::bmi2::{axis_mask, HardwareSupportToken};

#[test]
fn no_token_without_support() {
    assert!(HardwareSupportToken::new(false).is_none());
}

#[test]
fn token_with_support() {
    let token = HardwareSupportToken::new(true);
    assert!(token.is_some());
    let copied = token;
    assert_eq!(copied, token);
}

#[test]
fn axis_masks_select_every_nth_bit() {
    assert_eq!(axis_mask::<u32>(3, 0), 0x4924_9249);
    assert_eq!(axis_mask::<u32>(3, 1), 0x9249_2492);
    assert_eq!(axis_mask::<u32>(3, 2), 0x2492_4924);
    assert_eq!(axis_mask::<u64>(2, 1), 0xAAAA_AAAA_AAAA_AAAA);
    assert_eq!(axis_mask::<u16>(2, 0), 0x5555);
}
