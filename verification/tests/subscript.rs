use rentt::utils::subscript::Subscript;

#[test]
fn subscript_round_trip() {
    for v in [0u8, 1, 200, u8::MAX] {
        assert_eq!(u8::from_subscript(v.into_subscript()), v);
    }
    for v in [0u16, 7, 0x1234, u16::MAX] {
        assert_eq!(u16::from_subscript(v.into_subscript()), v);
    }
    for v in [0u32, 99, 0x00FF_FFFF, u32::MAX] {
        assert_eq!(u32::from_subscript(v.into_subscript()), v);
    }
    assert_eq!(usize::from_subscript(12345usize.into_subscript()), 12345);
}

#[test]
fn subscript_keeps_low_bits() {
    assert_eq!(u8::from_subscript(0x1FF), 0xFF);
    assert_eq!(u8::from_subscript(0x100), 0);
    assert_eq!(u16::from_subscript(0x1_0005), 5);
    assert_eq!(<u8 as Subscript>::MAX, 255);
    assert_eq!(<u16 as Subscript>::MAX.into_subscript(), 0xFFFF);
}
