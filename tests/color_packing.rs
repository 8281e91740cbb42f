use rtracer::color::{u32_from_u8_rgb, u8_from_u32};

#[test]
fn splits_packed_color() {
    assert_eq!(u8_from_u32(0x123456), (0x12, 0x34, 0x56));
    assert_eq!(u8_from_u32(0xFF12_3456), (0x12, 0x34, 0x56));
    assert_eq!(u8_from_u32(0), (0, 0, 0));
}

#[test]
fn packs_color_bytes() {
    assert_eq!(u32_from_u8_rgb(0x12, 0x34, 0x56), 0x123456);
    assert_eq!(u32_from_u8_rgb(255, 255, 255), 0xFFFFFF);
}

#[test]
fn pack_then_split_round_trip() {
    for &(r, g, b) in &[(0u8, 0u8, 0u8), (1, 2, 3), (255, 0, 128), (17, 255, 42)] {
        assert_eq!(u8_from_u32(u32_from_u8_rgb(r, g, b)), (r, g, b));
    }
    for &c in &[0u32, 0x00ABCDEF, 0x00FFFFFF, 0x00010203] {
        let (r, g, b) = u8_from_u32(c);
        assert_eq!(u32_from_u8_rgb(r, g, b), c);
    }
}
