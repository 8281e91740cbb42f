use rtracer::texture::{Texture, TextureSamplingMode};

#[test]
fn new_texture_is_black() {
    let t = Texture::new(3, 2, TextureSamplingMode::Clamp);
    assert_eq!(t.width(), 3);
    assert_eq!(t.height(), 2);
    assert_eq!(t.sampling_mode(), TextureSamplingMode::Clamp);
    assert_eq!(t.get_buffer_read(), &vec![0u32; 6]);
}

#[test]
fn texels_by_row() {
    let t = Texture::from_buffer(vec![1, 2, 3, 4, 5, 6], 3, 2, TextureSamplingMode::Repeat);
    assert_eq!(t.texel(0, 0), Some(1));
    assert_eq!(t.texel(2, 0), Some(3));
    assert_eq!(t.texel(1, 1), Some(5));
    assert_eq!(t.texel(3, 0), None);
    assert_eq!(t.texel(0, 2), None);
    assert_eq!(t.texel(0, usize::MAX), None);
}

#[test]
fn buffer_access() {
    let mut t = Texture::new(2, 1, TextureSamplingMode::Repeat);
    t.get_buffer_mut()[1] = 0xABCDEF;
    assert_eq!(t.get_buffer_clone(), vec![0, 0xABCDEF]);
    t.set_buffer(vec![7, 8]);
    assert_eq!(t.texel(1, 0), Some(8));
    assert_eq!(t.width(), 2);
}
