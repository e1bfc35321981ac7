use pathtracer::texture::ImageTexture;

fn two_by_two() -> ImageTexture {
    let data: Vec<u8> = (0..12).collect();
    ImageTexture::from_pixels(2, 2, 3, data).unwrap()
}

#[test]
fn from_pixels_checks_size() {
    assert!(ImageTexture::from_pixels(2, 2, 3, vec![0; 11]).is_none());
    assert!(ImageTexture::from_pixels(0, 2, 3, vec![]).is_none());
    assert!(ImageTexture::from_pixels(2, 2, 3, vec![0; 12]).is_some());
}

#[test]
fn get_color_reads_texel_bytes() {
    let t = two_by_two();
    assert_eq!(t.get_color((0, 0)), vec![0, 1, 2]);
    assert_eq!(t.get_color((1, 0)), vec![3, 4, 5]);
    assert_eq!(t.get_color((0, 1)), vec![6, 7, 8]);
    assert_eq!(t.get_color((1, 1)), vec![9, 10, 11]);
}

#[test]
fn clamp_texel_to_border() {
    let t = two_by_two();
    assert_eq!(t.clamp_texel(5, 1), (1, 1));
    assert_eq!(t.clamp_texel(0, 2), (0, 1));
    assert_eq!(t.clamp_texel(1, 0), (1, 0));
}
