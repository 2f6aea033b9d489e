use raytracer::ImageTexture;
use std::io::Cursor;

fn two_by_two() -> Vec<u8> {
    vec![
        1, 2, 3, 4, 5, 6, // top row
        7, 8, 9, 10, 11, 12, // bottom row
    ]
}

#[test]
fn empty_texture_has_no_texel() {
    let t = ImageTexture::new_0();
    assert_eq!(t.pixel(0, 0), None);
    assert_eq!(t.pixel(-4, 9), None);
}

#[test]
fn texel_lookup_reads_three_bytes() {
    let t = ImageTexture::from_rgb(two_by_two(), 2, 2).unwrap();
    assert_eq!(t.pixel(0, 0), Some((1, 2, 3)));
    assert_eq!(t.pixel(1, 0), Some((4, 5, 6)));
    assert_eq!(t.pixel(0, 1), Some((7, 8, 9)));
    assert_eq!(t.pixel(1, 1), Some((10, 11, 12)));
}

#[test]
fn texel_lookup_clamps_coordinates() {
    let t = ImageTexture::from_rgb(two_by_two(), 2, 2).unwrap();
    assert_eq!(t.pixel(2, 0), Some((4, 5, 6)));
    assert_eq!(t.pixel(100, 100), Some((10, 11, 12)));
    assert_eq!(t.pixel(-1, -7), Some((1, 2, 3)));
    assert_eq!(t.pixel(i32::MAX, i32::MIN), Some((4, 5, 6)));
}

#[test]
fn wrong_byte_count_is_refused() {
    assert!(ImageTexture::from_rgb(vec![0; 11], 2, 2).is_none());
    assert!(ImageTexture::from_rgb(vec![0; 13], 2, 2).is_none());
    assert!(ImageTexture::from_rgb(vec![], u32::MAX, 0).is_none());
    assert!(ImageTexture::from_rgb(vec![], 0, 0).is_some());
}

#[test]
fn zero_width_texture_has_no_texel() {
    let t = ImageTexture::from_rgb(vec![], 0, 5).unwrap();
    assert_eq!(t.pixel(0, 0), None);
}

#[test]
fn encoded_png_decodes_to_its_texels() {
    let img = image::RgbImage::from_raw(2, 2, two_by_two()).unwrap();
    let mut bytes: Vec<u8> = Vec::new();
    image::DynamicImage::ImageRgb8(img)
        .write_to(&mut Cursor::new(&mut bytes), image::ImageOutputFormat::Png)
        .unwrap();
    let t = ImageTexture::new(&bytes).unwrap();
    assert_eq!(t.pixel(0, 0), Some((1, 2, 3)));
    assert_eq!(t.pixel(1, 1), Some((10, 11, 12)));
}

#[test]
fn encoded_rgba_png_loses_its_alpha() {
    let img = image::RgbaImage::from_raw(1, 2, vec![1, 2, 3, 200, 4, 5, 6, 100]).unwrap();
    let mut bytes: Vec<u8> = Vec::new();
    image::DynamicImage::ImageRgba8(img)
        .write_to(&mut Cursor::new(&mut bytes), image::ImageOutputFormat::Png)
        .unwrap();
    let t = ImageTexture::new(&bytes).unwrap();
    assert_eq!(t.pixel(0, 0), Some((1, 2, 3)));
    assert_eq!(t.pixel(0, 1), Some((4, 5, 6)));
}

#[test]
fn garbage_does_not_decode() {
    assert!(ImageTexture::new(&[1, 2, 3, 4, 5]).is_none());
    assert!(ImageTexture::new(&[]).is_none());
}
