use laberinto::texture::Texture;

fn png_bytes(width: u32, height: u32, rgb: Vec<u8>) -> Vec<u8> {
    let img = image::RgbImage::from_raw(width, height, rgb).unwrap();
    let mut bytes: Vec<u8> = Vec::new();
    img.write_to(&mut std::io::Cursor::new(&mut bytes), image::ImageFormat::Png).unwrap();
    bytes
}

#[test]
fn decodes_png_pixels() {
    let bytes = png_bytes(2, 2, vec![255, 0, 0, 0, 255, 0, 0, 0, 255, 10, 20, 30]);
    let t = Texture::new(&bytes).unwrap();
    assert_eq!((t.width, t.height), (2, 2));
    assert_eq!(t.get_pixel_color(0, 0), 0xFF0000);
    assert_eq!(t.get_pixel_color(1, 0), 0x00FF00);
    assert_eq!(t.get_pixel_color(0, 1), 0x0000FF);
    assert_eq!(t.get_pixel_color(1, 1), 0x0A141E);
}

#[test]
fn rejects_bytes_that_are_no_image() {
    assert!(Texture::new(&[1, 2, 3, 4]).is_none());
    assert!(Texture::new(&[]).is_none());
}

#[test]
fn lookups_beyond_the_edge_are_white() {
    let t = Texture::from_rgb(1, 1, vec![1, 2, 3]);
    assert_eq!(t.get_pixel_color(0, 0), 0x010203);
    assert_eq!(t.get_pixel_color(2, 0), 0xFFFFFF);
    assert_eq!(t.get_pixel_color(0, 2), 0xFFFFFF);
}

#[test]
fn color_array_is_zeroed() {
    let t = Texture::from_rgb(3, 2, vec![0; 18]);
    assert_eq!(t.color_array.len(), 2);
    assert!(t.color_array.iter().all(|row| row.len() == 3 && row.iter().all(|&c| c == 0)));
    assert_eq!(t.get_pixel(0, 1), 0);
    assert_eq!(t.get_pixel(1, 0), 0);
    assert_eq!(t.get_pixel(3, 0), 0xFFFFFF);
    assert_eq!(t.get_pixel(0, 2), 0xFFFFFF);
}
