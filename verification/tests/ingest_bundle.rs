use media_library::content::ContentStore;
use media_library::error::MediaError;
use media_library::ingest::{file_name_from_url, ingest_from_bytes};

fn png_bytes(width: u32, height: u32) -> Vec<u8> {
    let img = image::RgbaImage::from_pixel(width, height, image::Rgba([1, 2, 3, 255]));
    let mut cur = std::io::Cursor::new(Vec::new());
    image::DynamicImage::ImageRgba8(img)
        .write_to(&mut cur, image::ImageFormat::Png)
        .unwrap();
    cur.into_inner()
}

#[test]
fn ingest_stores_and_derives_the_canonical_sizes() {
    let mut store = ContentStore::new(String::from("assets"), String::from("thumbs"));
    let bytes = png_bytes(300, 200);
    let bundle = ingest_from_bytes(&mut store, &bytes, "photo.png").unwrap();
    assert_eq!(bundle.file_name, "photo.png");
    assert_eq!(bundle.hash.len(), 64);
    assert_eq!(bundle.file_path, format!("assets/{}.png", bundle.hash));
    assert!(store.file_exists(&bundle.file_path));
    assert!(store.file_exists(&bundle.thumb_small));
    assert!(store.file_exists(&bundle.thumb_medium));
    assert!(store.file_exists(&bundle.thumb_large));
    assert_eq!(bundle.thumb_small, format!("thumbs/{}_128.webp", bundle.hash));
    assert_eq!(bundle.thumb_medium, format!("thumbs/{}_256.webp", bundle.hash));
    assert_eq!(bundle.thumb_large, format!("thumbs/{}_512.webp", bundle.hash));
    let small = store.read_all_bytes(&bundle.thumb_small).unwrap();
    let img = image::load_from_memory(&small).unwrap();
    let (w, h) = image::GenericImageView::dimensions(&img);
    assert!(w <= 128 && h <= 128);
    assert_eq!((w, h), (128, 85));
}

#[test]
fn ingest_round_trips_the_canonical_bytes() {
    let mut store = ContentStore::new(String::from("assets"), String::from("thumbs"));
    let bytes = png_bytes(8, 8);
    let bundle = ingest_from_bytes(&mut store, &bytes, "tiny.png").unwrap();
    assert_eq!(store.read_all_bytes(&bundle.file_path).unwrap(), bytes);
}

#[test]
fn ingest_of_junk_fails_but_leaves_the_file() {
    let mut store = ContentStore::new(String::from("assets"), String::from("thumbs"));
    let junk: Vec<u8> = vec![42; 16];
    let r = ingest_from_bytes(&mut store, &junk, "junk.bin");
    assert!(matches!(r, Err(MediaError::DecodeError)));
    let paths: Vec<String> = store.files.iter().map(|f| f.path.clone()).collect();
    assert_eq!(paths.len(), 1);
    assert!(paths[0].starts_with("assets/"));
    assert!(paths[0].ends_with(".bin"));
}

#[test]
fn url_file_names_take_the_final_segment() {
    assert_eq!(file_name_from_url("http://example.test/a/b/z.png"), "z.png");
    assert_eq!(file_name_from_url("http://example.test/a/b/"), "image.png");
    assert_eq!(file_name_from_url("plainname"), "plainname");
    assert_eq!(file_name_from_url(""), "image.png");
}
