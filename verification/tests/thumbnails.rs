use media_library::content::{ContentStore, StoredFile};
use media_library::error::MediaError;
use media_library::thumbs::{derive_thumbnails, fit_box, ThumbnailSizes};

fn png_bytes(width: u32, height: u32) -> Vec<u8> {
    let img = image::RgbaImage::from_pixel(width, height, image::Rgba([10, 20, 30, 255]));
    let mut cur = std::io::Cursor::new(Vec::new());
    image::DynamicImage::ImageRgba8(img)
        .write_to(&mut cur, image::ImageFormat::Png)
        .unwrap();
    cur.into_inner()
}

fn decoded_size(bytes: &[u8]) -> (u32, u32) {
    let img = image::load_from_memory(bytes).unwrap();
    image::GenericImageView::dimensions(&img)
}

#[test]
fn fit_box_keeps_the_bounding_box() {
    assert_eq!(fit_box(64, 32, 16), (16, 8));
    assert_eq!(fit_box(32, 64, 16), (8, 16));
    assert_eq!(fit_box(100, 100, 128), (128, 128));
    assert_eq!(fit_box(3, 1, 10), (10, 3));
    assert_eq!(fit_box(1000, 1, 10), (10, 1));
}

#[test]
fn derive_thumbnails_bounds_each_rendition() {
    let mut store = ContentStore::new(String::from("assets"), String::from("thumbs"));
    let src = png_bytes(64, 32);
    let receipt = store.store(&src, "wide.png");
    let sizes = ThumbnailSizes { small: 16, medium: 32, large: 48 };
    let tp = derive_thumbnails(&mut store, &receipt.path, &sizes).unwrap();
    let small = store.read_all_bytes(&tp.small).unwrap();
    let medium = store.read_all_bytes(&tp.medium).unwrap();
    let large = store.read_all_bytes(&tp.large).unwrap();
    assert_eq!(decoded_size(&small), (16, 8));
    assert_eq!(decoded_size(&medium), (32, 16));
    assert_eq!(decoded_size(&large), (48, 24));
    assert!(tp.small.starts_with("thumbs/"));
    assert!(tp.small.ends_with("_16.webp"));
    assert!(tp.small.contains(&receipt.address));
}

#[test]
fn derive_thumbnails_upscales_to_the_canonical_boxes() {
    let mut store = ContentStore::new(String::from("assets"), String::from("thumbs"));
    let src = png_bytes(100, 100);
    let receipt = store.store(&src, "square.png");
    let tp = derive_thumbnails(&mut store, &receipt.path, &ThumbnailSizes::canonical())
        .unwrap();
    let small = store.read_all_bytes(&tp.small).unwrap();
    let large = store.read_all_bytes(&tp.large).unwrap();
    assert_eq!(decoded_size(&small), (128, 128));
    assert_eq!(decoded_size(&large), (512, 512));
}

#[test]
fn undecodable_source_commits_no_thumbnail() {
    let mut store = ContentStore::new(String::from("assets"), String::from("thumbs"));
    let junk: Vec<u8> = vec![0, 1, 2, 3, 4, 5, 6, 7];
    let receipt = store.store(&junk, "junk.png");
    let r = derive_thumbnails(&mut store, &receipt.path, &ThumbnailSizes::canonical());
    assert!(matches!(r, Err(MediaError::DecodeError)));
    let stem_thumb = format!("thumbs/{}_128.webp", receipt.address);
    assert!(!store.file_exists(&stem_thumb));
    assert!(store.file_exists(&receipt.path));
}

#[test]
fn source_without_a_stem_is_an_io_error() {
    let mut store = ContentStore::new(String::from("assets"), String::from("thumbs"));
    store.files.push(StoredFile { path: String::from("assets/"), bytes: png_bytes(4, 4) });
    let r = derive_thumbnails(&mut store, "assets/", &ThumbnailSizes::canonical());
    assert!(matches!(r, Err(MediaError::IoError)));
}

#[test]
fn missing_source_is_not_found() {
    let mut store = ContentStore::new(String::from("assets"), String::from("thumbs"));
    let r = derive_thumbnails(&mut store, "assets/absent.png", &ThumbnailSizes::canonical());
    assert!(matches!(r, Err(MediaError::NotFound)));
}
