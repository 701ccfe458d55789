use media_library::content::ContentStore;
use media_library::error::MediaError;

fn fresh_store() -> ContentStore {
    ContentStore::new(String::from("assets"), String::from("thumbs"))
}

#[test]
fn store_then_read_round_trip() {
    let mut store = fresh_store();
    let bytes: Vec<u8> = b"hello world".to_vec();
    let receipt = store.store(&bytes, "greeting.png");
    let back = store.read_all_bytes(&receipt.path).unwrap();
    assert_eq!(back, bytes);
}

#[test]
fn store_uses_sha256_content_address() {
    let mut store = fresh_store();
    let bytes: Vec<u8> = b"hello world".to_vec();
    let receipt = store.store(&bytes, "greeting.png");
    assert_eq!(
        receipt.address,
        "b94d27b9934d3e08a52e52d7da7dabfac484efe37a5380ee9088f7ace2efcde9"
    );
    assert_eq!(
        receipt.path,
        "assets/b94d27b9934d3e08a52e52d7da7dabfac484efe37a5380ee9088f7ace2efcde9.png"
    );
}

#[test]
fn store_address_ignores_suggested_name() {
    let mut store = fresh_store();
    let bytes: Vec<u8> = vec![1, 2, 3, 4, 5];
    let r1 = store.store(&bytes, "first.png");
    let r2 = store.store(&bytes, "second.jpg");
    assert_eq!(r1.address, r2.address);
    assert_ne!(r1.path, r2.path);
}

#[test]
fn repeated_store_overwrites_same_path() {
    let mut store = fresh_store();
    let bytes: Vec<u8> = vec![9, 9, 9];
    let r1 = store.store(&bytes, "a.png");
    let r2 = store.store(&bytes, "b.png");
    assert_eq!(r1.path, r2.path);
    assert!(store.file_exists(&r1.path));
    assert_eq!(store.read_all_bytes(&r1.path).unwrap(), bytes);
}

#[test]
fn extension_falls_back_to_png() {
    let mut store = fresh_store();
    let bytes: Vec<u8> = vec![7];
    let r = store.store(&bytes, "noextension");
    assert!(r.path.ends_with(".png"));
    let r2 = store.store(&bytes, ".gitignore");
    assert!(r2.path.ends_with(".png"));
    let r3 = store.store(&bytes, "archive.tar.gz");
    assert!(r3.path.ends_with(".gz"));
}

#[test]
fn read_missing_is_not_found() {
    let store = fresh_store();
    assert_eq!(
        store.read_all_bytes("assets/absent.png"),
        Err(MediaError::NotFound)
    );
    assert!(!store.file_exists("assets/absent.png"));
}

#[test]
fn remove_asset_reports_each_target() {
    let mut store = fresh_store();
    let bytes: Vec<u8> = vec![1, 2, 3];
    let r = store.store(&bytes, "pic.png");
    let events = store.remove_asset(&r.path);
    assert_eq!(events.len(), 4);
    assert_eq!(events[0].path, r.path);
    assert!(events[0].removed);
    assert!(!events[1].removed);
    assert!(!events[2].removed);
    assert!(!events[3].removed);
    assert!(events[1].path.starts_with("thumbs/"));
    assert!(events[1].path.ends_with("_128.webp"));
    assert!(events[2].path.ends_with("_256.webp"));
    assert!(events[3].path.ends_with("_512.webp"));
    assert!(!store.file_exists(&r.path));
}

#[test]
fn remove_missing_asset_is_a_no_op() {
    let mut store = fresh_store();
    let events = store.remove_asset("assets/nothing.png");
    assert_eq!(events.len(), 4);
    assert!(!events[0].removed);
}

#[test]
fn error_messages_name_each_failure() {
    assert_eq!(MediaError::NotFound.message(), "not found");
    assert_eq!(MediaError::ConstraintViolation.message(), "constraint violation");
    assert_eq!(
        MediaError::FetchError.message(),
        "failed to fetch remote resource"
    );
    assert_eq!(MediaError::DecodeError.message(), "bytes are not a valid image");
    assert_eq!(
        MediaError::CorruptMetadata.message(),
        "stored metadata failed to parse"
    );
    assert_eq!(MediaError::IoError.message(), "filesystem operation failed");
}
