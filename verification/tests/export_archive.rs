use media_library::content::{ContentStore, StoredFile};
use media_library::export::{export_assets, resolve_export_path, select_export_entries};

#[test]
fn export_skips_missing_paths_and_counts_the_rest() {
    let mut store = ContentStore::new(String::from("assets"), String::from("thumbs"));
    let bytes: Vec<u8> = b"picture bytes".to_vec();
    let receipt = store.store(&bytes, "a.png");
    let paths = vec![receipt.path.clone(), String::from("assets/nonexistent.png")];
    let outcome = export_assets(&store, &paths);
    assert_eq!(outcome.exported, 1);
    let mut archive =
        zip::ZipArchive::new(std::io::Cursor::new(outcome.archive)).unwrap();
    assert_eq!(archive.len(), 1);
    let mut entry = archive.by_index(0).unwrap();
    assert!(entry.name().ends_with(".png"));
    let mut contents = Vec::new();
    std::io::Read::read_to_end(&mut entry, &mut contents).unwrap();
    assert_eq!(contents, bytes);
}

#[test]
fn export_selection_names_entries_by_base_name() {
    let mut store = ContentStore::new(String::from("assets"), String::from("thumbs"));
    let bytes: Vec<u8> = vec![5, 5, 5];
    let receipt = store.store(&bytes, "b.gif");
    let paths = vec![receipt.path.clone()];
    let entries = select_export_entries(&store, &paths);
    assert_eq!(entries.len(), 1);
    assert_eq!(entries[0].name, format!("{}.gif", receipt.address));
    assert_eq!(entries[0].bytes, bytes);
}

#[test]
fn unnameable_paths_are_skipped_not_fatal() {
    let mut store = ContentStore::new(String::from("assets"), String::from("thumbs"));
    store.files.push(StoredFile { path: String::from("strange/"), bytes: vec![1] });
    let good: Vec<u8> = vec![2, 2];
    let receipt = store.store(&good, "kept.png");
    let paths = vec![String::from("strange/"), receipt.path.clone()];
    let outcome = export_assets(&store, &paths);
    assert_eq!(outcome.exported, 1);
    let archive = zip::ZipArchive::new(std::io::Cursor::new(outcome.archive)).unwrap();
    assert_eq!(archive.len(), 1);
}

#[test]
fn repeated_base_names_are_archived_once() {
    let mut store = ContentStore::new(String::from("assets"), String::from("thumbs"));
    let bytes: Vec<u8> = vec![7, 7, 7, 7];
    let receipt = store.store(&bytes, "twice.png");
    let paths = vec![receipt.path.clone(), receipt.path.clone()];
    let outcome = export_assets(&store, &paths);
    assert_eq!(outcome.exported, 1);
    let archive = zip::ZipArchive::new(std::io::Cursor::new(outcome.archive)).unwrap();
    assert_eq!(archive.len(), 1);
}

#[test]
fn overlong_entry_names_are_skipped() {
    let mut store = ContentStore::new(String::from("assets"), String::from("thumbs"));
    let long_name = format!("f.{}", "e".repeat(17000));
    let first = store.store(&vec![3, 3], &long_name);
    let second = store.store(&vec![4, 4], "ok.png");
    let paths = vec![first.path.clone(), second.path.clone()];
    let outcome = export_assets(&store, &paths);
    assert_eq!(outcome.exported, 1);
    let mut archive =
        zip::ZipArchive::new(std::io::Cursor::new(outcome.archive)).unwrap();
    assert_eq!(archive.len(), 1);
    assert!(archive.by_index(0).unwrap().name().ends_with(".png"));
}

#[test]
fn empty_export_produces_an_empty_archive() {
    let store = ContentStore::new(String::from("assets"), String::from("thumbs"));
    let outcome = export_assets(&store, &Vec::new());
    assert_eq!(outcome.exported, 0);
    let archive = zip::ZipArchive::new(std::io::Cursor::new(outcome.archive)).unwrap();
    assert_eq!(archive.len(), 0);
}

#[test]
fn export_paths_resolve_to_a_zip_file() {
    assert_eq!(resolve_export_path("/tmp/out.zip", 42), "/tmp/out.zip");
    assert_eq!(
        resolve_export_path("/tmp/folder", 1234567890),
        "/tmp/folder/meme_export_1234567890.zip"
    );
}
