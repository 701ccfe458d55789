use media_library::error::MediaError;
use media_library::metadata::{CreateAssetRequest, CreateTagRequest, Database};

fn asset_request(path: &str, name: &str) -> CreateAssetRequest {
    CreateAssetRequest {
        file_path: String::from(path),
        file_name: String::from(name),
        file_size: 100,
        mime_type: String::from("image/png"),
        width: Some(64),
        height: Some(32),
    }
}

fn tag_request(name: &str) -> CreateTagRequest {
    CreateTagRequest { name: String::from(name), color: None }
}

#[test]
fn create_and_get_asset() {
    let mut db = Database::new();
    let asset = db.create_asset(asset_request("/a/1.png", "1.png")).unwrap();
    assert_eq!(asset.file_path, "/a/1.png");
    assert_eq!(asset.file_name, "1.png");
    assert_eq!(asset.file_size, 100);
    assert_eq!(asset.mime_type, "image/png");
    assert_eq!(asset.width, Some(64));
    assert_eq!(asset.height, Some(32));
    assert_eq!(asset.created_at, asset.updated_at);
    assert_eq!(asset.id.len(), 36);
    let got = db.get_asset(&asset.id).unwrap();
    assert_eq!(got.id, asset.id);
    assert_eq!(got.file_path, asset.file_path);
}

#[test]
fn get_missing_asset_is_none() {
    let db = Database::new();
    assert!(db.get_asset("no-such-id").is_none());
}

#[test]
fn duplicate_path_is_a_constraint_violation() {
    let mut db = Database::new();
    db.create_asset(asset_request("/a/1.png", "1.png")).unwrap();
    let second = db.create_asset(asset_request("/a/1.png", "other.png"));
    assert_eq!(second.unwrap_err(), MediaError::ConstraintViolation);
    assert_eq!(db.list_assets(None, None).len(), 1);
}

#[test]
fn list_assets_returns_newest_first() {
    let mut db = Database::new();
    let first = db.create_asset(asset_request("/a/1.png", "1.png")).unwrap();
    let second = db.create_asset(asset_request("/a/2.png", "2.png")).unwrap();
    let page = db.list_assets(Some(1), Some(0));
    assert_eq!(page.len(), 1);
    assert_eq!(page[0].file_path, second.file_path);
    let rest = db.list_assets(Some(1), Some(1));
    assert_eq!(rest.len(), 1);
    assert_eq!(rest[0].file_path, first.file_path);
}

#[test]
fn list_assets_defaults_and_bounds() {
    let mut db = Database::new();
    db.create_asset(asset_request("/a/1.png", "1.png")).unwrap();
    db.create_asset(asset_request("/a/2.png", "2.png")).unwrap();
    assert_eq!(db.list_assets(None, None).len(), 2);
    assert_eq!(db.list_assets(Some(-1), None).len(), 2);
    assert_eq!(db.list_assets(Some(10), Some(5)).len(), 0);
    assert_eq!(db.list_assets(Some(0), None).len(), 0);
}

#[test]
fn delete_asset_reports_presence() {
    let mut db = Database::new();
    let asset = db.create_asset(asset_request("/a/1.png", "1.png")).unwrap();
    assert!(db.delete_asset(&asset.id));
    assert!(!db.delete_asset(&asset.id));
    assert!(db.get_asset(&asset.id).is_none());
}

#[test]
fn duplicate_tag_name_is_a_constraint_violation() {
    let mut db = Database::new();
    db.create_tag(tag_request("funny")).unwrap();
    let second = db.create_tag(tag_request("funny"));
    assert_eq!(second.unwrap_err(), MediaError::ConstraintViolation);
    assert_eq!(db.list_tags().len(), 1);
}

#[test]
fn list_tags_is_sorted_by_name() {
    let mut db = Database::new();
    db.create_tag(tag_request("zebra")).unwrap();
    db.create_tag(tag_request("apple")).unwrap();
    db.create_tag(tag_request("mango")).unwrap();
    let names: Vec<String> = db.list_tags().into_iter().map(|t| t.name).collect();
    assert_eq!(names, vec!["apple", "mango", "zebra"]);
}

#[test]
fn add_tag_to_asset_is_idempotent() {
    let mut db = Database::new();
    let asset = db.create_asset(asset_request("/a/1.png", "1.png")).unwrap();
    let tag = db.create_tag(tag_request("funny")).unwrap();
    db.add_tag_to_asset(&asset.id, &tag.id).unwrap();
    db.add_tag_to_asset(&asset.id, &tag.id).unwrap();
    let tags = db.get_asset_tags(&asset.id);
    assert_eq!(tags.len(), 1);
    assert_eq!(tags[0].name, "funny");
}

#[test]
fn add_tag_with_missing_endpoint_is_not_found() {
    let mut db = Database::new();
    let asset = db.create_asset(asset_request("/a/1.png", "1.png")).unwrap();
    let tag = db.create_tag(tag_request("funny")).unwrap();
    assert_eq!(
        db.add_tag_to_asset("missing", &tag.id),
        Err(MediaError::NotFound)
    );
    assert_eq!(
        db.add_tag_to_asset(&asset.id, "missing"),
        Err(MediaError::NotFound)
    );
    assert_eq!(db.get_asset_tags(&asset.id).len(), 0);
}

#[test]
fn remove_tag_from_asset_reports_presence() {
    let mut db = Database::new();
    let asset = db.create_asset(asset_request("/a/1.png", "1.png")).unwrap();
    let tag = db.create_tag(tag_request("funny")).unwrap();
    db.add_tag_to_asset(&asset.id, &tag.id).unwrap();
    assert!(db.remove_tag_from_asset(&asset.id, &tag.id));
    assert!(!db.remove_tag_from_asset(&asset.id, &tag.id));
    assert_eq!(db.get_asset_tags(&asset.id).len(), 0);
}

#[test]
fn deleting_a_tag_cascades_but_spares_the_rest() {
    let mut db = Database::new();
    let a1 = db.create_asset(asset_request("/a/1.png", "1.png")).unwrap();
    let a2 = db.create_asset(asset_request("/a/2.png", "2.png")).unwrap();
    let funny = db.create_tag(tag_request("funny")).unwrap();
    let cats = db.create_tag(tag_request("cats")).unwrap();
    db.add_tag_to_asset(&a1.id, &funny.id).unwrap();
    db.add_tag_to_asset(&a2.id, &funny.id).unwrap();
    db.add_tag_to_asset(&a2.id, &cats.id).unwrap();
    assert!(db.delete_tag(&funny.id));
    assert_eq!(db.get_asset_tags(&a1.id).len(), 0);
    let left = db.get_asset_tags(&a2.id);
    assert_eq!(left.len(), 1);
    assert_eq!(left[0].name, "cats");
    assert!(db.get_asset(&a1.id).is_some());
    assert!(db.get_asset(&a2.id).is_some());
    assert_eq!(db.list_tags().len(), 1);
}

#[test]
fn deleting_an_asset_cascades_but_spares_the_rest() {
    let mut db = Database::new();
    let a1 = db.create_asset(asset_request("/a/1.png", "1.png")).unwrap();
    let a2 = db.create_asset(asset_request("/a/2.png", "2.png")).unwrap();
    let funny = db.create_tag(tag_request("funny")).unwrap();
    db.add_tag_to_asset(&a1.id, &funny.id).unwrap();
    db.add_tag_to_asset(&a2.id, &funny.id).unwrap();
    assert!(db.delete_asset(&a1.id));
    assert_eq!(db.list_tags().len(), 1);
    let left = db.get_asset_tags(&a2.id);
    assert_eq!(left.len(), 1);
    assert_eq!(left[0].name, "funny");
}

#[test]
fn scenario_tag_then_asset_then_attach() {
    let mut db = Database::new();
    let tag = db.create_tag(tag_request("funny")).unwrap();
    let asset = db.create_asset(asset_request("/a/1.png", "1.png")).unwrap();
    db.add_tag_to_asset(&asset.id, &tag.id).unwrap();
    let names: Vec<String> =
        db.get_asset_tags(&asset.id).into_iter().map(|t| t.name).collect();
    assert_eq!(names, vec!["funny"]);
}
