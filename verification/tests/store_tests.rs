use s3_storage::blob::ObjectStore;
use s3_storage::error::StoreError;
use s3_storage::multipart::{UploadState, UploadStore};
use s3_storage::parts::{is_contiguous, part_references, PartRecord};
use s3_storage::table::Table;
use s3_storage::versioning::{create_delete_marker, VersionInfo, VersionStore};
use std::collections::HashMap;

fn version(id: &str, bucket: &str, key: &str) -> VersionInfo {
    VersionInfo {
        version_id: id.to_string(),
        bucket: bucket.to_string(),
        key: key.to_string(),
        is_latest: true,
        is_delete_marker: false,
        size: 3,
        last_modified: 11,
        etag: "tag".to_string(),
        storage_ref: "ref".to_string(),
    }
}

fn part(reference: &str) -> PartRecord {
    PartRecord {
        etag: "tag".to_string(),
        size: 1,
        storage_ref: reference.to_string(),
    }
}

#[test]
fn error_classes_have_their_status() {
    assert_eq!(StoreError::NotFound.status_code(), 404);
    assert_eq!(StoreError::Conflict.status_code(), 409);
    assert_eq!(StoreError::BadRequest.status_code(), 400);
    assert_eq!(StoreError::Internal.status_code(), 500);
}

#[test]
fn a_table_keeps_the_last_value_of_a_name() {
    let mut table: Table<u32> = Table::new();
    assert_eq!(table.len(), 0);
    assert_eq!(table.insert("a".to_string(), 1), None);
    assert_eq!(table.insert("b".to_string(), 2), None);
    assert_eq!(table.insert("a".to_string(), 3), Some(1));
    assert_eq!(table.len(), 2);
    assert_eq!(table.get("a"), Some(&3));
    assert_eq!(table.get("b"), Some(&2));
    assert_eq!(table.get("c"), None);
    assert!(table.contains_key("b"));
    assert_eq!(table.key_at(0), "a");
    assert_eq!(*table.value_at(1), 2);
    assert_eq!(table.remove("a"), Some(3));
    assert_eq!(table.remove("a"), None);
    assert_eq!(table.len(), 1);
    assert!(!table.contains_key("a"));
    assert_eq!(table.key_at(0), "b");
}

#[test]
fn the_blob_store_hands_out_a_reference_once() {
    let mut store = ObjectStore::new();
    let first = store.put(b"same".to_vec()).unwrap();
    let second = store.put(b"same".to_vec()).unwrap();
    assert_eq!(first, "0-51037a4a37730f52c8732586d3aaa316");
    assert_eq!(second, "1-51037a4a37730f52c8732586d3aaa316");
    assert_eq!(store.len(), 2);
    assert_eq!(store.get(&first).unwrap(), &b"same".to_vec());
    assert!(store.contains(&second));
    assert!(store.delete(&first).is_ok());
    assert!(matches!(store.get(&first), Err(StoreError::NotFound)));
    assert!(matches!(store.delete(&first), Err(StoreError::NotFound)));
    assert_eq!(store.get(&second).unwrap(), &b"same".to_vec());
    let third = store.put(b"other".to_vec()).unwrap();
    assert!(third.starts_with("2-"));
    assert!(!store.full());
}

#[test]
fn version_identifiers_are_issued_in_order() {
    let mut store = VersionStore::new();
    assert_eq!(store.generate_version_id().unwrap(), "1");
    assert_eq!(store.generate_version_id().unwrap(), "2");
    for _ in 0..13 {
        store.generate_version_id().unwrap();
    }
    assert_eq!(store.generate_version_id().unwrap(), "10");
    assert!(!store.exhausted());
}

#[test]
fn a_version_is_admitted_under_an_issued_identifier() {
    let mut store = VersionStore::new();
    let id = store.generate_version_id().unwrap();
    assert!(store.add_version("b", "k", version(&id, "b", "k")).is_ok());
    let next = store.generate_version_id().unwrap();
    let mut second = version(&next, "b", "k");
    second.is_latest = false;
    assert!(store.add_version("b", "k", second).is_ok());
    let history = store.get_versions("b", "k");
    assert_eq!(history.len(), 2);
    assert!(!history[0].is_latest);
    assert!(history[1].is_latest);
    assert_eq!(store.get_latest_version("b", "k").unwrap().version_id, next);
    assert_eq!(store.get_version("b", "k", &id).unwrap().version_id, id);
    assert!(store.get_version("b", "k", "77").is_none());
    assert!(store.get_version("b", "other", &id).is_none());
    assert!(store.get_latest_version("nobucket", "k").is_none());
    assert!(store.get_versions("b", "nokey").is_empty());
}

#[test]
fn a_version_that_names_another_key_is_a_bad_request() {
    let mut store = VersionStore::new();
    let id = store.generate_version_id().unwrap();
    let r = store.add_version("b", "k", version(&id, "b", "other"));
    assert!(matches!(r, Err(StoreError::BadRequest)));
    let r = store.add_version("b", "k", version(&id, "x", "k"));
    assert!(matches!(r, Err(StoreError::BadRequest)));
    assert!(store.get_versions("b", "k").is_empty());
    assert!(!store.versioning_enabled("b"));
}

#[test]
fn a_version_under_an_identifier_of_the_caller_is_taken_in() {
    let mut store = VersionStore::new();
    let mut first = version("1", "b", "k");
    first.size = 1;
    first.last_modified = 0;
    first.etag = "x".to_string();
    let mut second = first.clone();
    second.version_id = "2".to_string();
    assert!(store.add_version("b", "k", first).is_ok());
    assert!(store.add_version("b", "k", second).is_ok());
    let history = store.get_versions("b", "k");
    let ids: Vec<&str> = history.iter().map(|v| v.version_id.as_str()).collect();
    let flags: Vec<bool> = history.iter().map(|v| v.is_latest).collect();
    assert_eq!(ids, vec!["1", "2"]);
    assert_eq!(flags, vec![false, true]);
    assert_eq!(store.get_latest_version("b", "k").unwrap().version_id, "2");
    assert!(!store.get_version("b", "k", "1").unwrap().is_latest);
    assert!(store.versioning_enabled("b"));
}

#[test]
fn the_counter_moves_past_an_identifier_of_the_caller() {
    let mut store = VersionStore::new();
    assert!(store.add_version("b", "k", version("a0", "b", "k")).is_ok());
    assert_eq!(store.generate_version_id().unwrap(), "a1");
    assert!(store.add_version("b", "j", version("5", "b", "j")).is_ok());
    assert_eq!(store.generate_version_id().unwrap(), "a2");
    let appended = store
        .append("b", "k", "r".to_string(), 1, "t".to_string(), false, 1)
        .unwrap();
    assert_eq!(appended.version_id, "a3");
    let history = store.get_versions("b", "k");
    assert_eq!(history.len(), 2);
    assert!(history[1].is_latest && !history[0].is_latest);
}

#[test]
fn a_version_under_a_text_that_is_no_identifier_is_a_bad_request() {
    let mut store = VersionStore::new();
    let r = store.add_version("b", "k", version("zz", "b", "k"));
    assert!(matches!(r, Err(StoreError::BadRequest)));
    let r = store.add_version("b", "k", version("", "b", "k"));
    assert!(matches!(r, Err(StoreError::BadRequest)));
    let r = store.add_version("b", "k", version("01", "b", "k"));
    assert!(matches!(r, Err(StoreError::BadRequest)));
    let r = store.add_version("b", "k", version("1F", "b", "k"));
    assert!(matches!(r, Err(StoreError::BadRequest)));
    assert!(store.get_versions("b", "k").is_empty());
    assert_eq!(store.generate_version_id().unwrap(), "1");
}

#[test]
fn the_last_identifier_of_the_counter_is_not_taken_in() {
    let mut store = VersionStore::new();
    let r = store.add_version("b", "k", version("ffffffffffffffff", "b", "k"));
    assert!(matches!(r, Err(StoreError::Internal)));
    assert!(store.get_versions("b", "k").is_empty());
    assert!(store
        .add_version("b", "k", version("fffffffffffffffe", "b", "k"))
        .is_ok());
    assert!(store.exhausted());
    let r = store.generate_version_id();
    assert!(matches!(r, Err(StoreError::Internal)));
    let r = store.append("b", "k", "r".to_string(), 1, "t".to_string(), false, 1);
    assert!(matches!(r, Err(StoreError::Internal)));
    assert!(matches!(
        create_delete_marker(&mut store, "b", "k", 1),
        Err(StoreError::Internal)
    ));
    assert_eq!(store.get_versions("b", "k").len(), 1);
}

#[test]
fn a_version_that_is_not_newer_than_the_history_is_a_conflict() {
    let mut store = VersionStore::new();
    let first = store.generate_version_id().unwrap();
    let second = store.generate_version_id().unwrap();
    assert!(store.add_version("b", "k", version(&second, "b", "k")).is_ok());
    let r = store.add_version("b", "k", version(&first, "b", "k"));
    assert!(matches!(r, Err(StoreError::Conflict)));
    let r = store.add_version("b", "k", version(&second, "b", "k"));
    assert!(matches!(r, Err(StoreError::Conflict)));
    assert!(store.add_version("b", "j", version(&first, "b", "j")).is_ok());
    assert_eq!(store.get_versions("b", "k").len(), 1);
}

#[test]
fn a_delete_marker_with_a_body_is_a_bad_request() {
    let mut store = VersionStore::new();
    let id = store.generate_version_id().unwrap();
    let mut marker = version(&id, "b", "k");
    marker.is_delete_marker = true;
    let r = store.add_version("b", "k", marker);
    assert!(matches!(r, Err(StoreError::BadRequest)));
    let r = store.append("b", "k", "ref".to_string(), 0, String::new(), true, 1);
    assert!(matches!(r, Err(StoreError::BadRequest)));
    let r = store.append("b", "k", String::new(), 1, String::new(), true, 1);
    assert!(matches!(r, Err(StoreError::BadRequest)));
    let r = store.append("b", "k", String::new(), 0, "tag".to_string(), true, 1);
    assert!(matches!(r, Err(StoreError::BadRequest)));
    let marker = store
        .append("b", "k", String::new(), 0, String::new(), true, 5)
        .unwrap();
    assert!(marker.is_delete_marker);
    assert_eq!(marker.version_id, "2");
    assert_eq!(marker.last_modified, 5);
}

#[test]
fn a_delete_marker_ends_the_history() {
    let mut store = VersionStore::new();
    store
        .append("b", "k", "r".to_string(), 1, "t".to_string(), false, 1)
        .unwrap();
    assert!(create_delete_marker(&mut store, "b", "k", 9).is_ok());
    let latest = store.get_latest_version("b", "k").unwrap();
    assert!(latest.is_delete_marker);
    assert!(latest.is_latest);
    assert_eq!(latest.size, 0);
    assert_eq!(latest.etag, "");
    assert_eq!(latest.last_modified, 9);
    assert_eq!(latest.bucket, "b");
    assert_eq!(latest.key, "k");
    assert_eq!(store.get_versions("b", "k").len(), 2);
}

#[test]
fn deleting_a_version_hands_it_back() {
    let mut store = VersionStore::new();
    let a = store
        .append("b", "k", "r1".to_string(), 1, "t".to_string(), false, 1)
        .unwrap();
    let b = store
        .append("b", "k", "r2".to_string(), 1, "t".to_string(), false, 2)
        .unwrap();
    let c = store
        .append("b", "k", "r3".to_string(), 1, "t".to_string(), false, 3)
        .unwrap();
    let removed = store.delete_version("b", "k", &b.version_id).unwrap();
    assert_eq!(removed.storage_ref, "r2");
    let history = store.get_versions("b", "k");
    assert_eq!(history.len(), 2);
    assert_eq!(history[0].version_id, a.version_id);
    assert_eq!(history[1].version_id, c.version_id);
    assert!(history[1].is_latest && !history[0].is_latest);
    let removed = store.delete_version("b", "k", &c.version_id).unwrap();
    assert_eq!(removed.storage_ref, "r3");
    let history = store.get_versions("b", "k");
    assert_eq!(history.len(), 1);
    assert!(history[0].is_latest);
    let r = store.delete_version("b", "k", &c.version_id);
    assert!(matches!(r, Err(StoreError::NotFound)));
    let r = store.delete_version("b", "nokey", &a.version_id);
    assert!(matches!(r, Err(StoreError::NotFound)));
}

#[test]
fn switching_versioning_on_keeps_the_histories() {
    let mut store = VersionStore::new();
    assert!(!store.versioning_enabled("test-bucket"));
    store.enable_versioning("test-bucket");
    assert!(store.versioning_enabled("test-bucket"));
    store
        .append("test-bucket", "k", "r".to_string(), 1, "t".to_string(), false, 1)
        .unwrap();
    store.enable_versioning("test-bucket");
    assert_eq!(store.get_versions("test-bucket", "k").len(), 1);
}

#[test]
fn part_numbers_are_contiguous_from_one_without_a_gap() {
    let mut parts: HashMap<u32, PartRecord> = HashMap::new();
    assert!(is_contiguous(&parts));
    parts.insert(3, part("c"));
    assert!(!is_contiguous(&parts));
    parts.insert(1, part("a"));
    assert!(!is_contiguous(&parts));
    parts.insert(2, part("b"));
    assert!(is_contiguous(&parts));
    parts.insert(2, part("b2"));
    assert!(is_contiguous(&parts));
    parts.insert(5, part("e"));
    assert!(!is_contiguous(&parts));
    parts.remove(&5);
    parts.insert(0, part("z"));
    assert!(!is_contiguous(&parts));
    let mut from_two: HashMap<u32, PartRecord> = HashMap::new();
    from_two.insert(2, part("b"));
    assert!(!is_contiguous(&from_two));
}

#[test]
fn the_references_of_all_parts_are_listed() {
    let mut parts: HashMap<u32, PartRecord> = HashMap::new();
    assert!(part_references(&parts).is_empty());
    parts.insert(7, part("g"));
    parts.insert(1, part("a"));
    parts.insert(4, part("d"));
    parts.insert(4, part("d2"));
    let mut listed = part_references(&parts);
    listed.sort();
    assert_eq!(listed, vec!["a".to_string(), "d2".to_string(), "g".to_string()]);
}

#[test]
fn a_session_takes_parts_until_it_is_closed() {
    let mut store = UploadStore::new();
    let id = store
        .open_upload("token", "b".to_string(), "k".to_string(), 7)
        .unwrap();
    assert_eq!(id, "0-token");
    let again = store
        .open_upload("token", "b".to_string(), "k".to_string(), 8)
        .unwrap();
    assert_eq!(again, "1-token");
    assert!(store.contains("0-token"));
    assert_eq!(store.len(), 2);
    assert!(store.add_part(&id, 1, part("a")).unwrap().is_none());
    let replaced = store.add_part(&id, 1, part("a2")).unwrap().unwrap();
    assert_eq!(replaced.storage_ref, "a");
    let r = store.add_part(&id, 0, part("z"));
    assert!(matches!(r, Err(StoreError::BadRequest)));
    let r = store.add_part("token", 1, part("z"));
    assert!(matches!(r, Err(StoreError::NotFound)));
    let session = store.get_upload(&id).unwrap();
    assert_eq!(session.upload_id, "0-token");
    assert_eq!(session.bucket, "b");
    assert_eq!(session.key, "k");
    assert_eq!(session.created_at, 7);
    assert!(session.state == UploadState::Active);
    assert_eq!(session.parts.len(), 1);
    let mut listed = vec![
        store.upload_at(0).upload_id.clone(),
        store.upload_at(1).upload_id.clone(),
    ];
    listed.sort();
    assert_eq!(listed, vec!["0-token".to_string(), "1-token".to_string()]);
    assert!(store.upload_ref("2-token").is_none());
    let closed = store.close_upload(&id, UploadState::Aborted).unwrap();
    assert!(closed.state == UploadState::Aborted);
    assert_eq!(closed.parts.get(&1).unwrap().storage_ref, "a2");
    assert!(store.get_upload(&id).is_none());
    let r = store.close_upload(&id, UploadState::Completed);
    assert!(matches!(r, Err(StoreError::NotFound)));
    let r = store.add_part(&id, 2, part("b"));
    assert!(matches!(r, Err(StoreError::NotFound)));
    assert!(!store.exhausted());
}

#[test]
fn an_identifier_is_not_handed_out_again() {
    let mut store = UploadStore::new();
    let first = store
        .open_upload("same", "b".to_string(), "k".to_string(), 1)
        .unwrap();
    store.close_upload(&first, UploadState::Aborted).unwrap();
    let second = store
        .open_upload("same", "b".to_string(), "k".to_string(), 1)
        .unwrap();
    assert_ne!(first, second);
    assert!(store.get_upload(&first).is_none());
    let r = store.add_part(&first, 1, part("a"));
    assert!(matches!(r, Err(StoreError::NotFound)));
}

#[test]
fn sessions_get_identifiers_of_their_own() {
    let mut store = UploadStore::new();
    let a = store.create_upload("b".to_string(), "k".to_string(), 1).unwrap();
    let b = store.create_upload("b".to_string(), "k".to_string(), 1).unwrap();
    assert_ne!(a, b);
    assert!(a.starts_with("0-"));
    assert!(b.starts_with("1-"));
    assert_eq!(a.len(), 38);
    assert_ne!(&a[2..], &b[2..]);
    assert_eq!(store.len(), 2);
    assert_eq!(store.get_upload(&a).unwrap().upload_id, a);
}
