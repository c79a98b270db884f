use s3_storage::digest::content_etag;
use s3_storage::error::StoreError;
use s3_storage::storage::Storage;

#[test]
fn put_then_get_returns_the_body_and_its_tag() {
    let mut storage = Storage::new();
    let version = storage
        .create_object("b1", "file.txt", b"hello".to_vec(), 100)
        .unwrap();
    assert_eq!(version.etag, "5d41402abc4b2a76b9719d911017c592");
    assert_eq!(version.etag, content_etag(b"hello"));
    assert_eq!(version.size, 5);
    assert_eq!(version.last_modified, 100);
    assert!(version.is_latest);
    assert!(!version.is_delete_marker);
    let (read, body) = storage.read_object("b1", "file.txt").unwrap();
    assert_eq!(body, b"hello".to_vec());
    assert_eq!(read.version_id, version.version_id);
}

#[test]
fn test_create_and_read_object() {
    let mut storage = Storage::new();
    let data = b"Hello, world!".to_vec();
    let created = storage.create_object("testbucket_obj", "testobject.txt", data.clone(), 1);
    assert!(created.is_ok());
    let (_, body) = storage
        .read_object("testbucket_obj", "testobject.txt")
        .unwrap();
    assert_eq!(body, data);
}

#[test]
fn test_read_nonexistent_object() {
    let storage = Storage::new();
    let r = storage.read_object("testbucket_obj2", "nonexistent.txt");
    assert!(matches!(r, Err(StoreError::NotFound)));
    assert_eq!(StoreError::NotFound.status_code(), 404);
}

#[test]
fn test_delete_object() {
    let mut storage = Storage::new();
    storage
        .create_object("testbucket_obj3", "delete_me.txt", b"delete me".to_vec(), 1)
        .unwrap();
    assert!(storage.delete_object("testbucket_obj3", "delete_me.txt", 2).is_ok());
    let r = storage.read_object("testbucket_obj3", "delete_me.txt");
    assert!(matches!(r, Err(StoreError::NotFound)));
}

#[test]
fn delete_leaves_a_marker_at_the_end_of_the_history() {
    let mut storage = Storage::new();
    storage.create_object("b", "k", b"one".to_vec(), 1).unwrap();
    storage.delete_object("b", "k", 7).unwrap();
    let history = storage.list_object_versions("b", "k");
    assert_eq!(history.len(), 2);
    let last = &history[1];
    assert!(last.is_delete_marker);
    assert!(last.is_latest);
    assert_eq!(last.size, 0);
    assert_eq!(last.etag, "");
    assert_eq!(last.storage_ref, "");
    assert_eq!(last.last_modified, 7);
    assert!(!history[0].is_latest);
    assert!(!history[0].is_delete_marker);
}

#[test]
fn a_write_makes_the_new_version_the_only_latest() {
    let mut storage = Storage::new();
    storage.create_object("b", "k", b"one".to_vec(), 1).unwrap();
    storage.create_object("b", "k", b"two".to_vec(), 2).unwrap();
    let third = storage.create_object("b", "k", b"three".to_vec(), 3).unwrap();
    let latest = storage.get_latest("b", "k").unwrap();
    assert_eq!(latest.version_id, third.version_id);
    let history = storage.list_object_versions("b", "k");
    assert_eq!(history.len(), 3);
    let flagged: Vec<&String> = history
        .iter()
        .filter(|v| v.is_latest)
        .map(|v| &v.version_id)
        .collect();
    assert_eq!(flagged, vec![&third.version_id]);
}

#[test]
fn version_identifiers_are_hexadecimal_and_grow() {
    let mut storage = Storage::new();
    let mut ids = Vec::new();
    for i in 0..20u64 {
        let v = storage.create_object("b", "k", vec![i as u8], i).unwrap();
        ids.push(v.version_id);
    }
    assert_eq!(ids[0], "1");
    assert_eq!(ids[9], "a");
    assert_eq!(ids[15], "10");
    assert_eq!(ids[19], "14");
}

#[test]
fn earlier_versions_keep_their_bodies() {
    let mut storage = Storage::new();
    let first = storage.create_object("b", "k", b"one".to_vec(), 1).unwrap();
    let second = storage.create_object("b", "k", b"two".to_vec(), 2).unwrap();
    let (_, one) = storage
        .get_object_version("b", "k", &first.version_id)
        .unwrap();
    let (_, two) = storage
        .get_object_version("b", "k", &second.version_id)
        .unwrap();
    assert_eq!(one, b"one".to_vec());
    assert_eq!(two, b"two".to_vec());
}

#[test]
fn equal_bodies_get_references_of_their_own() {
    let mut storage = Storage::new();
    let a = storage.create_object("b", "x", b"same".to_vec(), 1).unwrap();
    let b = storage.create_object("b", "y", b"same".to_vec(), 1).unwrap();
    assert_ne!(a.storage_ref, b.storage_ref);
    assert_eq!(a.etag, b.etag);
    storage.delete_object_version("b", "x", &a.version_id).unwrap();
    let (_, body) = storage.read_object("b", "y").unwrap();
    assert_eq!(body, b"same".to_vec());
}

#[test]
fn deleting_the_latest_version_promotes_the_one_before() {
    let mut storage = Storage::new();
    let first = storage.create_object("b", "k", b"one".to_vec(), 1).unwrap();
    let second = storage.create_object("b", "k", b"two".to_vec(), 2).unwrap();
    let removed = storage
        .delete_object_version("b", "k", &second.version_id)
        .unwrap();
    assert_eq!(removed.version_id, second.version_id);
    let latest = storage.get_latest("b", "k").unwrap();
    assert_eq!(latest.version_id, first.version_id);
    assert!(latest.is_latest);
    let (_, body) = storage.read_object("b", "k").unwrap();
    assert_eq!(body, b"one".to_vec());
    storage
        .delete_object_version("b", "k", &first.version_id)
        .unwrap();
    assert!(storage.get_latest("b", "k").is_none());
    assert!(storage.list_object_versions("b", "k").is_empty());
}

#[test]
fn deleting_an_older_version_leaves_the_latest() {
    let mut storage = Storage::new();
    let first = storage.create_object("b", "k", b"one".to_vec(), 1).unwrap();
    let second = storage.create_object("b", "k", b"two".to_vec(), 2).unwrap();
    storage
        .delete_object_version("b", "k", &first.version_id)
        .unwrap();
    let history = storage.list_object_versions("b", "k");
    assert_eq!(history.len(), 1);
    assert_eq!(history[0].version_id, second.version_id);
    assert!(history[0].is_latest);
}

#[test]
fn deleting_an_unknown_version_is_not_found() {
    let mut storage = Storage::new();
    storage.create_object("b", "k", b"one".to_vec(), 1).unwrap();
    let r = storage.delete_object_version("b", "k", "ffff");
    assert!(matches!(r, Err(StoreError::NotFound)));
    assert_eq!(storage.list_object_versions("b", "k").len(), 1);
}

#[test]
fn a_delete_marker_cannot_be_read_as_a_version() {
    let mut storage = Storage::new();
    storage.create_object("b", "k", b"one".to_vec(), 1).unwrap();
    storage.delete_object("b", "k", 2).unwrap();
    let marker = storage.get_latest("b", "k").unwrap();
    let r = storage.get_object_version("b", "k", &marker.version_id);
    assert!(matches!(r, Err(StoreError::NotFound)));
    let r = storage.get_object_version("b", "k", "no-such-version");
    assert!(matches!(r, Err(StoreError::NotFound)));
}

#[test]
fn removing_a_delete_marker_brings_the_object_back() {
    let mut storage = Storage::new();
    storage.create_object("b", "k", b"one".to_vec(), 1).unwrap();
    storage.delete_object("b", "k", 2).unwrap();
    let marker = storage.get_latest("b", "k").unwrap();
    storage
        .delete_object_version("b", "k", &marker.version_id)
        .unwrap();
    let (_, body) = storage.read_object("b", "k").unwrap();
    assert_eq!(body, b"one".to_vec());
}

#[test]
fn versioning_is_on_once_switched_on_or_written_to() {
    let mut storage = Storage::new();
    assert!(!storage.get_bucket_versioning("test-bucket"));
    storage.put_bucket_versioning("test-bucket");
    assert!(storage.get_bucket_versioning("test-bucket"));
    storage.create_object("other", "k", b"x".to_vec(), 1).unwrap();
    assert!(storage.get_bucket_versioning("other"));
    storage.put_bucket_versioning("other");
    assert_eq!(storage.list_object_versions("other", "k").len(), 1);
}

#[test]
fn keys_and_buckets_have_histories_of_their_own() {
    let mut storage = Storage::new();
    storage.create_object("b1", "k", b"1".to_vec(), 1).unwrap();
    storage.create_object("b2", "k", b"2".to_vec(), 1).unwrap();
    storage.create_object("b1", "j", b"3".to_vec(), 1).unwrap();
    assert_eq!(storage.read_object("b1", "k").unwrap().1, b"1".to_vec());
    assert_eq!(storage.read_object("b2", "k").unwrap().1, b"2".to_vec());
    assert_eq!(storage.read_object("b1", "j").unwrap().1, b"3".to_vec());
    assert_eq!(storage.list_object_versions("b1", "k").len(), 1);
    assert!(storage.list_object_versions("b3", "k").is_empty());
}
