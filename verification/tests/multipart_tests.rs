use s3_storage::error::StoreError;
use s3_storage::storage::Storage;

#[test]
fn two_parts_are_assembled_in_order() {
    let mut storage = Storage::new();
    let upload = storage.initiate_multipart_upload("b1", "big.bin", 5).unwrap();
    let tag_a = storage.upload_part(&upload, 1, b"AAA".to_vec()).unwrap();
    let tag_b = storage.upload_part(&upload, 2, b"BBB".to_vec()).unwrap();
    assert_eq!(tag_a, "e1faffb3e614e6c2fba74296962386b7");
    assert_eq!(tag_b, "2bb225f0ba9a58930757a868ed57d9a3");
    let before = storage.list_object_versions("b1", "big.bin").len();
    let version = storage.complete_multipart_upload(&upload, 9).unwrap();
    assert_eq!(version.bucket, "b1");
    assert_eq!(version.key, "big.bin");
    assert_eq!(version.size, 6);
    assert_eq!(version.last_modified, 9);
    assert_eq!(version.etag, "690451d47512c78eeecaa521606f181b-2");
    let (_, body) = storage.read_object("b1", "big.bin").unwrap();
    assert_eq!(body, b"AAABBB".to_vec());
    assert_eq!(storage.list_object_versions("b1", "big.bin").len(), before + 1);
    let again = storage.complete_multipart_upload(&upload, 10);
    assert!(matches!(again, Err(StoreError::NotFound)));
}

#[test]
fn the_order_of_arrival_does_not_matter() {
    let mut storage = Storage::new();
    let upload = storage.initiate_multipart_upload("b", "k", 0).unwrap();
    storage.upload_part(&upload, 3, b"three".to_vec()).unwrap();
    storage.upload_part(&upload, 1, b"one".to_vec()).unwrap();
    storage.upload_part(&upload, 2, b"two".to_vec()).unwrap();
    let first = storage.complete_multipart_upload(&upload, 1).unwrap();
    let (_, body) = storage.read_object("b", "k").unwrap();
    assert_eq!(body, b"onetwothree".to_vec());

    let mut other = Storage::new();
    let upload = other.initiate_multipart_upload("b", "k", 0).unwrap();
    other.upload_part(&upload, 1, b"one".to_vec()).unwrap();
    other.upload_part(&upload, 2, b"two".to_vec()).unwrap();
    other.upload_part(&upload, 3, b"three".to_vec()).unwrap();
    let second = other.complete_multipart_upload(&upload, 1).unwrap();
    assert_eq!(other.read_object("b", "k").unwrap().1, body);
    assert_eq!(first.etag, second.etag);
}

#[test]
fn a_gap_in_the_part_numbers_is_a_bad_request() {
    let mut storage = Storage::new();
    let upload = storage.initiate_multipart_upload("b", "k", 0).unwrap();
    storage.upload_part(&upload, 1, b"one".to_vec()).unwrap();
    storage.upload_part(&upload, 3, b"three".to_vec()).unwrap();
    let r = storage.complete_multipart_upload(&upload, 1);
    assert!(matches!(r, Err(StoreError::BadRequest)));
    assert_eq!(StoreError::BadRequest.status_code(), 400);
    assert!(storage.list_object_versions("b", "k").is_empty());
    storage.upload_part(&upload, 2, b"two".to_vec()).unwrap();
    let version = storage.complete_multipart_upload(&upload, 2).unwrap();
    assert_eq!(version.size, 11);
    assert_eq!(storage.read_object("b", "k").unwrap().1, b"onetwothree".to_vec());
}

#[test]
fn parts_that_do_not_start_at_one_are_a_bad_request() {
    let mut storage = Storage::new();
    let upload = storage.initiate_multipart_upload("b", "k", 0).unwrap();
    storage.upload_part(&upload, 2, b"two".to_vec()).unwrap();
    let r = storage.complete_multipart_upload(&upload, 1);
    assert!(matches!(r, Err(StoreError::BadRequest)));
}

#[test]
fn putting_a_part_again_replaces_it() {
    let mut storage = Storage::new();
    let upload = storage.initiate_multipart_upload("b", "k", 0).unwrap();
    storage.upload_part(&upload, 1, b"old".to_vec()).unwrap();
    storage.upload_part(&upload, 2, b"tail".to_vec()).unwrap();
    storage.upload_part(&upload, 1, b"new".to_vec()).unwrap();
    storage.complete_multipart_upload(&upload, 1).unwrap();
    assert_eq!(storage.read_object("b", "k").unwrap().1, b"newtail".to_vec());
}

#[test]
fn part_number_zero_is_a_bad_request() {
    let mut storage = Storage::new();
    let upload = storage.initiate_multipart_upload("b", "k", 0).unwrap();
    let r = storage.upload_part(&upload, 0, b"x".to_vec());
    assert!(matches!(r, Err(StoreError::BadRequest)));
}

#[test]
fn a_part_for_an_unknown_upload_is_not_found() {
    let mut storage = Storage::new();
    let r = storage.upload_part("123", 1, b"test part data".to_vec());
    assert!(matches!(r, Err(StoreError::NotFound)));
    let r = storage.complete_multipart_upload("123", 1);
    assert!(matches!(r, Err(StoreError::NotFound)));
    let r = storage.abort_multipart_upload("123");
    assert!(matches!(r, Err(StoreError::NotFound)));
}

#[test]
fn test_initiate_multipart_upload() {
    let mut storage = Storage::new();
    let upload = storage
        .initiate_multipart_upload("testbucket_mp", "testfile.txt", 0)
        .unwrap();
    assert!(!upload.is_empty());
    let other = storage
        .initiate_multipart_upload("testbucket_mp", "testfile.txt", 0)
        .unwrap();
    assert_ne!(upload, other);
}

#[test]
fn test_upload_part() {
    let mut storage = Storage::new();
    let upload = storage
        .initiate_multipart_upload("testbucket_mp2", "testfile2.txt", 0)
        .unwrap();
    assert!(!upload.is_empty(), "Upload ID should not be empty");
    let etag = storage.upload_part(&upload, 1, b"test part data".to_vec());
    assert_eq!(etag.unwrap(), "4efe8bb68f9287f45625732c6f1202e1");
}

#[test]
fn test_abort_multipart_upload() {
    let mut storage = Storage::new();
    let upload = storage
        .initiate_multipart_upload("testbucket_mp4", "testfile4.txt", 0)
        .unwrap();
    storage.upload_part(&upload, 1, b"test part data".to_vec()).unwrap();
    assert!(storage.abort_multipart_upload(&upload).is_ok());
    let r = storage.upload_part(&upload, 2, b"more".to_vec());
    assert!(matches!(r, Err(StoreError::NotFound)));
    let r = storage.complete_multipart_upload(&upload, 1);
    assert!(matches!(r, Err(StoreError::NotFound)));
    let r = storage.abort_multipart_upload(&upload);
    assert!(matches!(r, Err(StoreError::NotFound)));
    assert!(storage.list_object_versions("testbucket_mp4", "testfile4.txt").is_empty());
}

#[test]
fn an_upload_without_parts_completes_to_an_empty_object() {
    let mut storage = Storage::new();
    let upload = storage.initiate_multipart_upload("b", "k", 0).unwrap();
    let version = storage.complete_multipart_upload(&upload, 1).unwrap();
    assert_eq!(version.size, 0);
    assert_eq!(version.etag, "d41d8cd98f00b204e9800998ecf8427e-0");
    assert_eq!(storage.read_object("b", "k").unwrap().1, Vec::<u8>::new());
}

#[test]
fn completion_leaves_other_uploads_alone() {
    let mut storage = Storage::new();
    let a = storage.initiate_multipart_upload("b", "a", 0).unwrap();
    let b = storage.initiate_multipart_upload("b", "b", 0).unwrap();
    storage.upload_part(&a, 1, b"a1".to_vec()).unwrap();
    storage.upload_part(&b, 1, b"b1".to_vec()).unwrap();
    storage.complete_multipart_upload(&a, 1).unwrap();
    storage.upload_part(&b, 2, b"b2".to_vec()).unwrap();
    storage.complete_multipart_upload(&b, 2).unwrap();
    assert_eq!(storage.read_object("b", "a").unwrap().1, b"a1".to_vec());
    assert_eq!(storage.read_object("b", "b").unwrap().1, b"b1b2".to_vec());
}
