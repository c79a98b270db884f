use s3_storage::auth::{judge_login, LoginOutcome, User, UserStore};
use s3_storage::bucket::{BucketPolicy, PolicyStore};
use s3_storage::error::StoreError;
use s3_storage::multipart::{expired, InitiateMultipartUploadResponse};
use s3_storage::request::{parse_upload_part, require};
use s3_storage::response::{
    render_complete, render_element, render_list_versions, render_quoted, render_versioning,
};
use s3_storage::storage::Storage;

fn user(name: &str, password: &str) -> User {
    User {
        username: name.to_string(),
        password: password.to_string(),
    }
}

#[test]
fn test_register() {
    let mut store = UserStore::new();
    let r = store.register(&user("testuser", "testpass"));
    assert!(r.is_ok());
    assert!(store.contains("testuser"));
    let again = store.register(&user("testuser", "otherpass"));
    assert!(matches!(again, Err(StoreError::Conflict)));
    assert_eq!(StoreError::Conflict.status_code(), 409);
    store.clear();
    assert!(!store.contains("testuser"));
}

#[test]
fn test_login() {
    let mut store = UserStore::new();
    assert!(store.register(&user("testuser", "testpass")).is_ok());
    let outcome = store.login(&user("testuser", "testpass"));
    assert!(outcome == LoginOutcome::Success);
    assert_eq!(outcome.status_code(), 200);
    let outcome = store.login(&user("testuser", "wrongpass"));
    assert!(outcome == LoginOutcome::InvalidCredentials);
    assert_eq!(outcome.status_code(), 401);
    let outcome = store.login(&user("nobody", "testpass"));
    assert!(outcome == LoginOutcome::UserNotFound);
    assert_eq!(outcome.status_code(), 401);
}

#[test]
fn a_hash_that_cannot_be_read_is_no_login() {
    let mut store = UserStore::new();
    let r = store.record_registration("legacy", Ok("no bcrypt hash".to_string()));
    assert!(r.is_ok());
    let outcome = store.login(&user("legacy", "no bcrypt hash"));
    assert!(outcome == LoginOutcome::InvalidCredentials);
}

#[test]
fn a_password_that_cannot_be_hashed_is_an_internal_error() {
    let mut store = UserStore::new();
    let failed = Err(bcrypt::BcryptError::CostNotAllowed(99));
    let r = store.record_registration("name", failed);
    assert!(matches!(r, Err(StoreError::Internal)));
    assert!(!store.contains("name"));
    assert!(store
        .record_registration("name", Ok("hash".to_string()))
        .is_ok());
    let failed = Err(bcrypt::BcryptError::CostNotAllowed(99));
    let r = store.record_registration("name", failed);
    assert!(matches!(r, Err(StoreError::Conflict)));
}

#[test]
fn a_login_is_judged_from_the_check_of_the_password() {
    assert!(judge_login(true, Ok(true)) == LoginOutcome::Success);
    assert!(judge_login(true, Ok(false)) == LoginOutcome::InvalidCredentials);
    let failed = Err(bcrypt::BcryptError::CostNotAllowed(99));
    assert!(judge_login(true, failed) == LoginOutcome::InvalidCredentials);
    assert!(judge_login(false, Ok(true)) == LoginOutcome::UserNotFound);
}

#[test]
fn the_last_policy_of_a_bucket_counts() {
    let mut store = PolicyStore::new();
    assert!(store.get_bucket_policy("b").is_none());
    store.set_bucket_policy(
        "b".to_string(),
        BucketPolicy {
            policy: "first".to_string(),
            acl: "private".to_string(),
        },
    );
    store.set_bucket_policy(
        "b".to_string(),
        BucketPolicy {
            policy: "second".to_string(),
            acl: "public".to_string(),
        },
    );
    let policy = store.get_bucket_policy("b").unwrap();
    assert_eq!(policy.policy, "second");
    assert_eq!(policy.acl, "public");
    assert_eq!(store.len(), 1);
    let (bucket, kept) = store.entry_at(0);
    assert_eq!(bucket, "b");
    assert_eq!(kept.policy, "second");
}

#[test]
fn policies_are_loaded_from_a_list() {
    let entries = vec![
        (
            "a".to_string(),
            BucketPolicy {
                policy: "pa".to_string(),
                acl: "x".to_string(),
            },
        ),
        (
            "b".to_string(),
            BucketPolicy {
                policy: "pb".to_string(),
                acl: "y".to_string(),
            },
        ),
        (
            "a".to_string(),
            BucketPolicy {
                policy: "pa2".to_string(),
                acl: "z".to_string(),
            },
        ),
    ];
    let store = PolicyStore::load_policies(&entries);
    assert_eq!(store.len(), 2);
    assert_eq!(store.get_bucket_policy("a").unwrap().policy, "pa2");
    assert_eq!(store.get_bucket_policy("b").unwrap().acl, "y");
    assert!(store.get_bucket_policy("c").is_none());
    assert_eq!(PolicyStore::load_policies(&Vec::new()).len(), 0);
}

#[test]
fn test_upload_part_missing_upload_id() {
    let r = parse_upload_part(None, Some("1"));
    assert!(matches!(r, Err(StoreError::BadRequest)));
    assert_eq!(StoreError::BadRequest.status_code(), 400);
}

#[test]
fn test_upload_part_invalid_part_number() {
    let r = parse_upload_part(Some("123"), Some("invalid"));
    assert!(matches!(r, Err(StoreError::BadRequest)));
    let r = parse_upload_part(Some("123"), None);
    assert!(matches!(r, Err(StoreError::BadRequest)));
    let r = parse_upload_part(Some("123"), Some("4294967296"));
    assert!(matches!(r, Err(StoreError::BadRequest)));
}

#[test]
fn the_parameters_of_a_part_are_read() {
    let request = parse_upload_part(Some("123"), Some("17")).unwrap();
    assert_eq!(request.upload_id, "123");
    assert_eq!(request.part_number, 17);
    assert_eq!(require(Some("v1")).unwrap(), "v1");
    assert!(matches!(require(None), Err(StoreError::BadRequest)));
}

#[test]
fn the_answer_to_an_opened_upload_carries_its_fields() {
    let response = InitiateMultipartUploadResponse {
        bucket: "testbucket_mp".to_string(),
        key: "testfile.txt".to_string(),
        upload_id: "U-1".to_string(),
    };
    let body = response.to_xml();
    assert!(body.contains("<InitiateMultipartUploadResult>"));
    assert!(body.contains(&format!("<Bucket>{}</Bucket>", "testbucket_mp")));
    assert!(body.contains(&format!("<Key>{}</Key>", "testfile.txt")));
    assert!(body.contains("<UploadId>"));
    assert_eq!(
        body,
        "<?xml version=\"1.0\" encoding=\"UTF-8\"?>\n<InitiateMultipartUploadResult>\
         <Bucket>testbucket_mp</Bucket><Key>testfile.txt</Key><UploadId>U-1</UploadId>\
         </InitiateMultipartUploadResult>"
    );
}

#[test]
fn the_answer_to_a_completed_upload_carries_its_fields() {
    assert_eq!(
        render_complete("b1", "big.bin", "abc-2"),
        "<?xml version=\"1.0\" encoding=\"UTF-8\"?>\n<CompleteMultipartUploadResult>\
         <Location>http://localhost:8080/b1/big.bin</Location><Bucket>b1</Bucket>\
         <Key>big.bin</Key><ETag>\"abc-2\"</ETag></CompleteMultipartUploadResult>"
    );
}

#[test]
fn elements_and_quotes_are_written_as_they_are() {
    assert_eq!(render_element("Key", "a b"), "<Key>a b</Key>");
    assert_eq!(render_element("Empty", ""), "<Empty></Empty>");
    assert_eq!(render_quoted("tag"), "\"tag\"");
}

#[test]
fn the_listing_carries_every_version() {
    let mut storage = Storage::new();
    storage.create_object("b", "k", b"one".to_vec(), 5).unwrap();
    storage.delete_object("b", "k", 6).unwrap();
    let versions = storage.list_object_versions("b", "k");
    let body = render_list_versions("b", "pre", &versions, false);
    assert_eq!(
        body,
        "<?xml version=\"1.0\" encoding=\"UTF-8\"?>\n<ListVersionsResult><Name>b</Name>\
         <Prefix>pre</Prefix><KeyMarker></KeyMarker><VersionIdMarker></VersionIdMarker>\
         <MaxKeys>1000</MaxKeys><IsTruncated>false</IsTruncated>\
         <Version><Key>k</Key><VersionId>1</VersionId><IsLatest>false</IsLatest>\
         <LastModified>5</LastModified><ETag>\"f97c5d29941bfb1b2fdab0874906ab82\"</ETag>\
         <Size>3</Size><StorageClass>STANDARD</StorageClass></Version>\
         <Version><Key>k</Key><VersionId>2</VersionId><IsLatest>true</IsLatest>\
         <LastModified>6</LastModified><ETag>\"\"</ETag>\
         <Size>0</Size><StorageClass>STANDARD</StorageClass></Version>\
         </ListVersionsResult>"
    );
    let with_owner = render_list_versions("b", "k", &versions, true);
    assert!(with_owner
        .contains("<Owner><ID>owner</ID><DisplayName>owner</DisplayName></Owner></Version>"));
    let empty = render_list_versions("b", "", &Vec::new(), true);
    assert!(empty.ends_with("<IsTruncated>false</IsTruncated></ListVersionsResult>"));
}

#[test]
fn test_put_bucket_versioning() {
    let mut storage = Storage::new();
    storage.put_bucket_versioning("test-bucket");
    assert!(storage.get_bucket_versioning("test-bucket"));
    assert_eq!(
        render_versioning(true),
        "<?xml version=\"1.0\" encoding=\"UTF-8\"?>\n<VersioningConfiguration>\
         <Status>Enabled</Status></VersioningConfiguration>"
    );
}

#[test]
fn test_get_bucket_versioning() {
    let storage = Storage::new();
    assert!(!storage.get_bucket_versioning("test-bucket"));
    assert_eq!(
        render_versioning(false),
        "<?xml version=\"1.0\" encoding=\"UTF-8\"?>\n<VersioningConfiguration>\
         <Status>Suspended</Status></VersioningConfiguration>"
    );
}

#[test]
fn a_session_has_expired_when_more_than_its_time_has_passed() {
    assert!(!expired(100, 100, 0));
    assert!(expired(100, 101, 0));
    assert!(!expired(100, 160, 60));
    assert!(expired(100, 161, 60));
    assert!(!expired(100, 50, 0));
    assert!(!expired(0, u64::MAX, u64::MAX));
    assert!(expired(0, u64::MAX, u64::MAX - 1));
}

#[test]
fn uploads_that_have_outlived_their_time_are_collected() {
    let mut storage = Storage::new();
    let old = storage.initiate_multipart_upload("b", "old", 100).unwrap();
    let young = storage.initiate_multipart_upload("b", "young", 150).unwrap();
    let older = storage.initiate_multipart_upload("b", "older", 10).unwrap();
    storage.upload_part(&old, 1, b"o1".to_vec()).unwrap();
    storage.upload_part(&old, 2, b"o2".to_vec()).unwrap();
    storage.upload_part(&young, 1, b"y1".to_vec()).unwrap();
    storage.create_object("b", "kept", b"body".to_vec(), 1).unwrap();
    assert_eq!(storage.expire_uploads(100, 60), 1);
    assert_eq!(storage.expire_uploads(161, 60), 1);
    assert_eq!(storage.expire_uploads(161, 60), 0);
    let r = storage.upload_part(&old, 3, b"o3".to_vec());
    assert!(matches!(r, Err(StoreError::NotFound)));
    let r = storage.complete_multipart_upload(&older, 200);
    assert!(matches!(r, Err(StoreError::NotFound)));
    storage.upload_part(&young, 2, b"y2".to_vec()).unwrap();
    storage.complete_multipart_upload(&young, 200).unwrap();
    assert_eq!(storage.read_object("b", "young").unwrap().1, b"y1y2".to_vec());
    assert_eq!(storage.read_object("b", "kept").unwrap().1, b"body".to_vec());
}

#[test]
fn an_upload_opens_under_its_token_and_a_number() {
    let mut storage = Storage::new();
    let first = storage.open_multipart_upload("fixed", "b", "k", 1).unwrap();
    let second = storage.open_multipart_upload("fixed", "b", "other", 2).unwrap();
    assert_eq!(first, "0-fixed");
    assert_eq!(second, "1-fixed");
    assert_eq!(storage.upload_count(), 2);
    storage.upload_part(&first, 1, b"x".to_vec()).unwrap();
    assert_eq!(storage.get_upload(&first).unwrap().parts.len(), 1);
    let version = storage.complete_multipart_upload(&first, 3).unwrap();
    assert_eq!(version.key, "k");
    assert!(storage.get_upload(&first).is_none());
    let third = storage.open_multipart_upload("fixed", "b", "k", 4).unwrap();
    assert_eq!(third, "2-fixed");
}

#[test]
fn no_body_is_left_behind() {
    let mut storage = Storage::new();
    assert_eq!(storage.body_count(), 0);
    let first = storage.create_object("b", "k", b"one".to_vec(), 1).unwrap();
    let expected = storage.next_reference(b"two");
    let second = storage.create_object("b", "k", b"two".to_vec(), 2).unwrap();
    assert_eq!(second.storage_ref, expected);
    assert!(storage.holds_body(&first.storage_ref));
    assert_eq!(storage.body_count(), 2);
    storage.delete_object("b", "k", 3).unwrap();
    assert_eq!(storage.body_count(), 2);
    let upload = storage.open_multipart_upload("t", "b", "big", 4).unwrap();
    storage.upload_part(&upload, 1, b"p1".to_vec()).unwrap();
    storage.upload_part(&upload, 2, b"p2".to_vec()).unwrap();
    storage.upload_part(&upload, 2, b"p2 again".to_vec()).unwrap();
    assert_eq!(storage.body_count(), 4);
    let (object, etag) = storage.assemble_multipart_upload(&upload).unwrap();
    assert_eq!(object, b"p1p2 again".to_vec());
    assert_eq!(storage.body_count(), 4);
    let version = storage.complete_multipart_upload(&upload, 5).unwrap();
    assert_eq!(version.etag, etag);
    assert_eq!(storage.body_count(), 3);
    let other = storage.open_multipart_upload("t", "b", "gone", 6).unwrap();
    storage.upload_part(&other, 1, b"x".to_vec()).unwrap();
    storage.upload_part(&other, 5, b"y".to_vec()).unwrap();
    let r = storage.assemble_multipart_upload(&other);
    assert!(matches!(r, Err(StoreError::BadRequest)));
    assert_eq!(storage.body_count(), 5);
    storage.abort_multipart_upload(&other).unwrap();
    assert_eq!(storage.body_count(), 3);
    storage
        .delete_object_version("b", "k", &first.version_id)
        .unwrap();
    assert_eq!(storage.body_count(), 2);
    assert!(!storage.holds_body(&first.storage_ref));
    assert!(storage.holds_body(&second.storage_ref));
    let r = storage.assemble_multipart_upload(&other);
    assert!(matches!(r, Err(StoreError::NotFound)));
}
