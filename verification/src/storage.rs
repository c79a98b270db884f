//! The object storage service: blobs, versions and uploads kept together.
//!
//! [`Storage`] owns the blob store, the version index and the upload
//! sessions. Each request of the service is one method. Its contract says
//! when the request is refused and which state follows it, over the
//! functions of [`State`](crate::model::State).

use crate::blob::{reference_for, ObjectStore};
use crate::digest::{
    content_etag, digests_of, etag_of, format_composite_etag, md5_digest, md5_of,
};
use crate::encoding::{lemma_number_of_numbered, number_of, numbered};
use crate::error::StoreError;
use crate::model::{
    lemma_completed_valid, lemma_initial_valid, lemma_with_bucket_valid,
    lemma_with_delete_marker_valid, lemma_with_part_valid, lemma_with_upload_valid,
    lemma_with_version_valid, lemma_without_no_uploads, lemma_without_one_more_upload,
    lemma_without_upload_valid, lemma_without_version_valid, part_held, version_held, Holder,
    State,
};
use crate::multipart::{
    expired, in_part_order, part_refs, UploadInfo, UploadState, UploadStore,
};
use crate::parts::{
    contiguous, is_contiguous, is_listed, is_part_reference, part_references, PartRecord,
};
use crate::versioning::{
    create_delete_marker, position_of, valid_history, views_of, VersionInfo, VersionStore,
    VersionView,
};
use vstd::prelude::*;

verus! {

/// The service.
pub struct Storage {
    blobs: ObjectStore,
    versions: VersionStore,
    uploads: UploadStore,
    holders: Ghost<Map<Seq<char>, Holder>>,
}

impl View for Storage {
    type V = State;

    closed spec fn view(&self) -> State {
        State {
            blobs: self.blobs@,
            holders: self.holders@,
            histories: Map::total(
                |at: (Seq<char>, Seq<char>)| self.versions.history(at.0, at.1),
            ),
            buckets: Set::new(|bucket: Seq<char>| self.versions.has_bucket(bucket)),
            uploads: self.uploads@,
            next_version: self.versions.next_id(),
            next_serial: self.blobs.next_serial(),
            next_upload: self.uploads.next_upload(),
        }
    }
}

/// The first `count` references of `list`.
spec fn released_refs(list: Seq<String>, count: int) -> Set<Seq<char>> {
    Set::new(|r: Seq<char>| exists|j: int| 0 <= j < count && (#[trigger] list[j])@ == r)
}

impl Storage {
    /// The state is valid.
    pub open spec fn wf(&self) -> bool {
        self@.valid()
    }

    /// A valid state has valid stores.
    proof fn lemma_stores(&self)
        requires
            self.wf(),
        ensures
            self.blobs.wf(),
            self.versions.wf(),
            self.uploads.wf(),
    {
        assert forall|bucket: Seq<char>, key: Seq<char>|
            valid_history(
                #[trigger] self.versions.history(bucket, key),
                bucket,
                key,
                self.versions.next_id(),
            ) by {
            assert(valid_history(self@.history(bucket, key), bucket, key, self@.next_version));
        }
    }

    /// A service without buckets, versions, bodies or uploads.
    pub fn new() -> (storage: Self)
        ensures
            storage.wf(),
            storage@ == State::initial(),
    {
        let storage = Storage {
            blobs: ObjectStore::new(),
            versions: VersionStore::new(),
            uploads: UploadStore::new(),
            holders: Ghost(Map::empty()),
        };
        proof {
            assert(storage@.histories =~= State::initial().histories);
            assert(storage@.buckets =~= State::initial().buckets);
            assert(storage@ =~= State::initial());
            lemma_initial_valid();
        }
        storage
    }

    /// Stores `content` as the newest version of `key` in `bucket`, under the
    /// entity tag `etag`, and hands the version back.
    ///
    /// The body is put first and the version is recorded after it. Fails with
    /// `Internal`, and changes nothing, when the blob store is full or the
    /// version identifiers are used up.
    pub fn create_version(
        &mut self,
        bucket: &str,
        key: &str,
        content: Vec<u8>,
        etag: String,
        now: u64,
    ) -> (r: Result<VersionInfo, StoreError>)
        requires
            old(self).wf(),
        ensures
            final(self).wf(),
            match r {
                Ok(version) => {
                    &&& old(self)@.write_refusal() is None
                    &&& version@ == old(self)@.version_to_come(bucket@, key@, content@, etag@, now)
                    &&& final(self)@ == old(self)@.with_version(bucket@, key@, content@, etag@, now)
                },
                Err(e) => old(self)@.write_refusal() == Some(e) && final(self)@ == old(self)@,
            },
    {
        proof {
            self.lemma_stores();
        }
        if self.versions.exhausted() || self.blobs.full() {
            return Err(StoreError::Internal);
        }
        let ghost before = *self;
        let size = content.len() as u64;
        let storage_ref = match self.blobs.put(content) {
            Ok(reference) => reference,
            Err(e) => {
                assert(false);
                return Err(e);
            },
        };
        let appended_version = self.versions.append(
            bucket,
            key,
            storage_ref,
            size,
            etag,
            false,
            now,
        );
        let version = match appended_version {
            Ok(version) => version,
            Err(e) => {
                assert(false);
                return Err(e);
            },
        };
        proof {
            let holder = Holder::Version {
                bucket: bucket@,
                key: key@,
                version_id: version@.version_id,
            };
            self.holders@ = before.holders@.insert(version@.storage_ref, holder);
            let t = before@.with_version(bucket@, key@, content@, etag@, now);
            assert(self@.histories =~= t.histories);
            assert(self@.buckets =~= t.buckets);
            assert(self@ =~= t);
            lemma_with_version_valid(before@, bucket@, key@, content@, etag@, now);
        }
        Ok(version)
    }

    /// Writes an object: stores `content` as the newest version of `key` in
    /// `bucket`, under the entity tag of `content`.
    ///
    /// Fails with `Internal`, and changes nothing, when the blob store is full
    /// or the version identifiers are used up.
    pub fn create_object(&mut self, bucket: &str, key: &str, content: Vec<u8>, now: u64) -> (r:
        Result<VersionInfo, StoreError>)
        requires
            old(self).wf(),
        ensures
            final(self).wf(),
            match r {
                Ok(version) => {
                    &&& old(self)@.write_refusal() is None
                    &&& version@ == old(self)@.version_to_come(
                        bucket@,
                        key@,
                        content@,
                        etag_of(content@),
                        now,
                    )
                    &&& final(self)@ == old(self)@.with_object(bucket@, key@, content@, now)
                },
                Err(e) => old(self)@.write_refusal() == Some(e) && final(self)@ == old(self)@,
            },
    {
        let etag = content_etag(content.as_slice());
        self.create_version(bucket, key, content, etag, now)
    }

    /// Reads an object: the latest version of `key` in `bucket` and its body.
    ///
    /// Fails with `NotFound` when the key has no version or its latest
    /// version is a delete marker.
    pub fn read_object(&self, bucket: &str, key: &str) -> (r: Result<
        (VersionInfo, Vec<u8>),
        StoreError,
    >)
        requires
            self.wf(),
        ensures
            match r {
                Ok((version, content)) => self@.read(bucket@, key@) == Ok::<
                    (VersionView, Seq<u8>),
                    StoreError,
                >((version@, content@)),
                Err(e) => self@.read(bucket@, key@) == Err::<(VersionView, Seq<u8>), StoreError>(e),
            },
    {
        let version = match self.versions.get_latest_version(bucket, key) {
            Some(version) => version,
            None => {
                return Err(StoreError::NotFound);
            },
        };
        if version.is_delete_marker {
            return Err(StoreError::NotFound);
        }
        proof {
            let h = self@.history(bucket@, key@);
            assert(h[h.len() - 1] == version@);
            assert(version_held(
                self@.blobs,
                self@.holders,
                self@.history(bucket@, key@)[h.len() - 1],
            ));
        }
        match self.blobs.get(version.storage_ref.as_str()) {
            Ok(content) => {
                let body = content.clone();
                assert(body@ =~= content@);
                Ok((version, body))
            },
            Err(e) => {
                assert(false);
                Err(e)
            },
        }
    }

    /// Deletes an object: records a delete marker as the newest version of
    /// `key` in `bucket`. The earlier versions and their bodies stay.
    ///
    /// Succeeds while a version identifier is left. Fails with `Internal`,
    /// and changes nothing, when the version identifiers are used up.
    pub fn delete_object(&mut self, bucket: &str, key: &str, now: u64) -> (r: Result<
        (),
        StoreError,
    >)
        requires
            old(self).wf(),
        ensures
            final(self).wf(),
            r is Ok <==> old(self)@.next_version < u64::MAX,
            match r {
                Ok(()) => {
                    &&& old(self)@.delete_refusal() is None
                    &&& final(self)@ == old(self)@.with_delete_marker(bucket@, key@, now)
                },
                Err(e) => old(self)@.delete_refusal() == Some(e) && final(self)@ == old(self)@,
            },
    {
        proof {
            self.lemma_stores();
        }
        let ghost before = *self;
        let r = create_delete_marker(&mut self.versions, bucket, key, now);
        proof {
            if r is Ok {
                let t = before@.with_delete_marker(bucket@, key@, now);
                assert(self@.histories =~= t.histories);
                assert(self@.buckets =~= t.buckets);
                assert(self@ =~= t);
                lemma_with_delete_marker_valid(before@, bucket@, key@, now);
            } else {
                assert(self@.histories =~= before@.histories);
                assert(self@.buckets =~= before@.buckets);
                assert(self@ =~= before@);
            }
        }
        r
    }

    /// The versions of `key` in `bucket`, oldest first.
    pub fn list_object_versions(&self, bucket: &str, key: &str) -> (versions: Vec<VersionInfo>)
        ensures
            views_of(versions@) == self@.history(bucket@, key@),
    {
        self.versions.get_versions(bucket, key)
    }

    /// The latest version of `key` in `bucket`, whether it is a delete marker
    /// or not.
    pub fn get_latest(&self, bucket: &str, key: &str) -> (r: Option<VersionInfo>)
        ensures
            match r {
                Some(version) => self@.latest(bucket@, key@) == Some(version@),
                None => self@.latest(bucket@, key@) is None,
            },
    {
        self.versions.get_latest_version(bucket, key)
    }

    /// The version of `key` in `bucket` with the identifier `version_id`, and
    /// its body.
    ///
    /// Fails with `NotFound` when there is no such version or it is a delete
    /// marker.
    pub fn get_object_version(&self, bucket: &str, key: &str, version_id: &str) -> (r: Result<
        (VersionInfo, Vec<u8>),
        StoreError,
    >)
        requires
            self.wf(),
        ensures
            match r {
                Ok((version, content)) => self@.read_version(bucket@, key@, version_id@) == Ok::<
                    (VersionView, Seq<u8>),
                    StoreError,
                >((version@, content@)),
                Err(e) => self@.read_version(bucket@, key@, version_id@) == Err::<
                    (VersionView, Seq<u8>),
                    StoreError,
                >(e),
            },
    {
        proof {
            self.lemma_stores();
        }
        let version = match self.versions.get_version(bucket, key, version_id) {
            Some(version) => version,
            None => {
                return Err(StoreError::NotFound);
            },
        };
        if version.is_delete_marker {
            return Err(StoreError::NotFound);
        }
        proof {
            let h = self@.history(bucket@, key@);
            let i = position_of(h, version_id@);
            assert(version_held(self@.blobs, self@.holders, self@.history(bucket@, key@)[i]));
        }
        match self.blobs.get(version.storage_ref.as_str()) {
            Ok(content) => {
                let body = content.clone();
                assert(body@ =~= content@);
                Ok((version, body))
            },
            Err(e) => {
                assert(false);
                Err(e)
            },
        }
    }

    /// Deletes the version of `key` in `bucket` with the identifier
    /// `version_id`, releases its body and hands the version back. If it was
    /// the latest, the most recent version that is left becomes the latest.
    ///
    /// Fails with `NotFound`, and changes nothing, when there is no such
    /// version.
    pub fn delete_object_version(&mut self, bucket: &str, key: &str, version_id: &str) -> (r:
        Result<VersionInfo, StoreError>)
        requires
            old(self).wf(),
        ensures
            final(self).wf(),
            match r {
                Ok(version) => {
                    &&& old(self)@.delete_version_refusal(bucket@, key@, version_id@) is None
                    &&& version@ == old(self)@.history(bucket@, key@)[position_of(
                        old(self)@.history(bucket@, key@),
                        version_id@,
                    )]
                    &&& final(self)@ == old(self)@.without_version(bucket@, key@, version_id@)
                },
                Err(e) => {
                    &&& old(self)@.delete_version_refusal(bucket@, key@, version_id@) == Some(e)
                    &&& final(self)@ == old(self)@
                },
            },
    {
        proof {
            self.lemma_stores();
        }
        let ghost before = *self;
        let ghost h = before@.history(bucket@, key@);
        let version = match self.versions.delete_version(bucket, key, version_id) {
            Ok(version) => version,
            Err(e) => {
                proof {
                    assert(self@.histories =~= before@.histories);
                    assert(self@.buckets =~= before@.buckets);
                    assert(self@ =~= before@);
                }
                return Err(e);
            },
        };
        let ghost at = position_of(h, version_id@);
        proof {
            assert(version_held(
                before@.blobs,
                before@.holders,
                before@.history(bucket@, key@)[at],
            ));
        }
        if !version.is_delete_marker {
            let released = self.blobs.delete(version.storage_ref.as_str());
            assert(released is Ok);
            proof {
                self.holders@ = before.holders@.remove(version@.storage_ref);
            }
        }
        proof {
            let t = before@.without_version(bucket@, key@, version_id@);
            assert(self@.histories =~= t.histories);
            assert(self@.buckets =~= t.buckets);
            assert(self@ =~= t);
            lemma_without_version_valid(before@, bucket@, key@, version_id@);
        }
        Ok(version)
    }

    /// Switches versioning on for `bucket`. The histories stay as they are.
    pub fn put_bucket_versioning(&mut self, bucket: &str)
        requires
            old(self).wf(),
        ensures
            final(self).wf(),
            final(self)@ == old(self)@.with_bucket(bucket@),
    {
        proof {
            self.lemma_stores();
        }
        let ghost before = *self;
        self.versions.enable_versioning(bucket);
        proof {
            let t = before@.with_bucket(bucket@);
            assert(self@.histories =~= t.histories);
            assert(self@.buckets =~= t.buckets);
            assert(self@ =~= t);
            lemma_with_bucket_valid(before@, bucket@);
        }
    }

    /// Whether versioning is on for `bucket`.
    pub fn get_bucket_versioning(&self, bucket: &str) -> (enabled: bool)
        ensures
            enabled == self@.buckets.contains(bucket@),
    {
        self.versions.versioning_enabled(bucket)
    }

    /// The upload session `upload_id`, if it is under way.
    pub fn get_upload(&self, upload_id: &str) -> (r: Option<UploadInfo>)
        ensures
            match r {
                Some(upload) => self@.uploads.contains_key(upload_id@) && upload@
                    == self@.uploads[upload_id@],
                None => !self@.uploads.contains_key(upload_id@),
            },
    {
        self.uploads.get_upload(upload_id)
    }

    /// The number of upload sessions that are under way.
    pub fn upload_count(&self) -> (n: usize)
        ensures
            self@.uploads.dom().finite(),
            n == self@.uploads.dom().len(),
    {
        self.uploads.len()
    }

    /// Whether the blob store holds a body under `reference`.
    pub fn holds_body(&self, reference: &str) -> (b: bool)
        ensures
            b == self@.blobs.contains_key(reference@),
    {
        self.blobs.contains(reference)
    }

    /// The reference under which a body `content` is kept if it is stored
    /// next, as the body of an object or of a part.
    pub fn next_reference(&self, content: &[u8]) -> (reference: String)
        ensures
            reference@ == reference_for(content@, self@.next_serial),
    {
        self.blobs.next_reference(content)
    }

    /// The number of bodies that the blob store holds.
    pub fn body_count(&self) -> (n: usize)
        ensures
            self@.blobs.dom().finite(),
            n == self@.blobs.dom().len(),
    {
        self.blobs.len()
    }

    /// Opens an upload session for `key` in `bucket` and hands back its
    /// identifier: `token`, numbered from the counter of uploads.
    ///
    /// Fails with `Internal`, and changes nothing, when the counter of uploads
    /// is used up.
    pub fn open_multipart_upload(&mut self, token: &str, bucket: &str, key: &str, now: u64) -> (r:
        Result<String, StoreError>)
        requires
            old(self).wf(),
        ensures
            final(self).wf(),
            match r {
                Ok(upload_id) => {
                    &&& old(self)@.open_refusal() is None
                    &&& upload_id@ == numbered(old(self)@.next_upload, token@)
                    &&& final(self)@ == old(self)@.with_upload(upload_id@, bucket@, key@, now)
                },
                Err(e) => old(self)@.open_refusal() == Some(e) && final(self)@ == old(self)@,
            },
    {
        proof {
            self.lemma_stores();
        }
        let ghost before = *self;
        let r = self.uploads.open_upload(token, bucket.to_owned(), key.to_owned(), now);
        proof {
            if r is Ok {
                let id = r->Ok_0@;
                lemma_number_of_numbered(before@.next_upload, token@);
                assert(self@ =~= before@.with_upload(id, bucket@, key@, now));
                lemma_with_upload_valid(before@, id, bucket@, key@, now);
            } else {
                assert(self@ =~= before@);
            }
        }
        r
    }

    /// Opens an upload session for `key` in `bucket` and hands back its
    /// identifier: a token drawn at random, numbered from the counter of
    /// uploads, so that no identifier is handed out twice.
    ///
    /// Fails with `Internal`, and changes nothing, when the counter of uploads
    /// is used up.
    pub fn initiate_multipart_upload(&mut self, bucket: &str, key: &str, now: u64) -> (r: Result<
        String,
        StoreError,
    >)
        requires
            old(self).wf(),
        ensures
            final(self).wf(),
            match r {
                Ok(upload_id) => {
                    &&& old(self)@.open_refusal() is None
                    &&& number_of(upload_id@) == Some(old(self)@.next_upload)
                    &&& final(self)@ == old(self)@.with_upload(upload_id@, bucket@, key@, now)
                },
                Err(e) => old(self)@.open_refusal() == Some(e) && final(self)@ == old(self)@,
            },
    {
        proof {
            self.lemma_stores();
        }
        let ghost before = *self;
        let r = self.uploads.create_upload(bucket.to_owned(), key.to_owned(), now);
        proof {
            if r is Ok {
                let id = r->Ok_0@;
                assert(self@ =~= before@.with_upload(id, bucket@, key@, now));
                lemma_with_upload_valid(before@, id, bucket@, key@, now);
            } else {
                assert(self@ =~= before@);
            }
        }
        r
    }

    /// Stages `content` as the part `part_number` of the upload `upload_id`
    /// and hands back the entity tag of `content`. A part that was staged
    /// under the same number before is replaced and its body released.
    ///
    /// The body is stored before the part is recorded. Fails with `NotFound`
    /// when there is no such upload, with `BadRequest` when `part_number` is
    /// zero, and with `Internal` when the blob store is full; nothing changes
    /// then.
    pub fn upload_part(&mut self, upload_id: &str, part_number: u32, content: Vec<u8>) -> (r:
        Result<String, StoreError>)
        requires
            old(self).wf(),
        ensures
            final(self).wf(),
            match r {
                Ok(etag) => {
                    &&& old(self)@.part_refusal(upload_id@, part_number) is None
                    &&& etag@ == etag_of(content@)
                    &&& final(self)@ == old(self)@.with_part(upload_id@, part_number, content@)
                },
                Err(e) => {
                    &&& old(self)@.part_refusal(upload_id@, part_number) == Some(e)
                    &&& final(self)@ == old(self)@
                },
            },
    {
        proof {
            self.lemma_stores();
        }
        if !self.uploads.contains(upload_id) {
            return Err(StoreError::NotFound);
        }
        if part_number == 0 {
            return Err(StoreError::BadRequest);
        }
        if self.blobs.full() {
            return Err(StoreError::Internal);
        }
        let ghost before = *self;
        let etag = content_etag(content.as_slice());
        let size = content.len() as u64;
        let storage_ref = match self.blobs.put(content) {
            Ok(reference) => reference,
            Err(e) => {
                assert(false);
                return Err(e);
            },
        };
        let ghost fresh = storage_ref@;
        let record = PartRecord { etag: etag.clone(), size, storage_ref };
        let previous = match self.uploads.add_part(upload_id, part_number, record) {
            Ok(previous) => previous,
            Err(e) => {
                assert(false);
                return Err(e);
            },
        };
        proof {
            if previous is Some {
                assert(part_held(
                    before@.blobs,
                    before@.holders,
                    upload_id@,
                    part_number,
                    before@.uploads[upload_id@].parts[part_number],
                ));
            }
        }
        match previous {
            Some(replaced) => {
                let released = self.blobs.delete(replaced.storage_ref.as_str());
                assert(released is Ok);
                proof {
                    self.holders@ = before.holders@.remove(replaced@.storage_ref).insert(
                        fresh,
                        Holder::Part { upload_id: upload_id@, number: part_number },
                    );
                }
            },
            None => {
                proof {
                    self.holders@ = before.holders@.insert(
                        fresh,
                        Holder::Part { upload_id: upload_id@, number: part_number },
                    );
                }
            },
        }
        proof {
            let t = before@.with_part(upload_id@, part_number, content@);
            assert(self@.blobs =~= t.blobs);
            assert(self@.holders =~= t.holders);
            assert(self@.uploads =~= t.uploads);
            assert(self@.histories =~= t.histories);
            assert(self@.buckets =~= t.buckets);
            assert(self@ =~= t);
            lemma_with_part_valid(before@, upload_id@, part_number, content@);
        }
        Ok(etag)
    }

    /// Releases the bodies of the parts of `session`.
    fn release_parts(&mut self, session: &UploadInfo)
        requires
            old(self).blobs.wf(),
        ensures
            final(self).blobs.wf(),
            final(self).uploads == old(self).uploads,
            final(self).versions == old(self).versions,
            final(self).blobs.next_serial() == old(self).blobs.next_serial(),
            final(self).blobs@ == old(self).blobs@.remove_keys(part_refs(session@)),
            final(self).holders@ == old(self).holders@.remove_keys(part_refs(session@)),
    {
        let ghost before = *self;
        let references = part_references(&session.parts);
        let ghost listed = references@;
        let n = references.len();
        let mut i: usize = 0;
        assert(self.blobs@ =~= before.blobs@.remove_keys(released_refs(listed, 0)));
        assert(self.holders@ =~= before.holders@.remove_keys(released_refs(listed, 0)));
        while i < n
            invariant
                i <= n,
                n == listed.len(),
                listed == references@,
                self.blobs.wf(),
                self.uploads == before.uploads,
                self.versions == before.versions,
                self.blobs.next_serial() == before.blobs.next_serial(),
                self.blobs@ == before.blobs@.remove_keys(released_refs(listed, i as int)),
                self.holders@ == before.holders@.remove_keys(released_refs(listed, i as int)),
            decreases n - i,
        {
            let ghost gone = references[i as int]@;
            let ghost step = *self;
            let _ = self.blobs.delete(references[i].as_str());
            proof {
                self.holders@ = step.holders@.remove(gone);
                assert forall|r: Seq<char>|
                    released_refs(listed, i as int + 1).contains(r) <==> (released_refs(
                        listed,
                        i as int,
                    ).contains(r) || r == gone) by {
                    if released_refs(listed, i as int).contains(r) {
                        let j = choose|j: int| 0 <= j < i && (#[trigger] listed[j])@ == r;
                        assert(0 <= j < i + 1 && listed[j]@ == r);
                    }
                    if r == gone {
                        assert(listed[i as int]@ == r);
                    }
                }
                assert(self.blobs@ =~= before.blobs@.remove_keys(
                    released_refs(listed, i as int + 1),
                ));
                assert(self.holders@ =~= before.holders@.remove_keys(
                    released_refs(listed, i as int + 1),
                ));
            }
            i += 1;
        }
        proof {
            assert(released_refs(listed, n as int) =~= part_refs(session@)) by {
                assert forall|r: Seq<char>| released_refs(listed, n as int).contains(
                    r,
                ) implies part_refs(session@).contains(r) by {
                    assert(is_listed(listed, r));
                    assert(is_part_reference(session.parts@, r));
                    let kept = session.parts@;
                    let m = choose|m: u32|
                        kept.contains_key(m) && (#[trigger] kept[m]).storage_ref@ == r;
                    assert(session@.parts.contains_key(m));
                    assert(session@.parts[m].storage_ref == r);
                }
                assert forall|r: Seq<char>| part_refs(session@).contains(
                    r,
                ) implies released_refs(listed, n as int).contains(r) by {
                    let m = choose|m: u32|
                        session@.parts.contains_key(m) && (#[trigger] session@.parts[m]).storage_ref
                            == r;
                    assert(session.parts@.contains_key(m));
                    assert(session.parts@[m].storage_ref@ == r);
                    assert(is_part_reference(session.parts@, r));
                    assert(is_listed(listed, r));
                }
            }
        }
    }

    /// Aborts the upload `upload_id`: the session leaves the set of uploads
    /// and the bodies of its parts are released.
    ///
    /// Fails with `NotFound`, and changes nothing, when there is no such
    /// upload.
    pub fn abort_multipart_upload(&mut self, upload_id: &str) -> (r: Result<(), StoreError>)
        requires
            old(self).wf(),
        ensures
            final(self).wf(),
            match r {
                Ok(()) => {
                    &&& old(self)@.abort_refusal(upload_id@) is None
                    &&& final(self)@ == old(self)@.without_upload(upload_id@)
                },
                Err(e) => old(self)@.abort_refusal(upload_id@) == Some(e) && final(self)@ == old(
                    self,
                )@,
            },
    {
        proof {
            self.lemma_stores();
        }
        let ghost before = *self;
        let session = match self.uploads.close_upload(upload_id, UploadState::Aborted) {
            Ok(session) => session,
            Err(e) => {
                assert(self@ =~= before@);
                return Err(e);
            },
        };
        assert(part_refs(session@) =~= part_refs(before@.uploads[upload_id@]));
        self.release_parts(&session);
        proof {
            let t = before@.without_upload(upload_id@);
            assert(self@.histories =~= t.histories);
            assert(self@.buckets =~= t.buckets);
            assert(self@ =~= t);
            lemma_without_upload_valid(before@, upload_id@);
        }
        Ok(())
    }

    /// Assembles the object of the upload `upload_id` without completing it:
    /// hands back the bodies of its parts, taken in the order of the part
    /// numbers, as one object, and the entity tag of that object.
    ///
    /// Fails with `NotFound` when there is no such upload, and with
    /// `BadRequest` when the part numbers are not exactly 1, 2, ..., N.
    pub fn assemble_multipart_upload(&self, upload_id: &str) -> (r: Result<
        (Vec<u8>, String),
        StoreError,
    >)
        requires
            self.wf(),
        ensures
            match r {
                Ok((object, etag)) => {
                    &&& self@.assembly_refusal(upload_id@) is None
                    &&& object@ == self@.assembled_object(upload_id@)
                    &&& etag@ == self@.assembled_etag(upload_id@)
                },
                Err(e) => self@.assembly_refusal(upload_id@) == Some(e),
            },
    {
        let session = match self.uploads.upload_ref(upload_id) {
            Some(session) => session,
            None => {
                return Err(StoreError::NotFound);
            },
        };
        let ghost sv = session@;
        let ghost bodies = self@.part_bodies(upload_id@);
        proof {
            assert(sv.parts.dom() =~= session.parts@.dom());
            assert(contiguous(sv.parts) <==> contiguous(session.parts@));
        }
        if !is_contiguous(&session.parts) {
            return Err(StoreError::BadRequest);
        }
        let n = session.parts.len();
        let ghost ordered = in_part_order(bodies, n as nat);
        let mut object: Vec<u8> = Vec::new();
        let mut digests: Vec<u8> = Vec::new();
        let mut i: u32 = 0;
        proof {
            assert(ordered.take(0) =~= Seq::<Seq<u8>>::empty());
            assert(digests_of(ordered).take(0) =~= Seq::<Seq<u8>>::empty());
        }
        while (i as usize) < n
            invariant
                i <= n,
                n <= u32::MAX,
                n == session.parts@.dom().len(),
                contiguous(session.parts@),
                sv == session@,
                self.wf(),
                self@.uploads.contains_key(upload_id@),
                self@.uploads[upload_id@] == sv,
                bodies == self@.part_bodies(upload_id@),
                ordered == in_part_order(bodies, n as nat),
                object@ == ordered.take(i as int).flatten(),
                digests@ == digests_of(ordered).take(i as int).flatten(),
            decreases n - i,
        {
            let number: u32 = i + 1;
            proof {
                assert(session.parts@.contains_key(number));
            }
            let record = match session.parts.get(&number) {
                Some(record) => record,
                None => {
                    assert(false);
                    return Err(StoreError::NotFound);
                },
            };
            proof {
                assert(sv.parts.contains_key(number));
                assert(sv.parts[number] == record@);
                assert(part_held(
                    self@.blobs,
                    self@.holders,
                    upload_id@,
                    number,
                    self@.uploads[upload_id@].parts[number],
                ));
                assert(bodies[number] == self@.blobs[record@.storage_ref]);
                assert(ordered[i as int] == bodies[(i as int + 1) as u32]);
            }
            let bytes = match self.blobs.get(record.storage_ref.as_str()) {
                Ok(bytes) => bytes,
                Err(_) => {
                    assert(false);
                    return Err(StoreError::NotFound);
                },
            };
            object.extend_from_slice(bytes.as_slice());
            let d = md5_of(bytes.as_slice());
            digests.extend_from_slice(d.as_slice());
            proof {
                assert(bytes@ == ordered[i as int]);
                assert(ordered.take(i as int + 1) =~= ordered.take(i as int).push(
                    ordered[i as int],
                ));
                ordered.take(i as int).lemma_flatten_push(ordered[i as int]);
                let ds = digests_of(ordered);
                assert(ds.take(i as int + 1) =~= ds.take(i as int).push(ds[i as int]));
                ds.take(i as int).lemma_flatten_push(ds[i as int]);
                assert(ds[i as int] == md5_digest(ordered[i as int]));
            }
            i += 1;
        }
        let outer = md5_of(digests.as_slice());
        let etag = format_composite_etag(outer.as_slice(), n as u64);
        proof {
            assert(i as int == n as int);
            assert(ordered.take(n as int) =~= ordered);
            assert(digests_of(ordered).take(n as int) =~= digests_of(ordered));
            assert(n as nat == self@.part_count(upload_id@));
        }
        Ok((object, etag))
    }

    /// Completes the upload `upload_id`: the bodies of its parts, taken in the
    /// order of the part numbers, become one object, which is stored as the
    /// newest version of the upload's key; then the session leaves the set of
    /// uploads and the bodies of its parts are released.
    ///
    /// Succeeds for an upload that is under way and has the part numbers 1,
    /// 2, ..., N, while a serial and a version identifier are left. Fails
    /// with `NotFound` when there is no such upload, with `BadRequest` when
    /// the part numbers are not exactly 1, 2, ..., N, and with `Internal` when
    /// the blob store is full or the version identifiers are used up. Nothing
    /// changes then: the session and its parts stay as they are.
    pub fn complete_multipart_upload(&mut self, upload_id: &str, now: u64) -> (r: Result<
        VersionInfo,
        StoreError,
    >)
        requires
            old(self).wf(),
        ensures
            final(self).wf(),
            r is Ok <==> old(self)@.uploads.contains_key(upload_id@) && contiguous(
                old(self)@.uploads[upload_id@].parts,
            ) && !old(self)@.out_of_room(),
            match r {
                Ok(version) => {
                    &&& old(self)@.completion_refusal(upload_id@) is None
                    &&& version@ == old(self)@.completed_version(upload_id@, now)
                    &&& final(self)@ == old(self)@.completed(upload_id@, now)
                },
                Err(e) => {
                    &&& old(self)@.completion_refusal(upload_id@) == Some(e)
                    &&& final(self)@ == old(self)@
                },
            },
    {
        proof {
            self.lemma_stores();
        }
        let ghost before = *self;
        let (object, etag) = match self.assemble_multipart_upload(upload_id) {
            Ok(assembly) => assembly,
            Err(e) => {
                return Err(e);
            },
        };
        if self.blobs.full() || self.versions.exhausted() {
            return Err(StoreError::Internal);
        }
        let (bucket, key) = match self.uploads.upload_ref(upload_id) {
            Some(session) => (session.bucket.clone(), session.key.clone()),
            None => {
                assert(false);
                return Err(StoreError::NotFound);
            },
        };
        let ghost sv = before@.uploads[upload_id@];
        let ghost content = object@;
        let total = object.len();
        assert(content.len() <= u64::MAX);
        let version = match self.create_version(bucket.as_str(), key.as_str(), object, etag, now) {
            Ok(version) => version,
            Err(e) => {
                assert(false);
                return Err(e);
            },
        };
        proof {
            self.lemma_stores();
        }
        let closed = match self.uploads.close_upload(upload_id, UploadState::Completed) {
            Ok(closed) => closed,
            Err(e) => {
                assert(false);
                return Err(e);
            },
        };
        assert(part_refs(closed@) =~= part_refs(sv));
        self.release_parts(&closed);
        proof {
            let fresh = version@.storage_ref;
            lemma_with_version_valid(before@, bucket@, key@, content, etag@, now);
            if part_refs(sv).contains(fresh) {
                let m = choose|m: u32|
                    sv.parts.contains_key(m) && (#[trigger] sv.parts[m]).storage_ref == fresh;
                assert(part_held(
                    before@.blobs,
                    before@.holders,
                    upload_id@,
                    m,
                    before@.uploads[upload_id@].parts[m],
                ));
                assert(false);
            }
            let t = before@.completed(upload_id@, now);
            assert(self@.blobs =~= t.blobs);
            assert(self@.holders =~= t.holders);
            assert(self@.uploads =~= t.uploads);
            assert(self@.histories =~= t.histories);
            assert(self@.buckets =~= t.buckets);
            assert(self@ =~= t);
            lemma_completed_valid(before@, upload_id@, now);
        }
        Ok(version)
    }

    /// Collects the uploads that have outlived `ttl` at the time `now`: each
    /// is aborted, so that the bodies of its parts are released. Hands back
    /// the number of uploads collected.
    pub fn expire_uploads(&mut self, now: u64, ttl: u64) -> (collected: usize)
        requires
            old(self).wf(),
        ensures
            final(self).wf(),
            final(self)@ == old(self)@.without_expired(now, ttl),
            collected == old(self)@.expired_uploads(now, ttl).len(),
    {
        proof {
            self.lemma_stores();
        }
        let ghost before = *self;
        let ghost listing = self.uploads.ids();
        let ghost gone = before@.expired_uploads(now, ttl);
        let n = self.uploads.len();
        let mut picked: Vec<String> = Vec::new();
        let ghost mut at: Seq<int> = Seq::empty();
        let mut i: usize = 0;
        while i < n
            invariant
                i <= n,
                *self == before,
                self.wf(),
                gone == before@.expired_uploads(now, ttl),
                listing == self.uploads.ids(),
                n == listing.len(),
                listing.no_duplicates(),
                self@.uploads.dom() == listing.to_set(),
                picked@.len() == at.len(),
                forall|t: int|
                    0 <= t < at.len() ==> 0 <= #[trigger] at[t] < i && picked@[t]@ == listing[at[t]]
                        && gone.contains(listing[at[t]]),
                forall|t: int, u: int| 0 <= t < u < at.len() ==> at[t] < at[u],
                forall|j: int|
                    0 <= j < i && gone.contains(#[trigger] listing[j]) ==> at.contains(j),
            decreases n - i,
        {
            let upload = self.uploads.upload_at(i);
            if expired(upload.created_at, now, ttl) {
                picked.push(upload.upload_id.clone());
                proof {
                    let earlier = at;
                    at = at.push(i as int);
                    assert(self@.uploads.contains_key(listing[i as int]));
                    assert(before@.valid());
                    assert(upload@.upload_id == listing[i as int]);
                    assert forall|j: int|
                        0 <= j < i + 1 && gone.contains(#[trigger] listing[j]) implies at.contains(
                        j,
                    ) by {
                        if j < i {
                            assert(earlier.contains(j));
                            let t = choose|t: int| 0 <= t < earlier.len() && earlier[t] == j;
                            assert(at[t] == j);
                        } else {
                            assert(at[at.len() - 1] == j);
                        }
                    }
                }
            } else {
                proof {
                    assert(self@.uploads.contains_key(listing[i as int]));
                    assert(!gone.contains(listing[i as int]));
                }
            }
            i += 1;
        }
        let ghost ids = Seq::new(picked@.len(), |t: int| picked@[t]@);
        proof {
            assert forall|t: int, u: int|
                0 <= t < ids.len() && 0 <= u < ids.len() && t != u implies ids[t] != ids[u] by {
                if t < u {
                    assert(at[t] < at[u]);
                } else {
                    assert(at[u] < at[t]);
                }
            }
            assert(ids.to_set() =~= gone) by {
                assert forall|id: Seq<char>| gone.contains(id) implies ids.to_set().contains(
                    id,
                ) by {
                    assert(listing.to_set().contains(id));
                    let j = choose|j: int| 0 <= j < listing.len() && listing[j] == id;
                    assert(gone.contains(listing[j]));
                    assert(at.contains(j));
                    let t = choose|t: int| 0 <= t < at.len() && at[t] == j;
                    assert(ids[t] == id);
                }
                assert forall|id: Seq<char>| ids.to_set().contains(id) implies gone.contains(
                    id,
                ) by {
                    let t = choose|t: int| 0 <= t < ids.len() && ids[t] == id;
                    assert(gone.contains(listing[at[t]]));
                }
            }
            ids.unique_seq_to_set();
            lemma_without_no_uploads(before@);
            assert(ids.take(0).to_set() =~= Set::<Seq<char>>::empty());
        }
        let count = picked.len();
        let mut k: usize = 0;
        while k < count
            invariant
                k <= count,
                count == picked@.len(),
                count == ids.len(),
                ids == Seq::new(picked@.len(), |t: int| picked@[t]@),
                ids.no_duplicates(),
                ids.to_set() == gone,
                gone == before@.expired_uploads(now, ttl),
                self.wf(),
                self@ == before@.without_uploads(ids.take(k as int).to_set()),
            decreases count - k,
        {
            let ghost done = ids.take(k as int).to_set();
            let ghost id = ids[k as int];
            proof {
                assert(gone.contains(id)) by {
                    assert(ids.to_set().contains(ids[k as int]));
                }
                if done.contains(id) {
                    let prev = ids.take(k as int);
                    let t = choose|t: int| 0 <= t < prev.len() && prev[t] == id;
                    assert(ids[t] == ids[k as int]);
                }
                assert(self@.uploads.contains_key(id));
            }
            let aborted = self.abort_multipart_upload(picked[k].as_str());
            proof {
                assert(aborted is Ok);
                lemma_without_one_more_upload(before@, done, id);
                let next = ids.take(k as int + 1);
                let prev = ids.take(k as int);
                assert(next.to_set() =~= done.insert(id)) by {
                    assert(next =~= prev.push(id));
                    assert forall|x: Seq<char>| next.to_set().contains(x) implies done.insert(
                        id,
                    ).contains(x) by {
                        let t = choose|t: int| 0 <= t < next.len() && next[t] == x;
                        if t < k {
                            assert(prev[t] == x);
                        }
                    }
                    assert forall|x: Seq<char>|
                        done.insert(id).contains(x) implies next.to_set().contains(x) by {
                        if x == id {
                            assert(next[k as int] == x);
                        } else {
                            let t = choose|t: int| 0 <= t < prev.len() && prev[t] == x;
                            assert(next[t] == x);
                        }
                    }
                }
            }
            k += 1;
        }
        proof {
            assert(ids.take(count as int) =~= ids);
        }
        count
    }
}

} // verus!
