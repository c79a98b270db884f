//! The service as a mathematical state, and each request as a function on it.
//!
//! [`State`] holds what the service holds: the blobs, the history of every
//! key, the upload sessions and the counters from which references and
//! identifiers are made. Each request has a function that says when it is
//! refused and a function that gives the state after it. The executable
//! service is proved to follow these functions, and the rules of the service
//! are proved of them here.

use crate::blob::{lemma_next_reference_is_free, reference_for, valid_blobs};
use crate::digest::{composite_etag, digests_of, etag_of};
use crate::encoding::{
    hex, lemma_number_of_numbered, lemma_numbered_texts_differ, lemma_parsed_hex_of_hex, number_of,
    numbered,
};
use crate::error::StoreError;
use crate::multipart::{
    assembled, in_part_order, is_expired, lemma_assembled_len, opened, part_refs, total_len,
    valid_uploads, with_part, UploadView,
};
use crate::parts::{contiguous, PartView};
use crate::versioning::{
    admission, appended, delete_marker, flagged, has_version, latest_of, lemma_appended_valid,
    retired,
    lemma_identifiers_differ, lemma_position_of, lemma_valid_history_later, lemma_without_valid,
    position_of, valid_entry, valid_history, version_number, without, VersionView,
};
use vstd::prelude::*;

verus! {

/// Who holds a body of the blob store.
pub enum Holder {
    /// The version `version_id` of `key` in `bucket`.
    Version { bucket: Seq<char>, key: Seq<char>, version_id: Seq<char> },
    /// The part `number` of the upload `upload_id`.
    Part { upload_id: Seq<char>, number: u32 },
}

/// The body of the version `v` is in `blobs`, has the length that `v` states,
/// and is held by `v`. Nothing is asked of a delete marker.
pub open spec fn version_held(
    blobs: Map<Seq<char>, Seq<u8>>,
    holders: Map<Seq<char>, Holder>,
    v: VersionView,
) -> bool {
    !v.is_delete_marker ==> {
        &&& blobs.contains_key(v.storage_ref)
        &&& blobs[v.storage_ref].len() == v.size
        &&& holders.contains_key(v.storage_ref)
        &&& holders[v.storage_ref] == Holder::Version {
            bucket: v.bucket,
            key: v.key,
            version_id: v.version_id,
        }
    }
}

/// The body of the part `number` of the upload `upload_id` is in `blobs`, has
/// the length and the entity tag that the record `p` states, and is held by
/// that part.
pub open spec fn part_held(
    blobs: Map<Seq<char>, Seq<u8>>,
    holders: Map<Seq<char>, Holder>,
    upload_id: Seq<char>,
    number: u32,
    p: PartView,
) -> bool {
    &&& blobs.contains_key(p.storage_ref)
    &&& blobs[p.storage_ref].len() == p.size
    &&& p.etag == etag_of(blobs[p.storage_ref])
    &&& holders.contains_key(p.storage_ref)
    &&& holders[p.storage_ref] == Holder::Part { upload_id, number }
}

/// What the service holds.
#[verifier::ext_equal]
pub struct State {
    /// The body held under each reference of the blob store.
    pub blobs: Map<Seq<char>, Seq<u8>>,
    /// The version or part that holds each body.
    pub holders: Map<Seq<char>, Holder>,
    /// The versions of every bucket and key, oldest first; empty where there
    /// are none.
    pub histories: Map<(Seq<char>, Seq<char>), Seq<VersionView>>,
    /// The buckets for which versioning was switched on or in which a version
    /// was recorded.
    pub buckets: Set<Seq<char>>,
    /// The upload sessions that are under way.
    pub uploads: Map<Seq<char>, UploadView>,
    /// The number that the next version identifier stands for.
    pub next_version: nat,
    /// The serial that the next body gets.
    pub next_serial: nat,
    /// The number that the next upload identifier is made with.
    pub next_upload: nat,
}

impl State {
    /// The state of a service that was just started.
    pub open spec fn initial() -> State {
        State {
            blobs: Map::empty(),
            holders: Map::empty(),
            histories: Map::total(|at: (Seq<char>, Seq<char>)| Seq::<VersionView>::empty()),
            buckets: Set::empty(),
            uploads: Map::empty(),
            next_version: 1,
            next_serial: 0,
            next_upload: 0,
        }
    }

    /// The versions of `key` in `bucket`, oldest first.
    pub open spec fn history(self, bucket: Seq<char>, key: Seq<char>) -> Seq<VersionView> {
        self.histories[(bucket, key)]
    }

    /// The latest version of `key` in `bucket`.
    pub open spec fn latest(self, bucket: Seq<char>, key: Seq<char>) -> Option<VersionView> {
        latest_of(self.history(bucket, key))
    }

    /// Whether `holder` is there and keeps the body under `reference`: it is
    /// a version of a history, and no delete marker, or a part of an upload
    /// that is under way, and its record names `reference`.
    pub open spec fn holds(self, holder: Holder, reference: Seq<char>) -> bool {
        match holder {
            Holder::Version { bucket, key, version_id } => {
                let h = self.history(bucket, key);
                &&& has_version(h, version_id)
                &&& !h[position_of(h, version_id)].is_delete_marker
                &&& h[position_of(h, version_id)].storage_ref == reference
            },
            Holder::Part { upload_id, number } => {
                &&& self.uploads.contains_key(upload_id)
                &&& self.uploads[upload_id].parts.contains_key(number)
                &&& self.uploads[upload_id].parts[number].storage_ref == reference
            },
        }
    }

    /// Every key has a history, and every history is valid.
    pub open spec fn histories_valid(self) -> bool {
        &&& forall|at: (Seq<char>, Seq<char>)| self.histories.contains_key(at)
        &&& forall|b: Seq<char>, k: Seq<char>|
            valid_history(#[trigger] self.history(b, k), b, k, self.next_version)
    }

    /// Every version that is no delete marker and every staged part has its
    /// body in the blob store and is its holder.
    pub open spec fn holders_have_bodies(self) -> bool {
        &&& forall|b: Seq<char>, k: Seq<char>, i: int|
            0 <= i < self.history(b, k).len() ==> version_held(
                self.blobs,
                self.holders,
                #[trigger] self.history(b, k)[i],
            )
        &&& forall|u: Seq<char>, n: u32|
            #![trigger self.uploads[u].parts[n]]
            self.uploads.contains_key(u) && self.uploads[u].parts.contains_key(n) ==> part_held(
                self.blobs,
                self.holders,
                u,
                n,
                self.uploads[u].parts[n],
            )
    }

    /// Every body of the blob store has a holder that is there and keeps it.
    pub open spec fn bodies_have_holders(self) -> bool {
        forall|r: Seq<char>| #[trigger]
            self.blobs.contains_key(r) ==> self.holders.contains_key(r) && self.holds(
                self.holders[r],
                r,
            )
    }

    /// The invariant of the service: the histories, the blobs and the uploads
    /// are valid each for itself, every version that is no delete marker and
    /// every staged part holds its body in the blob store, and every body of
    /// the blob store is held. As a body has one holder, no two versions or
    /// parts share a body; as every body is held, none is left behind.
    pub open spec fn valid(self) -> bool {
        &&& valid_blobs(self.blobs, self.next_serial)
        &&& valid_uploads(self.uploads, self.next_upload)
        &&& self.histories_valid()
        &&& self.holders_have_bodies()
        &&& self.bodies_have_holders()
    }

    /// The blob store is full or the version identifiers are used up: nothing
    /// can be written.
    pub open spec fn out_of_room(self) -> bool {
        self.next_serial >= u64::MAX || self.next_version >= u64::MAX
    }

    /// The version that is recorded when `content` is written to `key` in
    /// `bucket` under the entity tag `etag` at the time `now`.
    pub open spec fn version_to_come(
        self,
        bucket: Seq<char>,
        key: Seq<char>,
        content: Seq<u8>,
        etag: Seq<char>,
        now: u64,
    ) -> VersionView {
        VersionView {
            version_id: hex(self.next_version),
            bucket,
            key,
            is_latest: true,
            is_delete_marker: false,
            size: content.len() as u64,
            last_modified: now,
            etag,
            storage_ref: reference_for(content, self.next_serial),
        }
    }

    /// The state after `content` was written to `key` in `bucket` under the
    /// entity tag `etag`: the body is in the blob store under a new
    /// reference, and the new version ends the history of the key.
    pub open spec fn with_version(
        self,
        bucket: Seq<char>,
        key: Seq<char>,
        content: Seq<u8>,
        etag: Seq<char>,
        now: u64,
    ) -> State {
        let v = self.version_to_come(bucket, key, content, etag, now);
        State {
            blobs: self.blobs.insert(v.storage_ref, content),
            holders: self.holders.insert(
                v.storage_ref,
                Holder::Version { bucket, key, version_id: v.version_id },
            ),
            histories: self.histories.insert((bucket, key), appended(self.history(bucket, key), v)),
            buckets: self.buckets.insert(bucket),
            next_version: self.next_version + 1,
            next_serial: self.next_serial + 1,
            ..self
        }
    }

    /// The state after an object was written: [`State::with_version`] under
    /// the entity tag of the body.
    pub open spec fn with_object(
        self,
        bucket: Seq<char>,
        key: Seq<char>,
        content: Seq<u8>,
        now: u64,
    ) -> State {
        self.with_version(bucket, key, content, etag_of(content), now)
    }

    /// The state after `key` in `bucket` was deleted: a delete marker ends
    /// its history. No body is touched.
    pub open spec fn with_delete_marker(
        self,
        bucket: Seq<char>,
        key: Seq<char>,
        now: u64,
    ) -> State {
        State {
            histories: self.histories.insert(
                (bucket, key),
                appended(
                    self.history(bucket, key),
                    delete_marker(hex(self.next_version), bucket, key, now),
                ),
            ),
            buckets: self.buckets.insert(bucket),
            next_version: self.next_version + 1,
            ..self
        }
    }

    /// The state after the version `version_id` of `key` in `bucket` was
    /// deleted: the entry has left the history, the most recent entry that is
    /// left is the latest, and the body of the version is released.
    pub open spec fn without_version(
        self,
        bucket: Seq<char>,
        key: Seq<char>,
        version_id: Seq<char>,
    ) -> State {
        let h = self.history(bucket, key);
        let at = position_of(h, version_id);
        State {
            blobs: if h[at].is_delete_marker {
                self.blobs
            } else {
                self.blobs.remove(h[at].storage_ref)
            },
            holders: if h[at].is_delete_marker {
                self.holders
            } else {
                self.holders.remove(h[at].storage_ref)
            },
            histories: self.histories.insert((bucket, key), without(h, at)),
            ..self
        }
    }

    /// The state after versioning was switched on for `bucket`.
    pub open spec fn with_bucket(self, bucket: Seq<char>) -> State {
        State { buckets: self.buckets.insert(bucket), ..self }
    }

    /// What a read of `key` in `bucket` gives: the latest version and its
    /// body, or `NotFound` when the key has no version or its latest version
    /// is a delete marker.
    pub open spec fn read(self, bucket: Seq<char>, key: Seq<char>) -> Result<
        (VersionView, Seq<u8>),
        StoreError,
    > {
        match self.latest(bucket, key) {
            Some(v) => if v.is_delete_marker {
                Err(StoreError::NotFound)
            } else {
                Ok((v, self.blobs[v.storage_ref]))
            },
            None => Err(StoreError::NotFound),
        }
    }

    /// What a read of the version `version_id` of `key` in `bucket` gives:
    /// the version and its body, or `NotFound` when there is no such version
    /// or it is a delete marker.
    pub open spec fn read_version(
        self,
        bucket: Seq<char>,
        key: Seq<char>,
        version_id: Seq<char>,
    ) -> Result<(VersionView, Seq<u8>), StoreError> {
        let h = self.history(bucket, key);
        let v = h[position_of(h, version_id)];
        if !has_version(h, version_id) {
            Err(StoreError::NotFound)
        } else if v.is_delete_marker {
            Err(StoreError::NotFound)
        } else {
            Ok((v, self.blobs[v.storage_ref]))
        }
    }

    /// The body staged for each part of the upload `upload_id`.
    pub open spec fn part_bodies(self, upload_id: Seq<char>) -> Map<u32, Seq<u8>> {
        self.uploads[upload_id].parts.map_values(|p: PartView| self.blobs[p.storage_ref])
    }

    /// The number of parts staged for the upload `upload_id`.
    pub open spec fn part_count(self, upload_id: Seq<char>) -> nat {
        self.uploads[upload_id].parts.dom().len()
    }

    /// The object that the upload `upload_id` is completed to: the bodies of
    /// its parts 1, 2, ..., N one after the other.
    pub open spec fn assembled_object(self, upload_id: Seq<char>) -> Seq<u8> {
        assembled(self.part_bodies(upload_id), self.part_count(upload_id))
    }

    /// The entity tag of the object that the upload `upload_id` is completed
    /// to.
    pub open spec fn assembled_etag(self, upload_id: Seq<char>) -> Seq<char> {
        composite_etag(
            digests_of(in_part_order(self.part_bodies(upload_id), self.part_count(upload_id))),
        )
    }

    /// The state after an upload was opened under `upload_id` for `key` in
    /// `bucket`.
    pub open spec fn with_upload(
        self,
        upload_id: Seq<char>,
        bucket: Seq<char>,
        key: Seq<char>,
        now: u64,
    ) -> State {
        State {
            uploads: self.uploads.insert(upload_id, opened(upload_id, bucket, key, now)),
            next_upload: self.next_upload + 1,
            ..self
        }
    }

    /// The record that is kept of `content` when it is staged as a part.
    pub open spec fn part_to_come(self, content: Seq<u8>) -> PartView {
        PartView {
            etag: etag_of(content),
            size: content.len() as u64,
            storage_ref: reference_for(content, self.next_serial),
        }
    }

    /// The state after `content` was staged as the part `number` of the
    /// upload `upload_id`: the body is in the blob store under a new
    /// reference, and the body of a part that was staged under the same
    /// number before is released.
    pub open spec fn with_part(self, upload_id: Seq<char>, number: u32, content: Seq<u8>) -> State {
        let session = self.uploads[upload_id];
        let part = self.part_to_come(content);
        let holder = Holder::Part { upload_id, number };
        State {
            blobs: if session.parts.contains_key(number) {
                self.blobs.remove(session.parts[number].storage_ref).insert(
                    part.storage_ref,
                    content,
                )
            } else {
                self.blobs.insert(part.storage_ref, content)
            },
            holders: if session.parts.contains_key(number) {
                self.holders.remove(session.parts[number].storage_ref).insert(
                    part.storage_ref,
                    holder,
                )
            } else {
                self.holders.insert(part.storage_ref, holder)
            },
            uploads: self.uploads.insert(upload_id, with_part(session, number, part)),
            next_serial: self.next_serial + 1,
            ..self
        }
    }

    /// The state after the upload `upload_id` has left: the session is gone
    /// and the bodies of its parts are released.
    pub open spec fn without_upload(self, upload_id: Seq<char>) -> State {
        let gone = part_refs(self.uploads[upload_id]);
        State {
            blobs: self.blobs.remove_keys(gone),
            holders: self.holders.remove_keys(gone),
            uploads: self.uploads.remove(upload_id),
            ..self
        }
    }

    /// The state after the upload `upload_id` was completed: the session has
    /// left, and the assembled object is the newest version of the upload's
    /// key.
    pub open spec fn completed(self, upload_id: Seq<char>, now: u64) -> State {
        let session = self.uploads[upload_id];
        self.without_upload(upload_id).with_version(
            session.bucket,
            session.key,
            self.assembled_object(upload_id),
            self.assembled_etag(upload_id),
            now,
        )
    }

    /// The version that is recorded when the upload `upload_id` is completed
    /// at the time `now`.
    pub open spec fn completed_version(self, upload_id: Seq<char>, now: u64) -> VersionView {
        let session = self.uploads[upload_id];
        self.version_to_come(
            session.bucket,
            session.key,
            self.assembled_object(upload_id),
            self.assembled_etag(upload_id),
            now,
        )
    }

    /// The references of the bodies that the parts of the uploads `gone`
    /// hold.
    pub open spec fn refs_of_uploads(self, gone: Set<Seq<char>>) -> Set<Seq<char>> {
        Set::new(
            |r: Seq<char>|
                exists|id: Seq<char>|
                    gone.contains(id) && self.uploads.contains_key(id) && (#[trigger] part_refs(
                        self.uploads[id],
                    )).contains(r),
        )
    }

    /// The state after the uploads `gone` have left: the sessions are gone
    /// and the bodies of their parts are released.
    pub open spec fn without_uploads(self, gone: Set<Seq<char>>) -> State {
        State {
            blobs: self.blobs.remove_keys(self.refs_of_uploads(gone)),
            holders: self.holders.remove_keys(self.refs_of_uploads(gone)),
            uploads: self.uploads.remove_keys(gone),
            ..self
        }
    }

    /// The uploads that have outlived `ttl` at the time `now`.
    pub open spec fn expired_uploads(self, now: u64, ttl: u64) -> Set<Seq<char>> {
        Set::new(
            |id: Seq<char>|
                self.uploads.contains_key(id) && is_expired(self.uploads[id].created_at, now, ttl),
        )
    }

    /// The state after the uploads that have outlived `ttl` at the time
    /// `now` were collected.
    pub open spec fn without_expired(self, now: u64, ttl: u64) -> State {
        self.without_uploads(self.expired_uploads(now, ttl))
    }

    /// Why a write is refused: `Internal` when nothing can be written.
    pub open spec fn write_refusal(self) -> Option<StoreError> {
        if self.out_of_room() {
            Some(StoreError::Internal)
        } else {
            None
        }
    }

    /// Why the deletion of an object is refused: `Internal` when the version
    /// identifiers are used up.
    pub open spec fn delete_refusal(self) -> Option<StoreError> {
        if self.next_version >= u64::MAX {
            Some(StoreError::Internal)
        } else {
            None
        }
    }

    /// Why the deletion of the version `version_id` of `key` in `bucket` is
    /// refused: `NotFound` when there is no such version.
    pub open spec fn delete_version_refusal(
        self,
        bucket: Seq<char>,
        key: Seq<char>,
        version_id: Seq<char>,
    ) -> Option<StoreError> {
        if has_version(self.history(bucket, key), version_id) {
            None
        } else {
            Some(StoreError::NotFound)
        }
    }

    /// Why an upload cannot be opened: `Internal` when the counter of uploads
    /// is used up.
    pub open spec fn open_refusal(self) -> Option<StoreError> {
        if self.next_upload >= u64::MAX {
            Some(StoreError::Internal)
        } else {
            None
        }
    }

    /// Why a part is refused: `NotFound` when there is no upload
    /// `upload_id`, `BadRequest` when the part number is zero, `Internal`
    /// when the blob store is full.
    pub open spec fn part_refusal(self, upload_id: Seq<char>, number: u32) -> Option<StoreError> {
        if !self.uploads.contains_key(upload_id) {
            Some(StoreError::NotFound)
        } else if number == 0 {
            Some(StoreError::BadRequest)
        } else if self.next_serial >= u64::MAX {
            Some(StoreError::Internal)
        } else {
            None
        }
    }

    /// Why the parts of an upload cannot be assembled: `NotFound` when there
    /// is no upload `upload_id`, `BadRequest` when its part numbers are not
    /// exactly 1, 2, ..., N.
    pub open spec fn assembly_refusal(self, upload_id: Seq<char>) -> Option<StoreError> {
        if !self.uploads.contains_key(upload_id) {
            Some(StoreError::NotFound)
        } else if !contiguous(self.uploads[upload_id].parts) {
            Some(StoreError::BadRequest)
        } else {
            None
        }
    }

    /// Why the completion of an upload is refused: `NotFound` when there is
    /// no upload `upload_id`, `BadRequest` when its part numbers are not
    /// exactly 1, 2, ..., N, `Internal` when nothing can be written.
    pub open spec fn completion_refusal(self, upload_id: Seq<char>) -> Option<StoreError> {
        if self.assembly_refusal(upload_id) is Some {
            self.assembly_refusal(upload_id)
        } else if self.out_of_room() {
            Some(StoreError::Internal)
        } else {
            None
        }
    }

    /// Why an upload cannot be aborted: `NotFound` when there is no upload
    /// `upload_id`.
    pub open spec fn abort_refusal(self, upload_id: Seq<char>) -> Option<StoreError> {
        if self.uploads.contains_key(upload_id) {
            None
        } else {
            Some(StoreError::NotFound)
        }
    }
}

/// After a version was written, every body of the blob store is held.
proof fn lemma_with_version_holders(
    s: State,
    bucket: Seq<char>,
    key: Seq<char>,
    content: Seq<u8>,
    etag: Seq<char>,
    now: u64,
)
    requires
        s.valid(),
        !s.out_of_room(),
        s.with_version(bucket, key, content, etag, now).histories_valid(),
    ensures
        s.with_version(bucket, key, content, etag, now).bodies_have_holders(),
{
    let t = s.with_version(bucket, key, content, etag, now);
    let v = s.version_to_come(bucket, key, content, etag, now);
    let fresh = v.storage_ref;
    let h = s.history(bucket, key);
    lemma_next_reference_is_free(s.blobs, s.next_serial, content);
    assert forall|r: Seq<char>| #[trigger] t.blobs.contains_key(r) implies t.holders.contains_key(r)
        && t.holds(t.holders[r], r) by {
        if r == fresh {
            let h2 = t.history(bucket, key);
            assert(h2[h.len() as int] == v);
            lemma_position_of(h2, bucket, key, t.next_version, h.len() as int);
        } else {
            assert(s.blobs.contains_key(r));
            assert(s.holds(s.holders[r], r));
            lemma_holder_survives_append(s, t, bucket, key, v, r);
        }
    }
}

/// A holder of the state `s` holds its body in the state `t`, which differs
/// from `s` in that the version `v` was appended to the history of `key` in
/// `bucket` and in nothing that a holder reads.
proof fn lemma_holder_survives_append(
    s: State,
    t: State,
    bucket: Seq<char>,
    key: Seq<char>,
    v: VersionView,
    r: Seq<char>,
)
    requires
        s.holds(s.holders[r], r),
        t.uploads == s.uploads,
        t.histories == s.histories.insert((bucket, key), appended(s.history(bucket, key), v)),
        t.histories_valid(),
    ensures
        t.holds(s.holders[r], r),
{
    match s.holders[r] {
        Holder::Version { bucket: b, key: k, version_id: id } => {
            let hb = s.history(b, k);
            let i = position_of(hb, id);
            if b == bucket && k == key {
                let h2 = t.history(b, k);
                assert(h2[i] == flagged(hb[i], false));
                lemma_position_of(h2, b, k, t.next_version, i);
            } else {
                assert(t.history(b, k) == hb);
            }
        },
        Holder::Part { upload_id, number } => {},
    }
}

/// After a delete marker was recorded, every body of the blob store is held.
proof fn lemma_with_delete_marker_holders(s: State, bucket: Seq<char>, key: Seq<char>, now: u64)
    requires
        s.valid(),
        s.with_delete_marker(bucket, key, now).histories_valid(),
    ensures
        s.with_delete_marker(bucket, key, now).bodies_have_holders(),
{
    let t = s.with_delete_marker(bucket, key, now);
    let v = delete_marker(hex(s.next_version), bucket, key, now);
    assert forall|r: Seq<char>| #[trigger] t.blobs.contains_key(r) implies t.holders.contains_key(r)
        && t.holds(t.holders[r], r) by {
        assert(s.blobs.contains_key(r));
        assert(s.holds(s.holders[r], r));
        lemma_holder_survives_append(s, t, bucket, key, v, r);
    }
}

/// After a version was deleted, every body of the blob store is held.
proof fn lemma_without_version_holders(
    s: State,
    bucket: Seq<char>,
    key: Seq<char>,
    version_id: Seq<char>,
)
    requires
        s.valid(),
        has_version(s.history(bucket, key), version_id),
        s.without_version(bucket, key, version_id).histories_valid(),
    ensures
        s.without_version(bucket, key, version_id).bodies_have_holders(),
{
    let t = s.without_version(bucket, key, version_id);
    let h = s.history(bucket, key);
    let at = position_of(h, version_id);
    assert forall|r: Seq<char>| #[trigger] t.blobs.contains_key(r) implies t.holders.contains_key(r)
        && t.holds(t.holders[r], r) by {
        assert(s.blobs.contains_key(r));
        assert(s.holds(s.holders[r], r));
        assert(t.holders[r] == s.holders[r]);
        match s.holders[r] {
            Holder::Version { bucket: b, key: k, version_id: id } => {
                let hb = s.history(b, k);
                let i = position_of(hb, id);
                if b == bucket && k == key {
                    assert(i != at);
                    let j = if i < at {
                        i
                    } else {
                        i - 1
                    };
                    let h2 = t.history(b, k);
                    assert(h.remove(at)[j] == h[i]);
                    assert(h2[j].version_id == h[i].version_id);
                    assert(h2[j].storage_ref == h[i].storage_ref);
                    assert(h2[j].is_delete_marker == h[i].is_delete_marker);
                    lemma_position_of(h2, b, k, t.next_version, j);
                } else {
                    assert(t.history(b, k) == hb);
                }
            },
            Holder::Part { upload_id, number } => {},
        }
    }
}

/// After a part was staged, every body of the blob store is held.
proof fn lemma_with_part_holders(s: State, upload_id: Seq<char>, number: u32, content: Seq<u8>)
    requires
        s.valid(),
        s.part_refusal(upload_id, number) is None,
    ensures
        s.with_part(upload_id, number, content).bodies_have_holders(),
{
    let t = s.with_part(upload_id, number, content);
    let session = s.uploads[upload_id];
    let fresh = s.part_to_come(content).storage_ref;
    lemma_next_reference_is_free(s.blobs, s.next_serial, content);
    assert forall|r: Seq<char>| #[trigger] t.blobs.contains_key(r) implies t.holders.contains_key(r)
        && t.holds(t.holders[r], r) by {
        if r != fresh {
            assert(s.blobs.contains_key(r));
            assert(s.holds(s.holders[r], r));
            assert(t.holders[r] == s.holders[r]);
            match s.holders[r] {
                Holder::Version { bucket, key, version_id } => {},
                Holder::Part { upload_id: u, number: n } => {
                    if u == upload_id && n == number {
                        assert(session.parts[number].storage_ref == r);
                        assert(false);
                    }
                    assert(t.uploads[u].parts[n] == s.uploads[u].parts[n]);
                },
            }
        }
    }
}

/// After an upload has left, every body of the blob store is held.
proof fn lemma_without_upload_holders(s: State, upload_id: Seq<char>)
    requires
        s.valid(),
        s.abort_refusal(upload_id) is None,
    ensures
        s.without_upload(upload_id).bodies_have_holders(),
{
    let t = s.without_upload(upload_id);
    let session = s.uploads[upload_id];
    assert forall|r: Seq<char>| #[trigger] t.blobs.contains_key(r) implies t.holders.contains_key(r)
        && t.holds(t.holders[r], r) by {
        assert(s.blobs.contains_key(r));
        assert(s.holds(s.holders[r], r));
        assert(t.holders[r] == s.holders[r]);
        match s.holders[r] {
            Holder::Version { bucket, key, version_id } => {},
            Holder::Part { upload_id: u, number: n } => {
                if u == upload_id {
                    assert(session.parts.contains_key(n) && session.parts[n].storage_ref == r);
                    assert(part_refs(session).contains(r));
                    assert(false);
                }
            },
        }
    }
}

/// The state of a service that was just started is valid.
pub proof fn lemma_initial_valid()
    ensures
        State::initial().valid(),
{
    let s = State::initial();
    assert forall|b: Seq<char>, k: Seq<char>|
        valid_history(#[trigger] s.history(b, k), b, k, s.next_version) by {
        assert(s.history(b, k) =~= Seq::<VersionView>::empty());
    }
}

/// Writing a version keeps the state valid.
pub proof fn lemma_with_version_valid(
    s: State,
    bucket: Seq<char>,
    key: Seq<char>,
    content: Seq<u8>,
    etag: Seq<char>,
    now: u64,
)
    requires
        s.valid(),
        !s.out_of_room(),
        content.len() <= u64::MAX,
    ensures
        s.with_version(bucket, key, content, etag, now).valid(),
        !s.blobs.contains_key(reference_for(content, s.next_serial)),
{
    let t = s.with_version(bucket, key, content, etag, now);
    let v = s.version_to_come(bucket, key, content, etag, now);
    let fresh = v.storage_ref;
    let h = s.history(bucket, key);
    lemma_next_reference_is_free(s.blobs, s.next_serial, content);
    lemma_parsed_hex_of_hex(s.next_version as u64);
    assert forall|r: Seq<char>| #[trigger] t.blobs.contains_key(r) implies {
        &&& number_of(r) is Some
        &&& number_of(r)->0 < t.next_serial
        &&& r == reference_for(t.blobs[r], number_of(r)->0)
    } by {
        if r != fresh {
            assert(s.blobs.contains_key(r));
        }
    }
    assert forall|b: Seq<char>, k: Seq<char>|
        valid_history(#[trigger] t.history(b, k), b, k, t.next_version) by {
        lemma_valid_history_later(s.history(b, k), b, k, s.next_version, t.next_version);
        if b == bucket && k == key {
            if h.len() > 0 {
                assert(valid_entry(h[h.len() - 1], bucket, key, s.next_version));
            }
            assert(admission(h, bucket, key, v) is Ok);
            lemma_appended_valid(h, bucket, key, t.next_version, v);
        } else {
            assert(t.history(b, k) == s.history(b, k));
        }
    }
    assert forall|b: Seq<char>, k: Seq<char>, i: int|
        0 <= i < t.history(b, k).len() implies version_held(
        t.blobs,
        t.holders,
        #[trigger] t.history(b, k)[i],
    ) by {
        if b == bucket && k == key {
            if i < h.len() {
                assert(version_held(s.blobs, s.holders, s.history(b, k)[i]));
                assert(t.history(b, k)[i] == flagged(h[i], false));
            }
        } else {
            assert(t.history(b, k) == s.history(b, k));
            assert(version_held(s.blobs, s.holders, s.history(b, k)[i]));
        }
    }
    assert forall|u: Seq<char>, n: u32|
        #![trigger t.uploads[u].parts[n]]
        t.uploads.contains_key(u) && t.uploads[u].parts.contains_key(n) implies part_held(
        t.blobs,
        t.holders,
        u,
        n,
        t.uploads[u].parts[n],
    ) by {
        assert(part_held(s.blobs, s.holders, u, n, s.uploads[u].parts[n]));
    }
    lemma_with_version_holders(s, bucket, key, content, etag, now);
}

/// Recording a delete marker keeps the state valid.
pub proof fn lemma_with_delete_marker_valid(s: State, bucket: Seq<char>, key: Seq<char>, now: u64)
    requires
        s.valid(),
        s.delete_refusal() is None,
    ensures
        s.with_delete_marker(bucket, key, now).valid(),
{
    let t = s.with_delete_marker(bucket, key, now);
    let v = delete_marker(hex(s.next_version), bucket, key, now);
    let h = s.history(bucket, key);
    lemma_parsed_hex_of_hex(s.next_version as u64);
    assert forall|b: Seq<char>, k: Seq<char>|
        valid_history(#[trigger] t.history(b, k), b, k, t.next_version) by {
        lemma_valid_history_later(s.history(b, k), b, k, s.next_version, t.next_version);
        if b == bucket && k == key {
            if h.len() > 0 {
                assert(valid_entry(h[h.len() - 1], bucket, key, s.next_version));
            }
            assert(admission(h, bucket, key, v) is Ok);
            lemma_appended_valid(h, bucket, key, t.next_version, v);
        } else {
            assert(t.history(b, k) == s.history(b, k));
        }
    }
    assert forall|b: Seq<char>, k: Seq<char>, i: int|
        0 <= i < t.history(b, k).len() implies version_held(
        t.blobs,
        t.holders,
        #[trigger] t.history(b, k)[i],
    ) by {
        if b == bucket && k == key {
            if i < h.len() {
                assert(version_held(s.blobs, s.holders, s.history(b, k)[i]));
                assert(t.history(b, k)[i] == flagged(h[i], false));
            }
        } else {
            assert(t.history(b, k) == s.history(b, k));
            assert(version_held(s.blobs, s.holders, s.history(b, k)[i]));
        }
    }
    assert forall|u: Seq<char>, n: u32|
        #![trigger t.uploads[u].parts[n]]
        t.uploads.contains_key(u) && t.uploads[u].parts.contains_key(n) implies part_held(
        t.blobs,
        t.holders,
        u,
        n,
        t.uploads[u].parts[n],
    ) by {
        assert(part_held(s.blobs, s.holders, u, n, s.uploads[u].parts[n]));
    }
    lemma_with_delete_marker_holders(s, bucket, key, now);
}

/// Deleting a version keeps the state valid.
pub proof fn lemma_without_version_valid(
    s: State,
    bucket: Seq<char>,
    key: Seq<char>,
    version_id: Seq<char>,
)
    requires
        s.valid(),
        s.delete_version_refusal(bucket, key, version_id) is None,
    ensures
        s.without_version(bucket, key, version_id).valid(),
{
    let t = s.without_version(bucket, key, version_id);
    let h = s.history(bucket, key);
    let at = position_of(h, version_id);
    let gone = h[at];
    assert(valid_history(h, bucket, key, s.next_version));
    assert(valid_entry(h[at], bucket, key, s.next_version));
    assert(version_held(s.blobs, s.holders, s.history(bucket, key)[at]));
    lemma_without_valid(h, bucket, key, s.next_version, at);
    assert forall|r: Seq<char>| #[trigger] t.blobs.contains_key(r) implies {
        &&& number_of(r) is Some
        &&& number_of(r)->0 < t.next_serial
        &&& r == reference_for(t.blobs[r], number_of(r)->0)
    } by {
        assert(s.blobs.contains_key(r));
    }
    assert forall|b: Seq<char>, k: Seq<char>|
        valid_history(#[trigger] t.history(b, k), b, k, t.next_version) by {
        if b != bucket || k != key {
            assert(t.history(b, k) == s.history(b, k));
            assert(valid_history(s.history(b, k), b, k, s.next_version));
        }
    }
    assert forall|b: Seq<char>, k: Seq<char>, i: int|
        0 <= i < t.history(b, k).len() implies version_held(
        t.blobs,
        t.holders,
        #[trigger] t.history(b, k)[i],
    ) by {
        let hb = s.history(b, k);
        assert(valid_history(hb, b, k, s.next_version));
        if b != bucket || k != key {
            assert(t.history(b, k) == hb);
            assert(version_held(s.blobs, s.holders, s.history(b, k)[i]));
            assert(valid_entry(hb[i], b, k, s.next_version));
        } else {
            let src = if i < at {
                i
            } else {
                i + 1
            };
            assert(h.remove(at)[i] == h[src]);
            assert(version_held(s.blobs, s.holders, s.history(b, k)[src]));
            assert(valid_entry(h[src], b, k, s.next_version));
            assert(t.history(b, k)[i].storage_ref == h[src].storage_ref);
            assert(t.history(b, k)[i].version_id == h[src].version_id);
            if src < at {
                assert(version_number(h[src].version_id)->0 < version_number(h[at].version_id)->0);
            } else {
                assert(version_number(h[at].version_id)->0 < version_number(h[src].version_id)->0);
            }
        }
    }
    assert forall|u: Seq<char>, n: u32|
        #![trigger t.uploads[u].parts[n]]
        t.uploads.contains_key(u) && t.uploads[u].parts.contains_key(n) implies part_held(
        t.blobs,
        t.holders,
        u,
        n,
        t.uploads[u].parts[n],
    ) by {
        assert(part_held(s.blobs, s.holders, u, n, s.uploads[u].parts[n]));
    }
    lemma_without_version_holders(s, bucket, key, version_id);
}

/// Switching versioning on keeps the state valid.
pub proof fn lemma_with_bucket_valid(s: State, bucket: Seq<char>)
    requires
        s.valid(),
    ensures
        s.with_bucket(bucket).valid(),
{
    let t = s.with_bucket(bucket);
    assert forall|b: Seq<char>, k: Seq<char>|
        valid_history(#[trigger] t.history(b, k), b, k, t.next_version) by {
        assert(valid_history(s.history(b, k), b, k, s.next_version));
    }
    assert forall|b: Seq<char>, k: Seq<char>, i: int|
        0 <= i < t.history(b, k).len() implies version_held(
        t.blobs,
        t.holders,
        #[trigger] t.history(b, k)[i],
    ) by {
        assert(version_held(s.blobs, s.holders, s.history(b, k)[i]));
    }
    assert forall|u: Seq<char>, n: u32|
        #![trigger t.uploads[u].parts[n]]
        t.uploads.contains_key(u) && t.uploads[u].parts.contains_key(n) implies part_held(
        t.blobs,
        t.holders,
        u,
        n,
        t.uploads[u].parts[n],
    ) by {
        assert(part_held(s.blobs, s.holders, u, n, s.uploads[u].parts[n]));
    }
    assert forall|r: Seq<char>| #[trigger] t.blobs.contains_key(r) implies t.holders.contains_key(r)
        && t.holds(t.holders[r], r) by {
        assert(s.holds(s.holders[r], r));
    }
}

/// Opening an upload keeps the state valid.
pub proof fn lemma_with_upload_valid(
    s: State,
    upload_id: Seq<char>,
    bucket: Seq<char>,
    key: Seq<char>,
    now: u64,
)
    requires
        s.valid(),
        number_of(upload_id) == Some(s.next_upload),
    ensures
        s.with_upload(upload_id, bucket, key, now).valid(),
        !s.uploads.contains_key(upload_id),
{
    let t = s.with_upload(upload_id, bucket, key, now);
    assert forall|b: Seq<char>, k: Seq<char>|
        valid_history(#[trigger] t.history(b, k), b, k, t.next_version) by {
        assert(valid_history(s.history(b, k), b, k, s.next_version));
    }
    assert forall|b: Seq<char>, k: Seq<char>, i: int|
        0 <= i < t.history(b, k).len() implies version_held(
        t.blobs,
        t.holders,
        #[trigger] t.history(b, k)[i],
    ) by {
        assert(version_held(s.blobs, s.holders, s.history(b, k)[i]));
    }
    assert forall|u: Seq<char>, n: u32|
        #![trigger t.uploads[u].parts[n]]
        t.uploads.contains_key(u) && t.uploads[u].parts.contains_key(n) implies part_held(
        t.blobs,
        t.holders,
        u,
        n,
        t.uploads[u].parts[n],
    ) by {
        if u != upload_id {
            assert(part_held(s.blobs, s.holders, u, n, s.uploads[u].parts[n]));
        }
    }
    assert forall|r: Seq<char>| #[trigger] t.blobs.contains_key(r) implies t.holders.contains_key(r)
        && t.holds(t.holders[r], r) by {
        assert(s.holds(s.holders[r], r));
    }
}

/// Staging a part keeps the state valid, and the bodies staged for the
/// upload are those that were staged, with the new body under its number.
pub proof fn lemma_with_part_valid(s: State, upload_id: Seq<char>, number: u32, content: Seq<u8>)
    requires
        s.valid(),
        s.part_refusal(upload_id, number) is None,
        content.len() <= u64::MAX,
    ensures
        s.with_part(upload_id, number, content).valid(),
        !s.blobs.contains_key(reference_for(content, s.next_serial)),
        s.with_part(upload_id, number, content).part_bodies(upload_id) == s.part_bodies(
            upload_id,
        ).insert(number, content),
        forall|u: Seq<char>|
            u != upload_id && s.uploads.contains_key(u) ==> #[trigger] s.with_part(
                upload_id,
                number,
                content,
            ).part_bodies(u) == s.part_bodies(u),
{
    let t = s.with_part(upload_id, number, content);
    let session = s.uploads[upload_id];
    let part = s.part_to_come(content);
    let fresh = part.storage_ref;
    lemma_next_reference_is_free(s.blobs, s.next_serial, content);
    if session.parts.contains_key(number) {
        assert(part_held(
            s.blobs,
            s.holders,
            upload_id,
            number,
            s.uploads[upload_id].parts[number],
        ));
    }
    assert forall|r: Seq<char>| #[trigger] t.blobs.contains_key(r) implies {
        &&& number_of(r) is Some
        &&& number_of(r)->0 < t.next_serial
        &&& r == reference_for(t.blobs[r], number_of(r)->0)
    } by {
        if r != fresh {
            assert(s.blobs.contains_key(r));
        }
    }
    assert forall|b: Seq<char>, k: Seq<char>|
        valid_history(#[trigger] t.history(b, k), b, k, t.next_version) by {
        assert(valid_history(s.history(b, k), b, k, s.next_version));
    }
    assert forall|b: Seq<char>, k: Seq<char>, i: int|
        0 <= i < t.history(b, k).len() implies version_held(
        t.blobs,
        t.holders,
        #[trigger] t.history(b, k)[i],
    ) by {
        assert(version_held(s.blobs, s.holders, s.history(b, k)[i]));
    }
    assert forall|u: Seq<char>, n: u32|
        #![trigger t.uploads[u].parts[n]]
        t.uploads.contains_key(u) && t.uploads[u].parts.contains_key(n) implies part_held(
        t.blobs,
        t.holders,
        u,
        n,
        t.uploads[u].parts[n],
    ) by {
        if u != upload_id || n != number {
            assert(s.uploads.contains_key(u));
            assert(s.uploads[u].parts.contains_key(n));
            assert(t.uploads[u].parts[n] == s.uploads[u].parts[n]);
            assert(part_held(s.blobs, s.holders, u, n, s.uploads[u].parts[n]));
        }
    }
    assert(t.part_bodies(upload_id) =~= s.part_bodies(upload_id).insert(number, content)) by {
        assert forall|n: u32| #[trigger]
            t.part_bodies(upload_id).contains_key(n) implies t.part_bodies(upload_id)[n]
            == s.part_bodies(upload_id).insert(number, content)[n] by {
            if n != number {
                assert(t.uploads[upload_id].parts[n] == s.uploads[upload_id].parts[n]);
                assert(part_held(s.blobs, s.holders, upload_id, n, s.uploads[upload_id].parts[n]));
            }
        }
    }
    assert forall|u: Seq<char>| u != upload_id && s.uploads.contains_key(u) implies #[trigger]
        t.part_bodies(u) == s.part_bodies(u) by {
        assert(t.part_bodies(u) =~= s.part_bodies(u)) by {
            assert forall|n: u32| #[trigger] t.part_bodies(u).contains_key(n) implies t.part_bodies(
                u,
            )[n] == s.part_bodies(u)[n] by {
                assert(part_held(s.blobs, s.holders, u, n, s.uploads[u].parts[n]));
            }
        }
    }
    lemma_with_part_holders(s, upload_id, number, content);
}

/// An upload that leaves keeps the state valid.
pub proof fn lemma_without_upload_valid(s: State, upload_id: Seq<char>)
    requires
        s.valid(),
        s.abort_refusal(upload_id) is None,
    ensures
        s.without_upload(upload_id).valid(),
{
    let t = s.without_upload(upload_id);
    let session = s.uploads[upload_id];
    let gone = part_refs(session);
    assert forall|r: Seq<char>| #[trigger] t.blobs.contains_key(r) implies {
        &&& number_of(r) is Some
        &&& number_of(r)->0 < t.next_serial
        &&& r == reference_for(t.blobs[r], number_of(r)->0)
    } by {
        assert(s.blobs.contains_key(r));
    }
    assert forall|b: Seq<char>, k: Seq<char>|
        valid_history(#[trigger] t.history(b, k), b, k, t.next_version) by {
        assert(valid_history(s.history(b, k), b, k, s.next_version));
    }
    assert forall|b: Seq<char>, k: Seq<char>, i: int|
        0 <= i < t.history(b, k).len() implies version_held(
        t.blobs,
        t.holders,
        #[trigger] t.history(b, k)[i],
    ) by {
        let v = s.history(b, k)[i];
        assert(version_held(s.blobs, s.holders, s.history(b, k)[i]));
        if !v.is_delete_marker && gone.contains(v.storage_ref) {
            let n = choose|n: u32|
                session.parts.contains_key(n) && (#[trigger] session.parts[n]).storage_ref
                    == v.storage_ref;
            assert(part_held(s.blobs, s.holders, upload_id, n, s.uploads[upload_id].parts[n]));
            assert(false);
        }
    }
    assert forall|u: Seq<char>, n: u32|
        #![trigger t.uploads[u].parts[n]]
        t.uploads.contains_key(u) && t.uploads[u].parts.contains_key(n) implies part_held(
        t.blobs,
        t.holders,
        u,
        n,
        t.uploads[u].parts[n],
    ) by {
        let p = s.uploads[u].parts[n];
        assert(part_held(s.blobs, s.holders, u, n, s.uploads[u].parts[n]));
        if gone.contains(p.storage_ref) {
            let m = choose|m: u32|
                session.parts.contains_key(m) && (#[trigger] session.parts[m]).storage_ref
                    == p.storage_ref;
            assert(part_held(s.blobs, s.holders, upload_id, m, s.uploads[upload_id].parts[m]));
            assert(false);
        }
    }
    lemma_without_upload_holders(s, upload_id);
}

/// Completing an upload keeps the state valid.
pub proof fn lemma_completed_valid(s: State, upload_id: Seq<char>, now: u64)
    requires
        s.valid(),
        s.completion_refusal(upload_id) is None,
        s.assembled_object(upload_id).len() <= u64::MAX,
    ensures
        s.completed(upload_id, now).valid(),
{
    lemma_without_upload_valid(s, upload_id);
    let session = s.uploads[upload_id];
    lemma_with_version_valid(
        s.without_upload(upload_id),
        session.bucket,
        session.key,
        s.assembled_object(upload_id),
        s.assembled_etag(upload_id),
        now,
    );
}

/// The latest version of a key is the entry of its history that is flagged
/// latest, and no other entry is flagged so; a key without versions has no
/// latest version.
pub proof fn lemma_latest_is_the_flagged_version(s: State, bucket: Seq<char>, key: Seq<char>)
    requires
        s.valid(),
    ensures
        match s.latest(bucket, key) {
            Some(v) => v.is_latest && forall|i: int|
                0 <= i < s.history(bucket, key).len() && (#[trigger] s.history(
                    bucket,
                    key,
                )[i]).is_latest ==> s.history(bucket, key)[i] == v && i == s.history(
                    bucket,
                    key,
                ).len() - 1,
            None => s.history(bucket, key).len() == 0,
        },
{
    let h = s.history(bucket, key);
    assert(valid_history(h, bucket, key, s.next_version));
    if h.len() > 0 {
        assert(h[h.len() - 1].is_latest);
    }
}

/// Every body of the blob store belongs to a version of some history or to a
/// part of an upload that is under way: none is left behind.
pub proof fn lemma_every_body_is_held(s: State, reference: Seq<char>)
    requires
        s.valid(),
        s.blobs.contains_key(reference),
    ensures
        (exists|b: Seq<char>, k: Seq<char>, i: int|
            0 <= i < s.history(b, k).len() && !(#[trigger] s.history(b, k)[i]).is_delete_marker
                && s.history(b, k)[i].storage_ref == reference) || (exists|u: Seq<char>, n: u32|
            s.uploads.contains_key(u) && s.uploads[u].parts.contains_key(n)
                && (#[trigger] s.uploads[u].parts[n]).storage_ref == reference),
{
    assert(s.holds(s.holders[reference], reference));
    match s.holders[reference] {
        Holder::Version { bucket, key, version_id } => {
            let h = s.history(bucket, key);
            let i = position_of(h, version_id);
            let v = s.history(bucket, key)[i];
            assert(0 <= i < h.len() && !v.is_delete_marker && v.storage_ref == reference);
        },
        Holder::Part { upload_id, number } => {
            assert(s.uploads.contains_key(upload_id) && s.uploads[upload_id].parts.contains_key(
                number,
            ) && s.uploads[upload_id].parts[number].storage_ref == reference);
        },
    }
}

/// After a write to a key, a read of the key gives the version written and
/// its body, that version is the latest of the key, and it is the only entry
/// of the key's history that is flagged latest.
pub proof fn lemma_written_version_is_latest(
    s: State,
    bucket: Seq<char>,
    key: Seq<char>,
    content: Seq<u8>,
    etag: Seq<char>,
    now: u64,
)
    ensures
        ({
            let t = s.with_version(bucket, key, content, etag, now);
            let v = s.version_to_come(bucket, key, content, etag, now);
            &&& t.latest(bucket, key) == Some(v)
            &&& t.read(bucket, key) == Ok::<(VersionView, Seq<u8>), StoreError>((v, content))
            &&& forall|i: int|
                0 <= i < t.history(bucket, key).len() ==> ((#[trigger] t.history(
                    bucket,
                    key,
                )[i]).is_latest <==> i == t.history(bucket, key).len() - 1)
        }),
{
    let t = s.with_version(bucket, key, content, etag, now);
    let v = s.version_to_come(bucket, key, content, etag, now);
    assert(flagged(v, true) == v);
}

/// While a version identifier is left, the deletion of an object is not
/// refused. The history of the key is then the one it was, with no entry
/// flagged latest, and after it a bare delete marker that is flagged latest;
/// no body is touched; and the state is valid.
pub proof fn lemma_deletion_is_owed(s: State, bucket: Seq<char>, key: Seq<char>, now: u64)
    requires
        s.valid(),
        s.next_version < u64::MAX,
    ensures
        s.delete_refusal() is None,
        ({
            let t = s.with_delete_marker(bucket, key, now);
            let h = s.history(bucket, key);
            let m = delete_marker(hex(s.next_version), bucket, key, now);
            &&& t.valid()
            &&& t.history(bucket, key) == retired(h).push(m)
            &&& t.history(bucket, key).len() == h.len() + 1
            &&& t.latest(bucket, key) == Some(m)
            &&& m.is_delete_marker && m.is_latest && m.size == 0 && m.etag.len() == 0
            &&& t.blobs == s.blobs
            &&& versions_unharmed(s, t)
            &&& t.read(bucket, key) == Err::<(VersionView, Seq<u8>), StoreError>(
                StoreError::NotFound,
            )
        }),
{
    let m = delete_marker(hex(s.next_version), bucket, key, now);
    assert(flagged(m, true) == m);
    lemma_with_delete_marker_valid(s, bucket, key, now);
    lemma_versions_keep_their_bodies(
        s,
        bucket,
        key,
        Seq::empty(),
        Seq::empty(),
        Seq::empty(),
        0,
        now,
    );
}

/// After a key was deleted, a read of the key is refused with `NotFound`,
/// and the most recent entry of its history is a delete marker.
pub proof fn lemma_deleted_object_is_not_found(
    s: State,
    bucket: Seq<char>,
    key: Seq<char>,
    now: u64,
)
    ensures
        ({
            let t = s.with_delete_marker(bucket, key, now);
            &&& t.read(bucket, key) == Err::<(VersionView, Seq<u8>), StoreError>(
                StoreError::NotFound,
            )
            &&& t.history(bucket, key).len() > 0
            &&& t.history(bucket, key).last().is_delete_marker
            &&& t.history(bucket, key).last().is_latest
        }),
{
}

/// After the latest version of a key was deleted, the most recent version
/// that is left is the latest; if none is left, the key has no latest
/// version.
pub proof fn lemma_deleting_the_latest_promotes(s: State, bucket: Seq<char>, key: Seq<char>)
    requires
        s.valid(),
        s.history(bucket, key).len() > 0,
    ensures
        ({
            let h = s.history(bucket, key);
            let t = s.without_version(bucket, key, h.last().version_id);
            &&& h.len() == 1 ==> t.latest(bucket, key) is None
            &&& h.len() > 1 ==> t.latest(bucket, key) == Some(flagged(h[h.len() - 2], true))
            &&& forall|i: int|
                0 <= i < t.history(bucket, key).len() ==> ((#[trigger] t.history(
                    bucket,
                    key,
                )[i]).is_latest <==> i == t.history(bucket, key).len() - 1)
        }),
{
    let h = s.history(bucket, key);
    let id = h.last().version_id;
    let t = s.without_version(bucket, key, id);
    assert(valid_history(h, bucket, key, s.next_version));
    assert(h[h.len() - 1].version_id == id);
    lemma_identifiers_differ(h, bucket, key, s.next_version, position_of(h, id), h.len() - 1);
    lemma_without_valid(h, bucket, key, s.next_version, h.len() - 1);
    assert(t.history(bucket, key) == without(h, h.len() - 1));
    if h.len() > 1 {
        assert(h.remove(h.len() - 1)[h.len() - 2] == h[h.len() - 2]);
    }
}

/// After any version of a key was deleted, the other versions of the key are
/// there as before, in their order, and exactly the last of them is flagged
/// latest.
pub proof fn lemma_deleting_a_version_keeps_the_rest(
    s: State,
    bucket: Seq<char>,
    key: Seq<char>,
    version_id: Seq<char>,
)
    requires
        s.valid(),
        has_version(s.history(bucket, key), version_id),
    ensures
        ({
            let h = s.history(bucket, key);
            let at = position_of(h, version_id);
            let t = s.without_version(bucket, key, version_id);
            let rest = t.history(bucket, key);
            &&& rest.len() == h.len() - 1
            &&& !has_version(rest, version_id)
            &&& forall|i: int|
                0 <= i < rest.len() ==> (#[trigger] rest[i]) == flagged(
                    h[if i < at {
                        i
                    } else {
                        i + 1
                    }],
                    i == rest.len() - 1,
                )
        }),
{
    let h = s.history(bucket, key);
    let at = position_of(h, version_id);
    let t = s.without_version(bucket, key, version_id);
    let rest = t.history(bucket, key);
    assert(valid_history(h, bucket, key, s.next_version));
    assert forall|i: int| 0 <= i < rest.len() implies (#[trigger] rest[i]) == flagged(
        h[if i < at {
            i
        } else {
            i + 1
        }],
        i == rest.len() - 1,
    ) by {
        let src = if i < at {
            i
        } else {
            i + 1
        };
        assert(h.remove(at)[i] == h[src]);
        if i < rest.len() - 1 {
            assert(!h[src].is_latest);
        }
    }
    if has_version(rest, version_id) {
        let i = choose|i: int| 0 <= i < rest.len() && (#[trigger] rest[i]).version_id == version_id;
        let src = if i < at {
            i
        } else {
            i + 1
        };
        assert(rest[i].version_id == h[src].version_id);
        lemma_identifiers_differ(h, bucket, key, s.next_version, src, at);
    }
}

/// An upload identifier is handed out once: the identifier that is made
/// next, whatever its token is, differs from every identifier that was made
/// before, whether its upload is under way or has left.
pub proof fn lemma_upload_identifiers_are_not_reused(
    s: State,
    token: Seq<char>,
    earlier: nat,
    earlier_token: Seq<char>,
)
    requires
        s.valid(),
        earlier < s.next_upload,
    ensures
        numbered(s.next_upload, token) != numbered(earlier, earlier_token),
        !s.uploads.contains_key(numbered(s.next_upload, token)),
        number_of(numbered(s.next_upload, token)) == Some(s.next_upload),
{
    lemma_numbered_texts_differ(s.next_upload, token, earlier, earlier_token);
    lemma_number_of_numbered(s.next_upload, token);
}

/// After an upload was aborted, the session and the bodies of its parts are
/// gone, and a part for it, its completion and another abort are refused
/// with `NotFound`.
pub proof fn lemma_aborted_upload_is_gone(s: State, upload_id: Seq<char>, number: u32)
    ensures
        ({
            let t = s.without_upload(upload_id);
            &&& !t.uploads.contains_key(upload_id)
            &&& forall|r: Seq<char>|
                part_refs(s.uploads[upload_id]).contains(r) ==> !t.blobs.contains_key(r)
            &&& t.part_refusal(upload_id, number) == Some(StoreError::NotFound)
            &&& t.completion_refusal(upload_id) == Some(StoreError::NotFound)
            &&& t.abort_refusal(upload_id) == Some(StoreError::NotFound)
        }),
{
}

/// While a serial and a version identifier are left, the completion of an
/// upload whose part numbers are exactly 1, 2, ..., N is not refused. The
/// version recorded is then the last entry and the latest version of the
/// upload's key; its body is the bodies of the parts in the order of their
/// numbers, its size is their lengths added up, and a read of the key gives
/// that body; and the state is valid.
pub proof fn lemma_completion_is_owed(s: State, upload_id: Seq<char>, now: u64)
    requires
        s.valid(),
        s.uploads.contains_key(upload_id),
        contiguous(s.uploads[upload_id].parts),
        !s.out_of_room(),
        s.assembled_object(upload_id).len() <= u64::MAX,
    ensures
        s.completion_refusal(upload_id) is None,
        ({
            let session = s.uploads[upload_id];
            let bodies = in_part_order(s.part_bodies(upload_id), s.part_count(upload_id));
            let t = s.completed(upload_id, now);
            let v = s.completed_version(upload_id, now);
            &&& t.valid()
            &&& t.history(session.bucket, session.key).last() == v
            &&& t.latest(session.bucket, session.key) == Some(v)
            &&& t.blobs.contains_key(v.storage_ref)
            &&& t.blobs[v.storage_ref] == bodies.flatten()
            &&& v.size == total_len(bodies)
            &&& t.read(session.bucket, session.key) == Ok::<(VersionView, Seq<u8>), StoreError>(
                (v, bodies.flatten()),
            )
        }),
{
    let v = s.completed_version(upload_id, now);
    let bodies = in_part_order(s.part_bodies(upload_id), s.part_count(upload_id));
    assert(flagged(v, true) == v);
    lemma_completed_valid(s, upload_id, now);
    lemma_assembled_len(bodies);
}

/// After an upload was completed, a read of its key gives the version
/// recorded and the assembled object: the bodies of the parts 1, 2, ..., N
/// one after the other. The session is gone, and a part for it, its
/// completion and its abort are refused with `NotFound`.
pub proof fn lemma_completed_upload_is_readable(s: State, upload_id: Seq<char>, now: u64)
    requires
        s.completion_refusal(upload_id) is None,
    ensures
        ({
            let session = s.uploads[upload_id];
            let t = s.completed(upload_id, now);
            let v = s.completed_version(upload_id, now);
            &&& t.read(session.bucket, session.key) == Ok::<(VersionView, Seq<u8>), StoreError>(
                (v, s.assembled_object(upload_id)),
            )
            &&& s.assembled_object(upload_id) == in_part_order(
                s.part_bodies(upload_id),
                s.part_count(upload_id),
            ).flatten()
            &&& t.history(session.bucket, session.key) == appended(
                s.history(session.bucket, session.key),
                v,
            )
            &&& !t.uploads.contains_key(upload_id)
            &&& forall|n: u32| t.part_refusal(upload_id, n) == Some(StoreError::NotFound)
            &&& t.completion_refusal(upload_id) == Some(StoreError::NotFound)
            &&& t.abort_refusal(upload_id) == Some(StoreError::NotFound)
        }),
{
    let session = s.uploads[upload_id];
    let v = s.completed_version(upload_id, now);
    assert(flagged(v, true) == v);
}

/// The upload is completed only when its part numbers are exactly 1, 2, ...,
/// N: with a gap, or with a number beyond the count, it is refused with
/// `BadRequest`.
pub proof fn lemma_gap_is_bad_request(s: State, upload_id: Seq<char>, missing: u32, present: u32)
    requires
        s.uploads.contains_key(upload_id),
        1 <= missing < present,
        !s.uploads[upload_id].parts.contains_key(missing),
        s.uploads[upload_id].parts.contains_key(present),
    ensures
        s.completion_refusal(upload_id) == Some(StoreError::BadRequest),
{
    let parts = s.uploads[upload_id].parts;
    if contiguous(parts) {
        assert(1 <= present <= parts.dom().len());
        assert(1 <= missing <= parts.dom().len());
    }
}

/// The object assembled from an upload depends on the body that was staged
/// last under each part number and on nothing else: two parts with
/// different numbers staged in either order give the same bodies, and so the
/// same object.
pub proof fn lemma_order_of_arrival_is_irrelevant(
    s: State,
    upload_id: Seq<char>,
    a: u32,
    x: Seq<u8>,
    b: u32,
    y: Seq<u8>,
)
    requires
        s.valid(),
        s.uploads.contains_key(upload_id),
        a >= 1,
        b >= 1,
        a != b,
        s.next_serial + 2 <= u64::MAX,
        x.len() <= u64::MAX,
        y.len() <= u64::MAX,
    ensures
        ({
            let first = s.with_part(upload_id, a, x).with_part(upload_id, b, y);
            let second = s.with_part(upload_id, b, y).with_part(upload_id, a, x);
            &&& first.part_bodies(upload_id) == s.part_bodies(upload_id).insert(a, x).insert(b, y)
            &&& first.part_bodies(upload_id) == second.part_bodies(upload_id)
            &&& first.part_count(upload_id) == second.part_count(upload_id)
            &&& first.assembled_object(upload_id) == second.assembled_object(upload_id)
            &&& first.assembled_etag(upload_id) == second.assembled_etag(upload_id)
        }),
{
    let sa = s.with_part(upload_id, a, x);
    let sb = s.with_part(upload_id, b, y);
    lemma_with_part_valid(s, upload_id, a, x);
    lemma_with_part_valid(s, upload_id, b, y);
    lemma_with_part_valid(sa, upload_id, b, y);
    lemma_with_part_valid(sb, upload_id, a, x);
    let first = sa.with_part(upload_id, b, y);
    let second = sb.with_part(upload_id, a, x);
    assert(first.part_bodies(upload_id) =~= second.part_bodies(upload_id));
    assert(first.uploads[upload_id].parts.dom() =~= second.uploads[upload_id].parts.dom());
}

/// The body of the version `v` is in the blob store of `after` as it is in
/// the blob store of `before`. Nothing is asked of a delete marker.
pub open spec fn body_kept(before: State, after: State, v: VersionView) -> bool {
    !v.is_delete_marker ==> after.blobs.contains_key(v.storage_ref) && after.blobs[v.storage_ref]
        == before.blobs[v.storage_ref]
}

/// Every version of the histories of `before` has its body in `after` as it
/// has it in `before`.
pub open spec fn versions_unharmed(before: State, after: State) -> bool {
    forall|b: Seq<char>, k: Seq<char>, i: int|
        0 <= i < before.history(b, k).len() ==> body_kept(
            before,
            after,
            #[trigger] before.history(b, k)[i],
        )
}

/// Writing a version, deleting an object, opening an upload, staging a part,
/// aborting an upload and completing one leave the body of every version as
/// it was: a version owns its body, and no later write reaches it.
pub proof fn lemma_versions_keep_their_bodies(
    s: State,
    bucket: Seq<char>,
    key: Seq<char>,
    content: Seq<u8>,
    etag: Seq<char>,
    upload_id: Seq<char>,
    number: u32,
    now: u64,
)
    requires
        s.valid(),
    ensures
        versions_unharmed(s, s.with_version(bucket, key, content, etag, now)),
        versions_unharmed(s, s.with_delete_marker(bucket, key, now)),
        versions_unharmed(s, s.with_upload(upload_id, bucket, key, now)),
        s.uploads.contains_key(upload_id) ==> versions_unharmed(
            s,
            s.with_part(upload_id, number, content),
        ),
        s.uploads.contains_key(upload_id) ==> versions_unharmed(s, s.without_upload(upload_id)),
        s.uploads.contains_key(upload_id) ==> versions_unharmed(s, s.completed(upload_id, now)),
{
    lemma_next_reference_is_free(s.blobs, s.next_serial, content);
    assert forall|b: Seq<char>, k: Seq<char>, i: int|
        0 <= i < s.history(b, k).len() implies body_kept(s, s, #[trigger] s.history(b, k)[i]) by {
        assert(version_held(s.blobs, s.holders, s.history(b, k)[i]));
    }
    if s.uploads.contains_key(upload_id) {
        let session = s.uploads[upload_id];
        let gone = part_refs(session);
        let u = s.without_upload(upload_id);
        let replaced = session.parts.contains_key(number);
        assert forall|b: Seq<char>, k: Seq<char>, i: int|
            0 <= i < s.history(b, k).len() implies body_kept(s, u, #[trigger] s.history(b, k)[i])
            && (replaced && !s.history(b, k)[i].is_delete_marker ==> s.history(b, k)[i].storage_ref
            != session.parts[number].storage_ref) by {
            let v = s.history(b, k)[i];
            assert(version_held(s.blobs, s.holders, s.history(b, k)[i]));
            if !v.is_delete_marker && gone.contains(v.storage_ref) {
                let n = choose|n: u32|
                    session.parts.contains_key(n) && (#[trigger] session.parts[n]).storage_ref
                        == v.storage_ref;
                assert(part_held(s.blobs, s.holders, upload_id, n, s.uploads[upload_id].parts[n]));
            }
            if replaced {
                assert(part_held(
                    s.blobs,
                    s.holders,
                    upload_id,
                    number,
                    s.uploads[upload_id].parts[number],
                ));
            }
        }
        lemma_without_upload_valid(s, upload_id);
        lemma_next_reference_is_free(u.blobs, u.next_serial, s.assembled_object(upload_id));
    }
}

/// Deleting a version leaves the body of every other version as it was.
pub proof fn lemma_other_versions_keep_their_bodies(
    s: State,
    bucket: Seq<char>,
    key: Seq<char>,
    version_id: Seq<char>,
)
    requires
        s.valid(),
        has_version(s.history(bucket, key), version_id),
    ensures
        forall|b: Seq<char>, k: Seq<char>, i: int|
            0 <= i < s.history(b, k).len() && (b != bucket || k != key || i != position_of(
                s.history(bucket, key),
                version_id,
            )) ==> body_kept(
                s,
                s.without_version(bucket, key, version_id),
                #[trigger] s.history(b, k)[i],
            ),
{
    let h = s.history(bucket, key);
    let at = position_of(h, version_id);
    let t = s.without_version(bucket, key, version_id);
    assert(valid_history(h, bucket, key, s.next_version));
    assert(valid_entry(h[at], bucket, key, s.next_version));
    assert(version_held(s.blobs, s.holders, s.history(bucket, key)[at]));
    assert forall|b: Seq<char>, k: Seq<char>, i: int|
        0 <= i < s.history(b, k).len() && (b != bucket || k != key || i != at) implies body_kept(
        s,
        t,
        #[trigger] s.history(b, k)[i],
    ) by {
        let v = s.history(b, k)[i];
        assert(version_held(s.blobs, s.holders, s.history(b, k)[i]));
        assert(valid_history(s.history(b, k), b, k, s.next_version));
        assert(valid_entry(s.history(b, k)[i], b, k, s.next_version));
        if !v.is_delete_marker && !h[at].is_delete_marker && v.storage_ref == h[at].storage_ref {
            assert(v.version_id == h[at].version_id);
            lemma_identifiers_differ(h, bucket, key, s.next_version, i, at);
        }
    }
}

/// Where no upload leaves, the state stays as it is.
pub proof fn lemma_without_no_uploads(s: State)
    ensures
        s.without_uploads(Set::empty()) == s,
{
    let t = s.without_uploads(Set::empty());
    assert(t.blobs =~= s.blobs);
    assert(t.holders =~= s.holders);
    assert(t.uploads =~= s.uploads);
    assert(t =~= s);
}

/// Uploads that leave one after the other leave the state that they leave
/// together.
pub proof fn lemma_without_one_more_upload(s: State, gone: Set<Seq<char>>, upload_id: Seq<char>)
    requires
        s.uploads.contains_key(upload_id),
        !gone.contains(upload_id),
    ensures
        s.without_uploads(gone).without_upload(upload_id) == s.without_uploads(
            gone.insert(upload_id),
        ),
{
    let a = s.without_uploads(gone).without_upload(upload_id);
    let b = s.without_uploads(gone.insert(upload_id));
    let more = gone.insert(upload_id);
    assert(s.without_uploads(gone).uploads[upload_id] == s.uploads[upload_id]);
    assert forall|r: Seq<char>|
        s.refs_of_uploads(more).contains(r) <==> (s.refs_of_uploads(gone).contains(r) || part_refs(
            s.uploads[upload_id],
        ).contains(r)) by {
        if s.refs_of_uploads(more).contains(r) {
            let id = choose|id: Seq<char>|
                more.contains(id) && s.uploads.contains_key(id) && (#[trigger] part_refs(
                    s.uploads[id],
                )).contains(r);
            if id != upload_id {
                assert(gone.contains(id) && part_refs(s.uploads[id]).contains(r));
            }
        }
        if s.refs_of_uploads(gone).contains(r) {
            let id = choose|id: Seq<char>|
                gone.contains(id) && s.uploads.contains_key(id) && (#[trigger] part_refs(
                    s.uploads[id],
                )).contains(r);
            assert(more.contains(id) && part_refs(s.uploads[id]).contains(r));
        }
        if part_refs(s.uploads[upload_id]).contains(r) {
            assert(more.contains(upload_id) && part_refs(s.uploads[upload_id]).contains(r));
        }
    }
    assert(a.blobs =~= b.blobs);
    assert(a.holders =~= b.holders);
    assert(a.uploads =~= b.uploads);
    assert(a =~= b);
}

/// After the collection of the uploads that have outlived their time, the
/// sessions that are left are those that have not, and the bodies of the
/// parts of the others are gone.
pub proof fn lemma_expired_uploads_are_collected(s: State, now: u64, ttl: u64)
    ensures
        ({
            let t = s.without_expired(now, ttl);
            &&& forall|id: Seq<char>|
                t.uploads.contains_key(id) <==> s.uploads.contains_key(id) && !is_expired(
                    s.uploads[id].created_at,
                    now,
                    ttl,
                )
            &&& forall|id: Seq<char>| #[trigger]
                t.uploads.contains_key(id) ==> t.uploads[id] == s.uploads[id]
            &&& forall|id: Seq<char>, r: Seq<char>|
                s.uploads.contains_key(id) && is_expired(s.uploads[id].created_at, now, ttl)
                    && #[trigger] part_refs(s.uploads[id]).contains(r) ==> !t.blobs.contains_key(r)
            &&& t.histories == s.histories
        }),
{
    let t = s.without_expired(now, ttl);
    let gone = s.expired_uploads(now, ttl);
    assert forall|id: Seq<char>, r: Seq<char>|
        s.uploads.contains_key(id) && is_expired(s.uploads[id].created_at, now, ttl)
            && #[trigger] part_refs(s.uploads[id]).contains(r) implies !t.blobs.contains_key(r) by {
        assert(gone.contains(id));
        assert(s.refs_of_uploads(gone).contains(r));
    }
}

} // verus!
