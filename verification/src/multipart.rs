//! Upload sessions: the multipart uploads that are under way.
//!
//! A session is opened under an identifier of its own, takes parts while it
//! is active, and leaves the set of sessions when it is completed or aborted.
//! Nothing can be done to a session that has left, and its identifier is
//! never handed out again.

use crate::encoding::{lemma_number_of_numbered, number_of, number_text, numbered};
use crate::error::StoreError;
use crate::parts::{PartRecord, PartView};
use crate::table::Table;
use std::collections::HashMap;
use vstd::prelude::*;

verus! {

/// The states of an upload session.
#[derive(Clone, Copy, Debug, PartialEq, Eq, Structural)]
pub enum UploadState {
    /// The session takes parts.
    Active,
    /// The parts were assembled into an object; the session is over.
    Completed,
    /// The parts were discarded; the session is over.
    Aborted,
}

/// One upload session.
pub struct UploadInfo {
    pub upload_id: String,
    pub bucket: String,
    pub key: String,
    /// The record of each part that was staged, by part number.
    pub parts: HashMap<u32, PartRecord>,
    pub created_at: u64,
    pub state: UploadState,
}

/// What an [`UploadInfo`] says, over sequences of characters and a map from
/// part numbers to records.
#[verifier::ext_equal]
pub struct UploadView {
    pub upload_id: Seq<char>,
    pub bucket: Seq<char>,
    pub key: Seq<char>,
    pub parts: Map<u32, PartView>,
    pub created_at: u64,
    pub state: UploadState,
}

impl View for UploadInfo {
    type V = UploadView;

    open spec fn view(&self) -> UploadView {
        UploadView {
            upload_id: self.upload_id@,
            bucket: self.bucket@,
            key: self.key@,
            parts: self.parts@.map_values(|p: PartRecord| p@),
            created_at: self.created_at,
            state: self.state,
        }
    }
}

impl Clone for UploadInfo {
    fn clone(&self) -> (copy: Self)
        ensures
            copy@ == self@,
            copy.parts@ == self.parts@,
    {
        UploadInfo {
            upload_id: self.upload_id.clone(),
            bucket: self.bucket.clone(),
            key: self.key.clone(),
            parts: self.parts.clone(),
            created_at: self.created_at,
            state: self.state,
        }
    }
}

/// The answer to the call that opens an upload.
pub struct InitiateMultipartUploadResponse {
    pub bucket: String,
    pub key: String,
    pub upload_id: String,
}

/// A session as it is when it was just opened: active and without parts.
pub open spec fn opened(
    upload_id: Seq<char>,
    bucket: Seq<char>,
    key: Seq<char>,
    created_at: u64,
) -> UploadView {
    UploadView {
        upload_id,
        bucket,
        key,
        parts: Map::empty(),
        created_at,
        state: UploadState::Active,
    }
}

/// `upload` after the part `number` was put with the record `part`.
pub open spec fn with_part(upload: UploadView, number: u32, part: PartView) -> UploadView {
    UploadView { parts: upload.parts.insert(number, part), ..upload }
}

/// The references of the bodies that the parts of `upload` hold.
pub open spec fn part_refs(upload: UploadView) -> Set<Seq<char>> {
    Set::new(
        |r: Seq<char>|
            exists|n: u32|
                upload.parts.contains_key(n) && (#[trigger] upload.parts[n]).storage_ref == r,
    )
}

/// The bodies of the parts 1, 2, ..., `count`, in that order.
pub open spec fn in_part_order(bodies: Map<u32, Seq<u8>>, count: nat) -> Seq<Seq<u8>> {
    Seq::new(count, |i: int| bodies[(i + 1) as u32])
}

/// The object that is assembled from the parts 1, 2, ..., `count`: their
/// bodies one after the other.
pub open spec fn assembled(bodies: Map<u32, Seq<u8>>, count: nat) -> Seq<u8> {
    in_part_order(bodies, count).flatten()
}

/// The lengths of `bodies`, added up.
pub open spec fn total_len(bodies: Seq<Seq<u8>>) -> nat
    decreases bodies.len(),
{
    if bodies.len() == 0 {
        0
    } else {
        total_len(bodies.drop_last()) + bodies.last().len()
    }
}

/// Bodies put one after the other are as long as the bodies together.
pub proof fn lemma_assembled_len(bodies: Seq<Seq<u8>>)
    ensures
        bodies.flatten().len() == total_len(bodies),
    decreases bodies.len(),
{
    if bodies.len() > 0 {
        lemma_assembled_len(bodies.drop_last());
        assert(bodies =~= bodies.drop_last().push(bodies.last()));
        bodies.drop_last().lemma_flatten_push(bodies.last());
    }
}

/// Whether a session opened at `created_at` has outlived `ttl` at the time
/// `now`: more than `ttl` has passed since it was opened.
pub open spec fn is_expired(created_at: u64, now: u64, ttl: u64) -> bool {
    now - created_at > ttl
}

/// Decides [`is_expired`].
pub fn expired(created_at: u64, now: u64, ttl: u64) -> (b: bool)
    ensures
        b == is_expired(created_at, now, ttl),
{
    now > created_at && now - created_at > ttl
}

/// What holds of the upload sessions while the counter of uploads stands at
/// `next_upload`: every session is filed under its own identifier, is
/// active, and has an identifier that was numbered from the counter.
pub open spec fn valid_uploads(uploads: Map<Seq<char>, UploadView>, next_upload: nat) -> bool {
    forall|id: Seq<char>| #[trigger]
        uploads.contains_key(id) ==> {
            &&& uploads[id].upload_id == id
            &&& uploads[id].state == UploadState::Active
            &&& number_of(id) is Some
            &&& number_of(id)->0 < next_upload
        }
}

/// Calls `Uuid::new_v4` of the `uuid` crate and writes the identifier out as
/// text. The identifier is drawn at random: nothing is claimed of it.
#[verifier::external_body]
fn random_token() -> (token: String) {
    uuid::Uuid::new_v4().to_string()
}

/// The sessions that are under way, by upload identifier.
pub struct UploadStore {
    uploads: Table<UploadInfo>,
    next_upload: u64,
}

impl View for UploadStore {
    type V = Map<Seq<char>, UploadView>;

    closed spec fn view(&self) -> Map<Seq<char>, UploadView> {
        self.uploads@.map_values(|u: UploadInfo| u@)
    }
}

impl UploadStore {
    /// The number that the next upload identifier is made with.
    pub closed spec fn next_upload(&self) -> nat {
        self.next_upload as nat
    }

    /// The sessions are valid for the counter of uploads.
    pub open spec fn wf(&self) -> bool {
        valid_uploads(self@, self.next_upload())
    }

    /// No number is left: the store opens no further upload.
    pub open spec fn is_exhausted(&self) -> bool {
        self.next_upload() >= u64::MAX
    }

    /// The identifiers of the sessions, in the order in which
    /// [`UploadStore::upload_at`] hands the sessions out.
    pub closed spec fn ids(&self) -> Seq<Seq<char>> {
        self.uploads.names()
    }

    /// A store without sessions: nothing is filed, nothing is listed, and
    /// the counter of uploads stands at its start.
    pub fn new() -> (store: Self)
        ensures
            store.wf(),
            store@ == Map::<Seq<char>, UploadView>::empty(),
            store.ids() == Seq::<Seq<char>>::empty(),
            store.next_upload() == 0,
    {
        let store = UploadStore { uploads: Table::new(), next_upload: 0 };
        assert(store@ =~= Map::<Seq<char>, UploadView>::empty());
        store
    }

    /// The number of sessions.
    pub fn len(&self) -> (n: usize)
        ensures
            n == self@.dom().len(),
            n == self.ids().len(),
            self@.dom().finite(),
            self.ids().no_duplicates(),
            self@.dom() == self.ids().to_set(),
    {
        assert(self@.dom() =~= self.uploads@.dom());
        self.uploads.len()
    }

    /// The session at position `i` of the listing.
    pub fn upload_at(&self, i: usize) -> (upload: &UploadInfo)
        requires
            i < self.ids().len(),
        ensures
            self@.contains_key(self.ids()[i as int]),
            upload@ == self@[self.ids()[i as int]],
    {
        let ghost id = self.uploads.names()[i as int];
        let key = self.uploads.key_at(i);
        self.uploads.value_at(i)
    }

    /// Whether a session is filed under `upload_id`.
    pub fn contains(&self, upload_id: &str) -> (b: bool)
        ensures
            b == self@.contains_key(upload_id@),
    {
        self.uploads.contains_key(upload_id)
    }

    /// Whether no further upload can be opened.
    pub fn exhausted(&self) -> (b: bool)
        ensures
            b == self.is_exhausted(),
    {
        self.next_upload == u64::MAX
    }

    /// Opens a session for `key` in `bucket` and hands back its identifier:
    /// `token`, numbered from the counter of uploads.
    ///
    /// Fails with `Internal`, and changes nothing, when the counter is used
    /// up.
    pub fn open_upload(&mut self, token: &str, bucket: String, key: String, created_at: u64) -> (r:
        Result<String, StoreError>)
        requires
            old(self).wf(),
        ensures
            final(self).wf(),
            match r {
                Ok(upload_id) => {
                    &&& !old(self).is_exhausted()
                    &&& upload_id@ == numbered(old(self).next_upload(), token@)
                    &&& !old(self)@.contains_key(upload_id@)
                    &&& final(self)@ == old(self)@.insert(
                        upload_id@,
                        opened(upload_id@, bucket@, key@, created_at),
                    )
                    &&& final(self).next_upload() == old(self).next_upload() + 1
                },
                Err(e) => {
                    &&& e == StoreError::Internal
                    &&& old(self).is_exhausted()
                    &&& *final(self) == *old(self)
                },
            },
    {
        if self.next_upload == u64::MAX {
            return Err(StoreError::Internal);
        }
        let ghost before = *self;
        let upload_id = number_text(self.next_upload, token);
        proof {
            lemma_number_of_numbered(self.next_upload as nat, token@);
        }
        let id = upload_id.clone();
        let upload = UploadInfo {
            upload_id: upload_id.clone(),
            bucket,
            key,
            parts: HashMap::new(),
            created_at,
            state: UploadState::Active,
        };
        assert(upload@ =~= opened(upload_id@, bucket@, key@, created_at)) by {
            assert(upload@.parts =~= Map::<u32, PartView>::empty());
        }
        self.uploads.insert(id, upload);
        self.next_upload = self.next_upload + 1;
        proof {
            assert(self@ =~= before@.insert(
                upload_id@,
                opened(upload_id@, bucket@, key@, created_at),
            ));
            assert forall|id: Seq<char>| #[trigger] self@.contains_key(id) implies {
                &&& self@[id].upload_id == id
                &&& self@[id].state == UploadState::Active
                &&& number_of(id) is Some
                &&& number_of(id)->0 < self.next_upload()
            } by {
                if id != upload_id@ {
                    assert(before@.contains_key(id));
                }
            }
        }
        Ok(upload_id)
    }

    /// Opens a session for `key` in `bucket` and hands back its identifier: a
    /// token drawn at random, numbered from the counter of uploads. Whatever
    /// the token is, the number makes the identifier differ from every
    /// identifier that the store has handed out.
    ///
    /// Fails with `Internal`, and changes nothing, when the counter is used
    /// up.
    pub fn create_upload(&mut self, bucket: String, key: String, created_at: u64) -> (r: Result<
        String,
        StoreError,
    >)
        requires
            old(self).wf(),
        ensures
            final(self).wf(),
            match r {
                Ok(upload_id) => {
                    &&& !old(self).is_exhausted()
                    &&& number_of(upload_id@) == Some(old(self).next_upload())
                    &&& !old(self)@.contains_key(upload_id@)
                    &&& final(self)@ == old(self)@.insert(
                        upload_id@,
                        opened(upload_id@, bucket@, key@, created_at),
                    )
                    &&& final(self).next_upload() == old(self).next_upload() + 1
                },
                Err(e) => {
                    &&& e == StoreError::Internal
                    &&& old(self).is_exhausted()
                    &&& *final(self) == *old(self)
                },
            },
    {
        let token = random_token();
        proof {
            lemma_number_of_numbered(self.next_upload as nat, token@);
        }
        self.open_upload(token.as_str(), bucket, key, created_at)
    }

    /// The session filed under `upload_id`.
    pub fn get_upload(&self, upload_id: &str) -> (r: Option<UploadInfo>)
        ensures
            match r {
                Some(upload) => self@.contains_key(upload_id@) && upload@ == self@[upload_id@],
                None => !self@.contains_key(upload_id@),
            },
    {
        match self.uploads.get(upload_id) {
            Some(upload) => Some(upload.clone()),
            None => None,
        }
    }

    /// The session filed under `upload_id`, by reference.
    pub fn upload_ref(&self, upload_id: &str) -> (r: Option<&UploadInfo>)
        ensures
            match r {
                Some(upload) => self@.contains_key(upload_id@) && upload@ == self@[upload_id@],
                None => !self@.contains_key(upload_id@),
            },
    {
        self.uploads.get(upload_id)
    }

    /// Puts `part` under `part_number` in the session `upload_id` and hands
    /// back the record that it replaces, if there was one.
    ///
    /// Fails with `NotFound` when no session is filed under `upload_id`, and
    /// with `BadRequest` when `part_number` is zero; nothing changes then.
    pub fn add_part(&mut self, upload_id: &str, part_number: u32, part: PartRecord) -> (r: Result<
        Option<PartRecord>,
        StoreError,
    >)
        requires
            old(self).wf(),
        ensures
            final(self).wf(),
            final(self).next_upload() == old(self).next_upload(),
            match r {
                Ok(previous) => {
                    &&& old(self)@.contains_key(upload_id@)
                    &&& part_number >= 1
                    &&& final(self)@ == old(self)@.insert(
                        upload_id@,
                        with_part(old(self)@[upload_id@], part_number, part@),
                    )
                    &&& match previous {
                        Some(p) => old(self)@[upload_id@].parts.contains_key(part_number) && p@
                            == old(self)@[upload_id@].parts[part_number],
                        None => !old(self)@[upload_id@].parts.contains_key(part_number),
                    }
                },
                Err(e) => {
                    &&& *final(self) == *old(self)
                    &&& e == if old(self)@.contains_key(upload_id@) {
                        StoreError::BadRequest
                    } else {
                        StoreError::NotFound
                    }
                    &&& old(self)@.contains_key(upload_id@) ==> part_number == 0
                },
            },
    {
        if !self.uploads.contains_key(upload_id) {
            return Err(StoreError::NotFound);
        }
        if part_number == 0 {
            return Err(StoreError::BadRequest);
        }
        let ghost before = *self;
        assert(before.uploads@.contains_key(upload_id@));
        let mut upload = match self.uploads.remove(upload_id) {
            Some(u) => u,
            None => {
                return Err(StoreError::NotFound);
            },
        };
        let ghost taken = upload;
        let previous = upload.parts.insert(part_number, part);
        assert(upload@ =~= with_part(taken@, part_number, part@)) by {
            assert(upload@.parts =~= taken@.parts.insert(part_number, part@));
        }
        self.uploads.insert(upload_id.to_owned(), upload);
        proof {
            assert(self@ =~= before@.insert(
                upload_id@,
                with_part(before@[upload_id@], part_number, part@),
            ));
            assert forall|id: Seq<char>| #[trigger] self@.contains_key(id) implies {
                &&& self@[id].upload_id == id
                &&& self@[id].state == UploadState::Active
                &&& number_of(id) is Some
                &&& number_of(id)->0 < self.next_upload()
            } by {
                assert(before@.contains_key(id));
            }
        }
        Ok(previous)
    }

    /// Takes the session filed under `upload_id` out of the store and hands
    /// it back in the state `end`, which says how it ended.
    ///
    /// Fails with `NotFound`, and changes nothing, when there is no such
    /// session.
    pub fn close_upload(&mut self, upload_id: &str, end: UploadState) -> (r: Result<
        UploadInfo,
        StoreError,
    >)
        requires
            old(self).wf(),
        ensures
            final(self).wf(),
            final(self).next_upload() == old(self).next_upload(),
            match r {
                Ok(upload) => {
                    &&& old(self)@.contains_key(upload_id@)
                    &&& upload@ == UploadView { state: end, ..old(self)@[upload_id@] }
                    &&& final(self)@ == old(self)@.remove(upload_id@)
                },
                Err(e) => {
                    &&& e == StoreError::NotFound
                    &&& !old(self)@.contains_key(upload_id@)
                    &&& *final(self) == *old(self)
                },
            },
    {
        let ghost before = *self;
        match self.uploads.remove(upload_id) {
            Some(upload) => {
                let ghost taken = upload;
                let mut upload = upload;
                upload.state = end;
                proof {
                    assert(before.uploads@.contains_key(upload_id@));
                    assert(upload@ =~= UploadView { state: end, ..taken@ });
                    assert(self@ =~= before@.remove(upload_id@));
                    assert forall|id: Seq<char>| #[trigger] self@.contains_key(id) implies {
                &&& self@[id].upload_id == id
                &&& self@[id].state == UploadState::Active
                &&& number_of(id) is Some
                &&& number_of(id)->0 < self.next_upload()
            } by {
                assert(before@.contains_key(id));
            }
                }
                Ok(upload)
            },
            None => {
                assert(self.uploads@ =~= before.uploads@);
                Err(StoreError::NotFound)
            },
        }
    }
}

} // verus!
