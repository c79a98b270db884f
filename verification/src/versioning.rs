//! The version index: for every bucket and key, the history of its versions.
//!
//! A history only grows at its end. Its last entry is the latest version, and
//! the only one flagged so. A version identifier is a number in hexadecimal,
//! and within a key the numbers grow with the order of creation. The index
//! issues identifiers from a counter; it also takes in an entry that carries
//! an identifier of the caller's, if that is newer than all of the key's, and
//! moves the counter past it.

use crate::encoding::{hex, lemma_parsed_hex_of_hex, parse_hex, parsed_hex, to_hex};
use crate::error::StoreError;
use crate::table::Table;
use vstd::prelude::*;
use vstd::string::*;

verus! {

/// One version of an object.
pub struct VersionInfo {
    pub version_id: String,
    pub bucket: String,
    pub key: String,
    pub is_latest: bool,
    pub is_delete_marker: bool,
    pub size: u64,
    pub last_modified: u64,
    pub etag: String,
    /// The reference of the body in the blob store; empty for a delete marker.
    pub storage_ref: String,
}

/// What a [`VersionInfo`] says, with its texts as sequences of characters.
pub struct VersionView {
    pub version_id: Seq<char>,
    pub bucket: Seq<char>,
    pub key: Seq<char>,
    pub is_latest: bool,
    pub is_delete_marker: bool,
    pub size: u64,
    pub last_modified: u64,
    pub etag: Seq<char>,
    pub storage_ref: Seq<char>,
}

impl View for VersionInfo {
    type V = VersionView;

    open spec fn view(&self) -> VersionView {
        VersionView {
            version_id: self.version_id@,
            bucket: self.bucket@,
            key: self.key@,
            is_latest: self.is_latest,
            is_delete_marker: self.is_delete_marker,
            size: self.size,
            last_modified: self.last_modified,
            etag: self.etag@,
            storage_ref: self.storage_ref@,
        }
    }
}

impl Clone for VersionInfo {
    fn clone(&self) -> (copy: Self)
        ensures
            copy == *self,
    {
        VersionInfo {
            version_id: self.version_id.clone(),
            bucket: self.bucket.clone(),
            key: self.key.clone(),
            is_latest: self.is_latest,
            is_delete_marker: self.is_delete_marker,
            size: self.size,
            last_modified: self.last_modified,
            etag: self.etag.clone(),
            storage_ref: self.storage_ref.clone(),
        }
    }
}

/// The request body of the call that switches versioning on for a bucket.
pub struct VersioningConfiguration {
    pub status: String,
}

/// The views of a list of versions, in order.
pub open spec fn views_of(versions: Seq<VersionInfo>) -> Seq<VersionView> {
    versions.map_values(|v: VersionInfo| v@)
}

/// The counter value that a version identifier stands for.
pub open spec fn version_number(version_id: Seq<char>) -> Option<u64> {
    parsed_hex(version_id)
}

/// A delete marker carries no body: size zero, no entity tag, no reference.
pub open spec fn marker_is_bare(v: VersionView) -> bool {
    v.is_delete_marker ==> v.size == 0 && v.etag.len() == 0 && v.storage_ref.len() == 0
}

/// What holds of every entry in the history of `bucket` and `key` while the
/// counter stands at `next_id`.
pub open spec fn valid_entry(
    v: VersionView,
    bucket: Seq<char>,
    key: Seq<char>,
    next_id: nat,
) -> bool {
    &&& v.bucket == bucket
    &&& v.key == key
    &&& version_number(v.version_id) is Some
    &&& version_number(v.version_id)->0 < next_id
    &&& marker_is_bare(v)
}

/// The invariant of one history: every entry belongs to the key, exactly the
/// last entry is flagged latest, and identifiers grow with the position.
pub open spec fn valid_history(
    h: Seq<VersionView>,
    bucket: Seq<char>,
    key: Seq<char>,
    next_id: nat,
) -> bool {
    &&& forall|i: int| 0 <= i < h.len() ==> valid_entry(#[trigger] h[i], bucket, key, next_id)
    &&& forall|i: int| 0 <= i < h.len() ==> ((#[trigger] h[i]).is_latest <==> i == h.len() - 1)
    &&& forall|i: int, j: int|
        0 <= i < j < h.len() ==> version_number((#[trigger] h[i]).version_id)->0 < version_number(
            (#[trigger] h[j]).version_id,
        )->0
}

/// `v` with its latest flag set to `flag`.
pub open spec fn flagged(v: VersionView, flag: bool) -> VersionView {
    VersionView { is_latest: flag, ..v }
}

/// `h` with no entry flagged latest.
pub open spec fn retired(h: Seq<VersionView>) -> Seq<VersionView> {
    h.map_values(|v: VersionView| flagged(v, false))
}

/// The history after `v` was appended to `h`: `v` is the latest, nothing else is.
pub open spec fn appended(h: Seq<VersionView>, v: VersionView) -> Seq<VersionView> {
    retired(h).push(flagged(v, true))
}

/// `h` with its last entry, if there is one, flagged latest.
pub open spec fn promoted(h: Seq<VersionView>) -> Seq<VersionView> {
    if h.len() == 0 {
        h
    } else {
        h.update(h.len() - 1, flagged(h.last(), true))
    }
}

/// The history after the entry at position `i` was deleted from `h`: the most
/// recent entry that is left is the latest.
pub open spec fn without(h: Seq<VersionView>, i: int) -> Seq<VersionView> {
    promoted(h.remove(i))
}

/// The latest version of a history: its last entry.
pub open spec fn latest_of(h: Seq<VersionView>) -> Option<VersionView> {
    if h.len() == 0 {
        None
    } else {
        Some(h.last())
    }
}

/// Whether `h` has an entry with the identifier `version_id`.
pub open spec fn has_version(h: Seq<VersionView>, version_id: Seq<char>) -> bool {
    exists|i: int| 0 <= i < h.len() && (#[trigger] h[i]).version_id == version_id
}

/// The position of the entry of `h` with the identifier `version_id`.
pub open spec fn position_of(h: Seq<VersionView>, version_id: Seq<char>) -> int {
    choose|i: int| 0 <= i < h.len() && (#[trigger] h[i]).version_id == version_id
}

/// Whether [`VersionStore::add_version`] takes `v` into the history `h` of
/// `bucket` and `key`, and the error with which it refuses.
///
/// `v` must name the bucket and the key; if it is a delete marker, it must be
/// bare; its identifier must be a number in hexadecimal, below the end of the
/// counter, and newer than every entry of `h`. Whether the index has issued
/// the identifier or the caller has made it does not matter.
pub open spec fn admission(
    h: Seq<VersionView>,
    bucket: Seq<char>,
    key: Seq<char>,
    v: VersionView,
) -> Result<(), StoreError> {
    if v.bucket != bucket || v.key != key {
        Err(StoreError::BadRequest)
    } else if !marker_is_bare(v) {
        Err(StoreError::BadRequest)
    } else if version_number(v.version_id) is None {
        Err(StoreError::BadRequest)
    } else if version_number(v.version_id)->0 >= u64::MAX {
        Err(StoreError::Internal)
    } else if h.len() > 0 && version_number(h.last().version_id)->0 >= version_number(
        v.version_id,
    )->0 {
        Err(StoreError::Conflict)
    } else {
        Ok(())
    }
}

/// Where the counter stands after an entry with the identifier `version_id`
/// was taken in while it stood at `next_id`: past the identifier, so that the
/// index does not issue it again, and never back.
pub open spec fn counter_past(next_id: nat, version_id: Seq<char>) -> nat {
    if version_number(version_id)->0 >= next_id {
        (version_number(version_id)->0 + 1) as nat
    } else {
        next_id
    }
}

/// A history that is valid while the counter stands at `next_id` is valid
/// when the counter has advanced.
pub proof fn lemma_valid_history_later(
    h: Seq<VersionView>,
    bucket: Seq<char>,
    key: Seq<char>,
    next_id: nat,
    later: nat,
)
    requires
        valid_history(h, bucket, key, next_id),
        next_id <= later,
    ensures
        valid_history(h, bucket, key, later),
{
    assert forall|i: int| 0 <= i < h.len() implies valid_entry(
        #[trigger] h[i],
        bucket,
        key,
        later,
    ) by {
        assert(valid_entry(h[i], bucket, key, next_id));
    }
}

/// Appending an admitted version keeps a history valid, once the counter
/// stands past its identifier.
pub proof fn lemma_appended_valid(
    h: Seq<VersionView>,
    bucket: Seq<char>,
    key: Seq<char>,
    next_id: nat,
    v: VersionView,
)
    requires
        valid_history(h, bucket, key, next_id),
        admission(h, bucket, key, v) is Ok,
        version_number(v.version_id)->0 < next_id,
    ensures
        valid_history(appended(h, v), bucket, key, next_id),
{
    let a = appended(h, v);
    assert forall|i: int| 0 <= i < a.len() implies valid_entry(
        #[trigger] a[i],
        bucket,
        key,
        next_id,
    ) && (a[i].is_latest <==> i == a.len() - 1) by {
        if i < h.len() {
            assert(a[i] == flagged(h[i], false));
        }
    }
    assert forall|i: int, j: int| 0 <= i < j < a.len() implies version_number(
        (#[trigger] a[i]).version_id,
    )->0 < version_number((#[trigger] a[j]).version_id)->0 by {
        assert(a[i] == flagged(h[i], false));
        if j < h.len() {
            assert(a[j] == flagged(h[j], false));
        } else {
            if i < h.len() - 1 {
                assert(version_number(h[i].version_id)->0 < version_number(
                    h[h.len() - 1].version_id,
                )->0);
            }
        }
    }
}

/// Deleting an entry keeps a history valid.
pub proof fn lemma_without_valid(
    h: Seq<VersionView>,
    bucket: Seq<char>,
    key: Seq<char>,
    next_id: nat,
    i: int,
)
    requires
        valid_history(h, bucket, key, next_id),
        0 <= i < h.len(),
    ensures
        valid_history(without(h, i), bucket, key, next_id),
{
    let r = h.remove(i);
    let w = without(h, i);
    assert forall|j: int| 0 <= j < w.len() implies valid_entry(
        #[trigger] w[j],
        bucket,
        key,
        next_id,
    ) && (w[j].is_latest <==> j == w.len() - 1) by {
        let src = if j < i {
            j
        } else {
            j + 1
        };
        assert(r[j] == h[src]);
        assert(valid_entry(h[src], bucket, key, next_id));
    }
    assert forall|j: int, k: int| 0 <= j < k < w.len() implies version_number(
        (#[trigger] w[j]).version_id,
    )->0 < version_number((#[trigger] w[k]).version_id)->0 by {
        let sj = if j < i {
            j
        } else {
            j + 1
        };
        let sk = if k < i {
            k
        } else {
            k + 1
        };
        assert(r[j] == h[sj]);
        assert(r[k] == h[sk]);
        assert(version_number(h[sj].version_id)->0 < version_number(h[sk].version_id)->0);
    }
}

/// In a valid history no identifier occurs twice.
pub proof fn lemma_identifiers_differ(
    h: Seq<VersionView>,
    bucket: Seq<char>,
    key: Seq<char>,
    next_id: nat,
    i: int,
    j: int,
)
    requires
        valid_history(h, bucket, key, next_id),
        0 <= i < h.len(),
        0 <= j < h.len(),
        h[i].version_id == h[j].version_id,
    ensures
        i == j,
{
    if i < j {
        assert(version_number(h[i].version_id)->0 < version_number(h[j].version_id)->0);
    } else if j < i {
        assert(version_number(h[j].version_id)->0 < version_number(h[i].version_id)->0);
    }
}

/// In a valid history an identifier is found at the position of the entry
/// that carries it.
pub proof fn lemma_position_of(
    h: Seq<VersionView>,
    bucket: Seq<char>,
    key: Seq<char>,
    next_id: nat,
    i: int,
)
    requires
        valid_history(h, bucket, key, next_id),
        0 <= i < h.len(),
    ensures
        has_version(h, h[i].version_id),
        position_of(h, h[i].version_id) == i,
{
    lemma_identifiers_differ(h, bucket, key, next_id, position_of(h, h[i].version_id), i);
}

/// The version index.
pub struct VersionStore {
    buckets: Table<Table<Vec<VersionInfo>>>,
    next_id: u64,
}

impl VersionStore {
    /// The versions of `key` in `bucket`, oldest first; empty when there are
    /// none.
    pub closed spec fn history(&self, bucket: Seq<char>, key: Seq<char>) -> Seq<VersionView> {
        if self.buckets@.contains_key(bucket) && self.buckets@[bucket]@.contains_key(key) {
            views_of(self.buckets@[bucket]@[key]@)
        } else {
            Seq::empty()
        }
    }

    /// Whether the index knows `bucket`: versioning was switched on for it, or
    /// a version was recorded in it.
    pub closed spec fn has_bucket(&self, bucket: Seq<char>) -> bool {
        self.buckets@.contains_key(bucket)
    }

    /// The number that the next version identifier stands for.
    pub closed spec fn next_id(&self) -> nat {
        self.next_id as nat
    }

    /// Every history is valid.
    pub open spec fn wf(&self) -> bool {
        forall|bucket: Seq<char>, key: Seq<char>|
            valid_history(#[trigger] self.history(bucket, key), bucket, key, self.next_id())
    }

    /// No identifier is left: the index records no further version.
    pub open spec fn is_exhausted(&self) -> bool {
        self.next_id() >= u64::MAX
    }

    /// An index without buckets.
    pub fn new() -> (store: Self)
        ensures
            store.wf(),
            store.next_id() == 1,
            forall|bucket: Seq<char>| !store.has_bucket(bucket),
            forall|bucket: Seq<char>, key: Seq<char>| #[trigger]
                store.history(bucket, key) == Seq::<VersionView>::empty(),
    {
        VersionStore { buckets: Table::new(), next_id: 1 }
    }

    /// Whether no further identifier can be issued.
    pub fn exhausted(&self) -> (b: bool)
        ensures
            b == self.is_exhausted(),
    {
        self.next_id == u64::MAX
    }

    /// The list behind [`VersionStore::history`].
    fn history_ref(&self, bucket: &str, key: &str) -> (r: Option<&Vec<VersionInfo>>)
        ensures
            match r {
                Some(list) => views_of(list@) == self.history(bucket@, key@),
                None => self.history(bucket@, key@) == Seq::<VersionView>::empty(),
            },
    {
        match self.buckets.get(bucket) {
            Some(keys) => keys.get(key),
            None => None,
        }
    }

    /// Issues the next version identifier.
    ///
    /// Fails with `Internal`, and changes nothing, when the counter is used up.
    pub fn generate_version_id(&mut self) -> (r: Result<String, StoreError>)
        requires
            old(self).wf(),
        ensures
            final(self).wf(),
            forall|bucket: Seq<char>, key: Seq<char>| #[trigger]
                final(self).history(bucket, key) == old(self).history(bucket, key),
            forall|bucket: Seq<char>|
                final(self).has_bucket(bucket) == old(self).has_bucket(bucket),
            match r {
                Ok(id) => {
                    &&& !old(self).is_exhausted()
                    &&& id@ == hex(old(self).next_id())
                    &&& version_number(id@) == Some(old(self).next_id() as u64)
                    &&& final(self).next_id() == old(self).next_id() + 1
                },
                Err(e) => {
                    &&& e == StoreError::Internal
                    &&& old(self).is_exhausted()
                    &&& *final(self) == *old(self)
                },
            },
    {
        if self.next_id == u64::MAX {
            return Err(StoreError::Internal);
        }
        let id = to_hex(self.next_id);
        proof {
            lemma_parsed_hex_of_hex(self.next_id);
        }
        let ghost before = *self;
        self.next_id = self.next_id + 1;
        proof {
            assert forall|bucket: Seq<char>, key: Seq<char>|
                valid_history(
                    #[trigger] self.history(bucket, key),
                    bucket,
                    key,
                    self.next_id(),
                ) by {
                assert(self.history(bucket, key) == before.history(bucket, key));
                assert(valid_history(before.history(bucket, key), bucket, key, before.next_id()));
            }
        }
        Ok(id)
    }

    /// Whether the index knows `bucket`.
    pub fn versioning_enabled(&self, bucket: &str) -> (b: bool)
        ensures
            b == self.has_bucket(bucket@),
    {
        self.buckets.contains_key(bucket)
    }

    /// Makes `bucket` known to the index. The histories stay as they are.
    pub fn enable_versioning(&mut self, bucket: &str)
        requires
            old(self).wf(),
        ensures
            final(self).wf(),
            final(self).next_id() == old(self).next_id(),
            forall|b: Seq<char>|
                final(self).has_bucket(b) == (old(self).has_bucket(b) || b == bucket@),
            forall|b: Seq<char>, k: Seq<char>| #[trigger]
                final(self).history(b, k) == old(self).history(b, k),
    {
        let ghost before = *self;
        if !self.buckets.contains_key(bucket) {
            self.buckets.insert(bucket.to_owned(), Table::new());
        }
        proof {
            assert forall|b: Seq<char>, k: Seq<char>| #[trigger]
                self.history(b, k) == before.history(b, k) by {}
            assert forall|b: Seq<char>, k: Seq<char>|
                valid_history(#[trigger] self.history(b, k), b, k, self.next_id()) by {
                assert(valid_history(before.history(b, k), b, k, before.next_id()));
            }
        }
    }

    /// Decides [`admission`], and hands back the number of the identifier
    /// where the entry is let in.
    fn admit_version(&self, bucket: &str, key: &str, version_info: &VersionInfo) -> (r: Result<
        u64,
        StoreError,
    >)
        requires
            self.wf(),
        ensures
            match r {
                Ok(number) => {
                    &&& admission(self.history(bucket@, key@), bucket@, key@, version_info@) is Ok
                    &&& version_number(version_info@.version_id) == Some(number)
                },
                Err(e) => admission(self.history(bucket@, key@), bucket@, key@, version_info@)
                    == Err::<(), StoreError>(e),
            },
    {
        let bucket_name = bucket.to_owned();
        let key_name = key.to_owned();
        if !(version_info.bucket == bucket_name) || !(version_info.key == key_name) {
            return Err(StoreError::BadRequest);
        }
        if version_info.is_delete_marker && !(version_info.size == 0
            && version_info.etag.as_str().is_empty()
            && version_info.storage_ref.as_str().is_empty()) {
            return Err(StoreError::BadRequest);
        }
        let number = match parse_hex(version_info.version_id.as_str()) {
            Some(n) => n,
            None => {
                return Err(StoreError::BadRequest);
            },
        };
        if number == u64::MAX {
            return Err(StoreError::Internal);
        }
        match self.history_ref(bucket, key) {
            Some(list) => {
                if list.len() > 0 {
                    let last = &list[list.len() - 1];
                    proof {
                        let h = self.history(bucket@, key@);
                        assert(h.last() == last@);
                        assert(valid_entry(h[h.len() - 1], bucket@, key@, self.next_id()));
                    }
                    match parse_hex(last.version_id.as_str()) {
                        Some(newest) => {
                            if newest >= number {
                                return Err(StoreError::Conflict);
                            }
                        },
                        None => {},
                    }
                }
                Ok(number)
            },
            None => Ok(number),
        }
    }

    /// Records `version_info` as the newest version of `key` in `bucket`:
    /// the history of the key is the one it was, with no entry flagged latest,
    /// and after it the entry given, flagged latest. The identifier may be one
    /// that the index has issued or one of the caller's own; the counter of
    /// the index moves past it, so that it is not issued again.
    ///
    /// The entry is refused, and nothing changes, unless [`admission`] lets it
    /// in.
    pub fn add_version(&mut self, bucket: &str, key: &str, version_info: VersionInfo) -> (r:
        Result<(), StoreError>)
        requires
            old(self).wf(),
        ensures
            final(self).wf(),
            r == admission(old(self).history(bucket@, key@), bucket@, key@, version_info@),
            r is Ok ==> final(self).history(bucket@, key@) == appended(
                old(self).history(bucket@, key@),
                version_info@,
            ),
            r is Ok ==> final(self).next_id() == counter_past(
                old(self).next_id(),
                version_info@.version_id,
            ),
            r is Ok ==> latest_of(final(self).history(bucket@, key@)) == Some(
                flagged(version_info@, true),
            ),
            r is Err ==> *final(self) == *old(self),
            forall|b: Seq<char>, k: Seq<char>|
                b != bucket@ || k != key@ ==> #[trigger] final(self).history(b, k) == old(
                    self,
                ).history(b, k),
            forall|b: Seq<char>|
                final(self).has_bucket(b) == (old(self).has_bucket(b) || (r is Ok && b == bucket@)),
    {
        let number = match self.admit_version(bucket, key, &version_info) {
            Err(e) => {
                return Err(e);
            },
            Ok(number) => number,
        };
        let ghost before = *self;
        let ghost counter = counter_past(before.next_id(), version_info@.version_id);
        let ghost h = before.history(bucket@, key@);
        let mut keys: Table<Vec<VersionInfo>> = match self.buckets.remove(bucket) {
            Some(t) => t,
            None => Table::new(),
        };
        let mut list: Vec<VersionInfo> = match keys.remove(key) {
            Some(l) => l,
            None => Vec::new(),
        };
        assert(views_of(list@) =~= h);
        let ghost keys_rest = keys@;
        match list.pop() {
            Some(previous) => {
                let mut previous = previous;
                previous.is_latest = false;
                list.push(previous);
            },
            None => {},
        }
        let mut newest = version_info;
        newest.is_latest = true;
        list.push(newest);
        proof {
            assert(valid_history(h, bucket@, key@, before.next_id()));
            assert(views_of(list@) =~= appended(h, version_info@)) by {
                let a = appended(h, version_info@);
                assert(views_of(list@).len() == a.len());
                assert forall|i: int| 0 <= i < a.len() implies views_of(list@)[i] == a[i] by {
                    if i < h.len() - 1 {
                        assert(!h[i].is_latest);
                    }
                }
            }
            lemma_valid_history_later(h, bucket@, key@, before.next_id(), counter);
            lemma_appended_valid(h, bucket@, key@, counter, version_info@);
        }
        keys.insert(key.to_owned(), list);
        self.buckets.insert(bucket.to_owned(), keys);
        if number >= self.next_id {
            self.next_id = number + 1;
        }
        proof {
            assert(self.history(bucket@, key@) == appended(h, version_info@));
            assert forall|b: Seq<char>, k: Seq<char>| b != bucket@ || k != key@ implies #[trigger]
                self.history(b, k) == before.history(b, k) by {
                if b == bucket@ {
                    assert(self.buckets@[b]@ == keys_rest.insert(key@, list));
                    if before.buckets@.contains_key(b) {
                        assert(keys_rest == before.buckets@[b]@.remove(key@));
                    }
                }
            }
            assert forall|b: Seq<char>, k: Seq<char>|
                valid_history(#[trigger] self.history(b, k), b, k, self.next_id()) by {
                if b != bucket@ || k != key@ {
                    assert(self.history(b, k) == before.history(b, k));
                    lemma_valid_history_later(
                        before.history(b, k),
                        b,
                        k,
                        before.next_id(),
                        counter,
                    );
                }
            }
        }
        Ok(())
    }

    /// Issues an identifier and records a version under it.
    ///
    /// Fails with `BadRequest` when a delete marker is to carry a size, an
    /// entity tag or a reference, and with `Internal` when the counter is
    /// used up; nothing changes then.
    pub fn append(
        &mut self,
        bucket: &str,
        key: &str,
        storage_ref: String,
        size: u64,
        etag: String,
        is_delete_marker: bool,
        now: u64,
    ) -> (r: Result<VersionInfo, StoreError>)
        requires
            old(self).wf(),
        ensures
            final(self).wf(),
            forall|b: Seq<char>, k: Seq<char>|
                b != bucket@ || k != key@ ==> #[trigger] final(self).history(b, k) == old(
                    self,
                ).history(b, k),
            forall|b: Seq<char>|
                final(self).has_bucket(b) == (old(self).has_bucket(b) || (r is Ok && b == bucket@)),
            match r {
                Ok(version) => {
                    &&& version@ == VersionView {
                        version_id: hex(old(self).next_id()),
                        bucket: bucket@,
                        key: key@,
                        is_latest: true,
                        is_delete_marker,
                        size,
                        last_modified: now,
                        etag: etag@,
                        storage_ref: storage_ref@,
                    }
                    &&& marker_is_bare(version@)
                    &&& !old(self).is_exhausted()
                    &&& version_number(version@.version_id) == Some(old(self).next_id() as u64)
                    &&& final(self).next_id() == old(self).next_id() + 1
                    &&& final(self).history(bucket@, key@) == appended(
                        old(self).history(bucket@, key@),
                        version@,
                    )
                },
                Err(e) => {
                    &&& *final(self) == *old(self)
                    &&& e == if is_delete_marker && !(size == 0 && etag@.len() == 0
                        && storage_ref@.len() == 0) {
                        StoreError::BadRequest
                    } else {
                        StoreError::Internal
                    }
                    &&& e == StoreError::Internal ==> old(self).is_exhausted()
                },
            },
    {
        if is_delete_marker && !(size == 0 && etag.as_str().is_empty()
            && storage_ref.as_str().is_empty()) {
            return Err(StoreError::BadRequest);
        }
        let ghost before = *self;
        let ghost h = before.history(bucket@, key@);
        let version_id = match self.generate_version_id() {
            Ok(id) => id,
            Err(e) => {
                return Err(e);
            },
        };
        let version = VersionInfo {
            version_id,
            bucket: bucket.to_owned(),
            key: key.to_owned(),
            is_latest: true,
            is_delete_marker,
            size,
            last_modified: now,
            etag,
            storage_ref,
        };
        let copy = version.clone();
        proof {
            assert(valid_history(h, bucket@, key@, before.next_id()));
            if h.len() > 0 {
                assert(valid_entry(h[h.len() - 1], bucket@, key@, before.next_id()));
            }
            assert(admission(h, bucket@, key@, version@) is Ok);
        }
        let added = self.add_version(bucket, key, version);
        assert(added is Ok);
        Ok(copy)
    }

    /// The versions of `key` in `bucket`, oldest first.
    pub fn get_versions(&self, bucket: &str, key: &str) -> (versions: Vec<VersionInfo>)
        ensures
            views_of(versions@) == self.history(bucket@, key@),
    {
        match self.history_ref(bucket, key) {
            Some(list) => {
                let versions = list.clone();
                assert(versions@ =~= list@);
                versions
            },
            None => {
                let versions: Vec<VersionInfo> = Vec::new();
                assert(views_of(versions@) =~= Seq::<VersionView>::empty());
                versions
            },
        }
    }

    /// The position in `list` of the version with the identifier `version_id`.
    fn find(list: &Vec<VersionInfo>, version_id: &str) -> (r: Option<usize>)
        ensures
            match r {
                Some(i) => i < list.len() && list[i as int]@.version_id == version_id@,
                None => !has_version(views_of(list@), version_id@),
            },
    {
        let needle = version_id.to_owned();
        let mut i: usize = 0;
        while i < list.len()
            invariant
                i <= list.len(),
                needle@ == version_id@,
                forall|j: int|
                    0 <= j < i ==> (#[trigger] views_of(list@)[j]).version_id != version_id@,
            decreases list.len() - i,
        {
            if list[i].version_id == needle {
                return Some(i);
            }
            i += 1;
        }
        None
    }

    /// The version of `key` in `bucket` with the identifier `version_id`.
    pub fn get_version(&self, bucket: &str, key: &str, version_id: &str) -> (r: Option<
        VersionInfo,
    >)
        requires
            self.wf(),
        ensures
            match r {
                Some(version) => {
                    &&& has_version(self.history(bucket@, key@), version_id@)
                    &&& version@ == self.history(bucket@, key@)[position_of(
                        self.history(bucket@, key@),
                        version_id@,
                    )]
                    &&& version@.version_id == version_id@
                },
                None => !has_version(self.history(bucket@, key@), version_id@),
            },
    {
        let ghost h = self.history(bucket@, key@);
        match self.history_ref(bucket, key) {
            Some(list) => match Self::find(list, version_id) {
                Some(i) => {
                    proof {
                        assert(h[i as int].version_id == version_id@);
                        lemma_identifiers_differ(
                            h,
                            bucket@,
                            key@,
                            self.next_id(),
                            i as int,
                            position_of(h, version_id@),
                        );
                    }
                    Some(list[i].clone())
                },
                None => None,
            },
            None => None,
        }
    }

    /// The latest version of `key` in `bucket`: the last entry of its history.
    pub fn get_latest_version(&self, bucket: &str, key: &str) -> (r: Option<VersionInfo>)
        ensures
            match r {
                Some(version) => latest_of(self.history(bucket@, key@)) == Some(version@),
                None => latest_of(self.history(bucket@, key@)) is None,
            },
    {
        match self.history_ref(bucket, key) {
            Some(list) => {
                if list.len() > 0 {
                    Some(list[list.len() - 1].clone())
                } else {
                    None
                }
            },
            None => None,
        }
    }

    /// Deletes the version of `key` in `bucket` with the identifier
    /// `version_id` and hands it back. If it was the latest, the most recent
    /// version that is left becomes the latest.
    ///
    /// Fails with `NotFound`, and changes nothing, when there is no such
    /// version.
    pub fn delete_version(&mut self, bucket: &str, key: &str, version_id: &str) -> (r: Result<
        VersionInfo,
        StoreError,
    >)
        requires
            old(self).wf(),
        ensures
            final(self).wf(),
            final(self).next_id() == old(self).next_id(),
            forall|b: Seq<char>| final(self).has_bucket(b) == old(self).has_bucket(b),
            forall|b: Seq<char>, k: Seq<char>|
                b != bucket@ || k != key@ ==> #[trigger] final(self).history(b, k) == old(
                    self,
                ).history(b, k),
            match r {
                Ok(version) => {
                    &&& has_version(old(self).history(bucket@, key@), version_id@)
                    &&& version@ == old(self).history(bucket@, key@)[position_of(
                        old(self).history(bucket@, key@),
                        version_id@,
                    )]
                    &&& version@.version_id == version_id@
                    &&& final(self).history(bucket@, key@) == without(
                        old(self).history(bucket@, key@),
                        position_of(old(self).history(bucket@, key@), version_id@),
                    )
                },
                Err(e) => {
                    &&& e == StoreError::NotFound
                    &&& !has_version(old(self).history(bucket@, key@), version_id@)
                    &&& *final(self) == *old(self)
                },
            },
    {
        let ghost before = *self;
        let ghost h = before.history(bucket@, key@);
        let found = match self.history_ref(bucket, key) {
            Some(list) => Self::find(list, version_id),
            None => None,
        };
        let i = match found {
            Some(i) => i,
            None => {
                return Err(StoreError::NotFound);
            },
        };
        proof {
            assert(h[i as int].version_id == version_id@);
            lemma_identifiers_differ(
                h,
                bucket@,
                key@,
                before.next_id(),
                i as int,
                position_of(h, version_id@),
            );
            lemma_without_valid(h, bucket@, key@, before.next_id(), i as int);
        }
        let mut keys: Table<Vec<VersionInfo>> = match self.buckets.remove(bucket) {
            Some(t) => t,
            None => Table::new(),
        };
        let mut list: Vec<VersionInfo> = match keys.remove(key) {
            Some(l) => l,
            None => Vec::new(),
        };
        assert(views_of(list@) =~= h);
        let ghost keys_rest = keys@;
        let removed = list.remove(i);
        assert(views_of(list@) =~= h.remove(i as int));
        match list.pop() {
            Some(last) => {
                let mut last = last;
                last.is_latest = true;
                list.push(last);
            },
            None => {},
        }
        assert(views_of(list@) =~= without(h, i as int));
        keys.insert(key.to_owned(), list);
        self.buckets.insert(bucket.to_owned(), keys);
        proof {
            assert(self.history(bucket@, key@) == without(h, i as int));
            assert forall|b: Seq<char>, k: Seq<char>| b != bucket@ || k != key@ implies #[trigger]
                self.history(b, k) == before.history(b, k) by {
                if b == bucket@ {
                    assert(self.buckets@[b]@ == keys_rest.insert(key@, list));
                    assert(keys_rest == before.buckets@[b]@.remove(key@));
                }
            }
            assert forall|b: Seq<char>, k: Seq<char>|
                valid_history(#[trigger] self.history(b, k), b, k, self.next_id()) by {
                if b != bucket@ || k != key@ {
                    assert(self.history(b, k) == before.history(b, k));
                    assert(valid_history(before.history(b, k), b, k, before.next_id()));
                }
            }
        }
        Ok(removed)
    }
}

/// The delete marker that is recorded for `key` in `bucket` at the time `now`
/// under the identifier `version_id`.
pub open spec fn delete_marker(
    version_id: Seq<char>,
    bucket: Seq<char>,
    key: Seq<char>,
    now: u64,
) -> VersionView {
    VersionView {
        version_id,
        bucket,
        key,
        is_latest: true,
        is_delete_marker: true,
        size: 0,
        last_modified: now,
        etag: Seq::empty(),
        storage_ref: Seq::empty(),
    }
}

/// A history that a delete marker was appended to is longer by one entry;
/// the marker is its last entry and its latest version, names the bucket and
/// the key, and is bare; the entries before it are those that were there, in
/// their order, none of them flagged latest.
pub proof fn lemma_marker_ends_the_history(
    h: Seq<VersionView>,
    version_id: Seq<char>,
    bucket: Seq<char>,
    key: Seq<char>,
    now: u64,
)
    ensures
        ({
            let m = delete_marker(version_id, bucket, key, now);
            let after = appended(h, m);
            &&& after.len() == h.len() + 1
            &&& after.last() == m
            &&& latest_of(after) == Some(m)
            &&& m.bucket == bucket && m.key == key && m.is_latest && m.is_delete_marker
            &&& m.size == 0 && m.etag.len() == 0 && m.storage_ref.len() == 0
            &&& forall|i: int| 0 <= i < h.len() ==> #[trigger] after[i] == flagged(h[i], false)
        }),
{
    let m = delete_marker(version_id, bucket, key, now);
    assert(flagged(m, true) == m);
}

/// Records a delete marker as the newest version of `key` in `bucket`: from
/// then on the key is absent to readers, and its earlier versions stay.
///
/// Succeeds while an identifier is left. Fails with `Internal`, and changes
/// nothing, when the version identifiers are used up.
pub fn create_delete_marker(store: &mut VersionStore, bucket: &str, key: &str, now: u64) -> (r:
    Result<(), StoreError>)
    requires
        old(store).wf(),
    ensures
        final(store).wf(),
        forall|b: Seq<char>, k: Seq<char>|
            b != bucket@ || k != key@ ==> #[trigger] final(store).history(b, k) == old(
                store,
            ).history(b, k),
        forall|b: Seq<char>|
            final(store).has_bucket(b) == (old(store).has_bucket(b) || (r is Ok && b == bucket@)),
        r is Ok <==> !old(store).is_exhausted(),
        match r {
            Ok(()) => {
                &&& !old(store).is_exhausted()
                &&& final(store).next_id() == old(store).next_id() + 1
                &&& latest_of(final(store).history(bucket@, key@)) == Some(
                    delete_marker(hex(old(store).next_id()), bucket@, key@, now),
                )
                &&& final(store).history(bucket@, key@) == appended(
                    old(store).history(bucket@, key@),
                    delete_marker(hex(old(store).next_id()), bucket@, key@, now),
                )
            },
            Err(e) => {
                &&& e == StoreError::Internal
                &&& old(store).is_exhausted()
                &&& *final(store) == *old(store)
            },
        },
{
    let none = String::new();
    let empty = String::new();
    match store.append(bucket, key, none, 0, empty, true, now) {
        Ok(version) => {
            assert(version@ =~= delete_marker(hex(old(store).next_id()), bucket@, key@, now));
            Ok(())
        },
        Err(e) => Err(e),
    }
}

} // verus!
