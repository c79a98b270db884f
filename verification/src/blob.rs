//! The blob store: immutable bodies, each under a reference of its own.
//!
//! A reference is the entity tag of the body, numbered with a serial that
//! the store hands out once. Two writes therefore never share a reference,
//! whatever their bodies are, and a body is never changed after it was put.

use crate::digest::{content_etag, etag_of};
use crate::encoding::{lemma_number_of_numbered, number_of, number_text, numbered};
use crate::error::StoreError;
use crate::table::Table;
use vstd::prelude::*;

verus! {

/// The reference under which the store keeps the body `content` that was put
/// when the serial counter stood at `serial`: the entity tag of the body,
/// numbered with the serial.
pub open spec fn reference_for(content: Seq<u8>, serial: nat) -> Seq<char> {
    numbered(serial, etag_of(content))
}

/// What holds of the blob store while the serial counter stands at
/// `next_serial`: every reference is the one made from its body and a serial
/// that was handed out.
pub open spec fn valid_blobs(blobs: Map<Seq<char>, Seq<u8>>, next_serial: nat) -> bool {
    forall|r: Seq<char>| #[trigger]
        blobs.contains_key(r) ==> {
            &&& number_of(r) is Some
            &&& number_of(r)->0 < next_serial
            &&& r == reference_for(blobs[r], number_of(r)->0)
        }
}

/// The reference of a body that is put next is not in use.
pub proof fn lemma_next_reference_is_free(
    blobs: Map<Seq<char>, Seq<u8>>,
    next_serial: nat,
    content: Seq<u8>,
)
    requires
        valid_blobs(blobs, next_serial),
    ensures
        !blobs.contains_key(reference_for(content, next_serial)),
        number_of(reference_for(content, next_serial)) == Some(next_serial),
{
    lemma_number_of_numbered(next_serial, etag_of(content));
}

/// The store of bodies.
pub struct ObjectStore {
    blobs: Table<Vec<u8>>,
    next_serial: u64,
}

impl View for ObjectStore {
    type V = Map<Seq<char>, Seq<u8>>;

    /// The body held under each reference.
    closed spec fn view(&self) -> Map<Seq<char>, Seq<u8>> {
        self.blobs@.map_values(|body: Vec<u8>| body@)
    }
}

impl ObjectStore {
    /// The serial that the next write gets.
    pub closed spec fn next_serial(&self) -> nat {
        self.next_serial as nat
    }

    /// The references held are valid for the serial counter.
    pub open spec fn wf(&self) -> bool {
        valid_blobs(self@, self.next_serial())
    }

    /// No serial is left: the store accepts no further body.
    pub open spec fn is_full(&self) -> bool {
        self.next_serial() >= u64::MAX
    }

    /// A store that holds nothing.
    pub fn new() -> (store: Self)
        ensures
            store.wf(),
            store@ == Map::<Seq<char>, Seq<u8>>::empty(),
            store.next_serial() == 0,
    {
        let store = ObjectStore { blobs: Table::new(), next_serial: 0 };
        assert(store@ =~= Map::<Seq<char>, Seq<u8>>::empty());
        store
    }

    /// Whether the store accepts no further body.
    pub fn full(&self) -> (b: bool)
        ensures
            b == self.is_full(),
    {
        self.next_serial == u64::MAX
    }

    /// The number of bodies held.
    pub fn len(&self) -> (n: usize)
        ensures
            n == self@.dom().len(),
            self@.dom().finite(),
    {
        assert(self@.dom() =~= self.blobs@.dom());
        self.blobs.len()
    }

    /// Whether a body is held under `reference`.
    pub fn contains(&self, reference: &str) -> (b: bool)
        ensures
            b == self@.contains_key(reference@),
    {
        self.blobs.contains_key(reference)
    }

    /// The reference under which a body `content` is kept if it is put next.
    pub fn next_reference(&self, content: &[u8]) -> (reference: String)
        ensures
            reference@ == reference_for(content@, self.next_serial()),
    {
        let etag = content_etag(content);
        number_text(self.next_serial, etag.as_str())
    }

    /// Stores `content` under a reference that was never used before.
    ///
    /// Fails with `Internal`, and changes nothing, when the serials are used
    /// up.
    pub fn put(&mut self, content: Vec<u8>) -> (r: Result<String, StoreError>)
        requires
            old(self).wf(),
        ensures
            final(self).wf(),
            match r {
                Ok(reference) => {
                    &&& !old(self).is_full()
                    &&& reference@ == reference_for(content@, old(self).next_serial())
                    &&& !old(self)@.contains_key(reference@)
                    &&& final(self)@ == old(self)@.insert(reference@, content@)
                    &&& final(self).next_serial() == old(self).next_serial() + 1
                },
                Err(e) => {
                    &&& e == StoreError::Internal
                    &&& old(self).is_full()
                    &&& *final(self) == *old(self)
                },
            },
    {
        if self.next_serial == u64::MAX {
            return Err(StoreError::Internal);
        }
        let serial = self.next_serial;
        let reference = self.next_reference(content.as_slice());
        let ghost before = *self;
        proof {
            lemma_next_reference_is_free(before@, serial as nat, content@);
        }
        let key = reference.clone();
        self.blobs.insert(key, content);
        self.next_serial = serial + 1;
        proof {
            assert(self@ =~= before@.insert(reference@, content@));
            assert forall|r: Seq<char>| #[trigger] self@.contains_key(r) implies {
                &&& number_of(r) is Some
                &&& number_of(r)->0 < self.next_serial()
                &&& r == reference_for(self@[r], number_of(r)->0)
            } by {
                if r != reference@ {
                    assert(before@.contains_key(r));
                }
            }
        }
        Ok(reference)
    }

    /// The body held under `reference`; `NotFound` when there is none.
    pub fn get(&self, reference: &str) -> (r: Result<&Vec<u8>, StoreError>)
        ensures
            match r {
                Ok(content) => self@.contains_key(reference@) && content@ == self@[reference@],
                Err(e) => e == StoreError::NotFound && !self@.contains_key(reference@),
            },
    {
        match self.blobs.get(reference) {
            Some(body) => Ok(body),
            None => Err(StoreError::NotFound),
        }
    }

    /// Releases the body held under `reference`; `NotFound`, and no change,
    /// when there is none.
    pub fn delete(&mut self, reference: &str) -> (r: Result<(), StoreError>)
        requires
            old(self).wf(),
        ensures
            final(self).wf(),
            final(self).next_serial() == old(self).next_serial(),
            match r {
                Ok(()) => old(self)@.contains_key(reference@) && final(self)@ == old(self)@.remove(
                    reference@,
                ),
                Err(e) => e == StoreError::NotFound && !old(self)@.contains_key(reference@)
                    && *final(self) == *old(self),
            },
    {
        let ghost before = *self;
        match self.blobs.remove(reference) {
            Some(_) => {
                proof {
                    assert(self@ =~= before@.remove(reference@));
                    assert forall|r: Seq<char>| #[trigger] self@.contains_key(r) implies {
                        &&& number_of(r) is Some
                        &&& number_of(r)->0 < self.next_serial()
                        &&& r == reference_for(self@[r], number_of(r)->0)
                    } by {
                        assert(before@.contains_key(r));
                    }
                }
                Ok(())
            },
            None => Err(StoreError::NotFound),
        }
    }
}

} // verus!
