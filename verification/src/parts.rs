//! The parts of one multipart upload: a record for each part number.
//!
//! The records are kept in a `HashMap` by part number. Putting a part under a
//! number that is taken replaces the record that was there. An upload can be
//! completed when its part numbers are exactly 1, 2, ..., N.

use std::collections::HashMap;
use vstd::prelude::*;
use vstd::set_lib::{lemma_len_subset, lemma_subset_equality};
use vstd::std_specs::iter::IteratorSpec;

verus! {

/// What the upload keeps of one part.
pub struct PartRecord {
    /// The entity tag of the part's body.
    pub etag: String,
    /// The length of the part's body.
    pub size: u64,
    /// The reference of the part's body in the blob store.
    pub storage_ref: String,
}

/// What a [`PartRecord`] says, with its texts as sequences of characters.
pub struct PartView {
    pub etag: Seq<char>,
    pub size: u64,
    pub storage_ref: Seq<char>,
}

impl View for PartRecord {
    type V = PartView;

    open spec fn view(&self) -> PartView {
        PartView { etag: self.etag@, size: self.size, storage_ref: self.storage_ref@ }
    }
}

impl Clone for PartRecord {
    fn clone(&self) -> (copy: Self)
        ensures
            copy == *self,
    {
        PartRecord {
            etag: self.etag.clone(),
            size: self.size,
            storage_ref: self.storage_ref.clone(),
        }
    }
}

/// Whether the part numbers of `parts` are exactly 1, 2, ..., N for the
/// number N of parts: no gap, nothing beyond.
pub open spec fn contiguous<V>(parts: Map<u32, V>) -> bool {
    forall|n: u32| parts.contains_key(n) <==> 1 <= n <= parts.dom().len()
}

/// The part numbers 1, 2, ..., `count`.
pub open spec fn first_numbers(count: nat) -> Set<u32> {
    Set::new(|n: u32| 1 <= n <= count)
}

/// There are `count` part numbers from 1 to `count`.
pub proof fn lemma_first_numbers(count: nat)
    requires
        count <= u32::MAX,
    ensures
        first_numbers(count).finite(),
        first_numbers(count).len() == count,
    decreases count,
{
    if count == 0 {
        assert(first_numbers(0) =~= Set::<u32>::empty());
    } else {
        lemma_first_numbers((count - 1) as nat);
        assert(first_numbers(count) =~= first_numbers((count - 1) as nat).insert(count as u32));
    }
}

/// Whether `reference` is the reference of a part of `parts`.
pub open spec fn is_part_reference(parts: Map<u32, PartRecord>, reference: Seq<char>) -> bool {
    exists|n: u32| parts.contains_key(n) && (#[trigger] parts[n]).storage_ref@ == reference
}

/// Whether `reference` is among the texts of `list`.
pub open spec fn is_listed(list: Seq<String>, reference: Seq<char>) -> bool {
    exists|i: int| 0 <= i < list.len() && (#[trigger] list[i])@ == reference
}

/// Decides [`contiguous`].
pub fn is_contiguous(parts: &HashMap<u32, PartRecord>) -> (b: bool)
    ensures
        b == contiguous(parts@),
        b ==> parts@.dom().len() <= u32::MAX,
{
    let n = parts.len();
    if n > 0xffff_ffff {
        proof {
            if contiguous(parts@) {
                lemma_first_numbers(u32::MAX as nat);
                assert(parts@.dom().subset_of(first_numbers(u32::MAX as nat)));
                lemma_len_subset(parts@.dom(), first_numbers(u32::MAX as nat));
            }
        }
        return false;
    }
    let mut i: u32 = 0;
    while (i as usize) < n
        invariant
            i <= n,
            n <= u32::MAX,
            n == parts@.dom().len(),
            forall|k: u32| 1 <= k <= i ==> parts@.contains_key(k),
        decreases n - i,
    {
        i = i + 1;
        if !parts.contains_key(&i) {
            return false;
        }
    }
    proof {
        lemma_first_numbers(n as nat);
        assert(first_numbers(n as nat).subset_of(parts@.dom()));
        lemma_subset_equality(first_numbers(n as nat), parts@.dom());
        assert forall|k: u32| parts@.contains_key(k) <==> 1 <= k <= parts@.dom().len() by {
            assert(first_numbers(n as nat).contains(k) <==> parts@.dom().contains(k));
        }
    }
    true
}

/// The references of the bodies of all parts, each once for each part that
/// names it, in no order that can be told.
pub fn part_references(parts: &HashMap<u32, PartRecord>) -> (list: Vec<String>)
    ensures
        list.len() == parts@.dom().len(),
        forall|r: Seq<char>| is_part_reference(parts@, r) <==> is_listed(list@, r),
{
    let mut list: Vec<String> = Vec::new();
    for pair in it: parts.iter()
        invariant
            list.len() == it.index(),
            it.seq() == parts.iter().remaining(),
            forall|j: int|
                0 <= j < it.index() ==> (#[trigger] list[j])@ == (*it.seq()[j].1).storage_ref@,
    {
        list.push(pair.1.storage_ref.clone());
    }
    proof {
        let pairs = parts.iter().remaining();
        assert forall|r: Seq<char>| is_part_reference(parts@, r) implies is_listed(list@, r) by {
            let n = choose|n: u32|
                parts@.contains_key(n) && (#[trigger] parts@[n]).storage_ref@ == r;
            assert(pairs.contains((&n, &parts@[n])));
            let i = choose|i: int| 0 <= i < pairs.len() && pairs[i] == (&n, &parts@[n]);
            assert(list[i]@ == r);
        }
        assert forall|r: Seq<char>| is_listed(list@, r) implies is_part_reference(parts@, r) by {
            let i = choose|i: int| 0 <= i < list.len() && (#[trigger] list[i])@ == r;
            let n = *pairs[i].0;
            assert(parts@.contains_key(*pairs[i].0));
            assert(parts@[n].storage_ref@ == r);
        }
    }
    list
}

} // verus!
