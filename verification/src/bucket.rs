//! Bucket policies: one document per bucket, the last one written.
//!
//! The documents are kept and handed out as they are; nothing here reads
//! them or applies them to a request.

use crate::table::Table;
use vstd::prelude::*;

verus! {

/// The policy document of a bucket.
pub struct BucketPolicy {
    pub policy: String,
    pub acl: String,
}

/// What a [`BucketPolicy`] says, with its texts as sequences of characters.
pub struct PolicyView {
    pub policy: Seq<char>,
    pub acl: Seq<char>,
}

impl View for BucketPolicy {
    type V = PolicyView;

    open spec fn view(&self) -> PolicyView {
        PolicyView { policy: self.policy@, acl: self.acl@ }
    }
}

impl Clone for BucketPolicy {
    fn clone(&self) -> (copy: Self)
        ensures
            copy == *self,
    {
        BucketPolicy { policy: self.policy.clone(), acl: self.acl.clone() }
    }
}

/// The policies of `entries`, a list of buckets with their documents: where
/// a bucket occurs more than once, its last document counts.
pub open spec fn policies_of(entries: Seq<(String, BucketPolicy)>) -> Map<Seq<char>, PolicyView>
    decreases entries.len(),
{
    if entries.len() == 0 {
        Map::empty()
    } else {
        policies_of(entries.drop_last()).insert(entries.last().0@, entries.last().1@)
    }
}

/// The policy documents, by bucket.
pub struct PolicyStore {
    policies: Table<BucketPolicy>,
}

impl View for PolicyStore {
    type V = Map<Seq<char>, PolicyView>;

    closed spec fn view(&self) -> Map<Seq<char>, PolicyView> {
        self.policies@.map_values(|p: BucketPolicy| p@)
    }
}

impl PolicyStore {
    /// A store without policies: no bucket has one, and none is listed.
    pub fn new() -> (store: Self)
        ensures
            store@ == Map::<Seq<char>, PolicyView>::empty(),
            store.buckets() == Seq::<Seq<char>>::empty(),
    {
        let store = PolicyStore { policies: Table::new() };
        assert(store@ =~= Map::<Seq<char>, PolicyView>::empty());
        store
    }

    /// The store that holds the policies of `entries`.
    pub fn load_policies(entries: &Vec<(String, BucketPolicy)>) -> (store: Self)
        ensures
            store@ == policies_of(entries@),
    {
        let mut store = PolicyStore::new();
        let mut i: usize = 0;
        assert(entries@.take(0) =~= Seq::<(String, BucketPolicy)>::empty());
        while i < entries.len()
            invariant
                i <= entries.len(),
                store@ == policies_of(entries@.take(i as int)),
            decreases entries.len() - i,
        {
            let bucket = entries[i].0.clone();
            let policy = entries[i].1.clone();
            proof {
                let next = entries@.take(i as int + 1);
                assert(next.drop_last() =~= entries@.take(i as int));
                assert(next.last() == entries@[i as int]);
            }
            store.set_bucket_policy(bucket, policy);
            i += 1;
        }
        assert(entries@.take(i as int) =~= entries@);
        store
    }

    /// The number of buckets that have a policy.
    pub fn len(&self) -> (n: usize)
        ensures
            n == self@.dom().len(),
            n == self.buckets().len(),
            self@.dom().finite(),
            self.buckets().no_duplicates(),
            self@.dom() == self.buckets().to_set(),
    {
        assert(self@.dom() =~= self.policies@.dom());
        self.policies.len()
    }

    /// The buckets that have a policy, in the order in which
    /// [`PolicyStore::entry_at`] hands them out.
    pub closed spec fn buckets(&self) -> Seq<Seq<char>> {
        self.policies.names()
    }

    /// The bucket at position `i` of the listing, and its policy.
    pub fn entry_at(&self, i: usize) -> (entry: (&String, &BucketPolicy))
        requires
            i < self.buckets().len(),
        ensures
            entry.0@ == self.buckets()[i as int],
            self@.contains_key(entry.0@),
            entry.1@ == self@[entry.0@],
    {
        let bucket = self.policies.key_at(i);
        let policy = self.policies.value_at(i);
        (bucket, policy)
    }

    /// Sets the policy of `bucket`; a policy that was set before is replaced.
    pub fn set_bucket_policy(&mut self, bucket: String, policy: BucketPolicy)
        ensures
            final(self)@ == old(self)@.insert(bucket@, policy@),
    {
        let ghost before = *self;
        self.policies.insert(bucket, policy);
        assert(self@ =~= before@.insert(bucket@, policy@));
    }

    /// The policy of `bucket`, if one was set.
    pub fn get_bucket_policy(&self, bucket: &str) -> (r: Option<BucketPolicy>)
        ensures
            match r {
                Some(policy) => self@.contains_key(bucket@) && policy@ == self@[bucket@],
                None => !self@.contains_key(bucket@),
            },
    {
        match self.policies.get(bucket) {
            Some(policy) => Some(policy.clone()),
            None => None,
        }
    }
}

} // verus!
