//! A map from names to values, kept as a list in which no name occurs twice.
//!
//! Every store of this crate that is indexed by a name (a bucket, an object
//! key, an upload identifier, a user) is built on [`Table`]. Its contracts are
//! stated over a mathematical map from the characters of a name to a value.
//!
//! The table takes the place of a `HashMap` with `String` keys: Verus has no
//! model of how strings hash and compare as keys, nor of a lookup by `&str`,
//! so that nothing could be proved of such a map.

use vstd::prelude::*;

verus! {

/// One name together with its value.
struct Entry<V> {
    key: String,
    value: V,
}

/// A finite map keyed by strings.
pub struct Table<V> {
    entries: Vec<Entry<V>>,
}

impl<V> View for Table<V> {
    type V = Map<Seq<char>, V>;

    closed spec fn view(&self) -> Map<Seq<char>, V> {
        Map::new(
            |k: Seq<char>| self.names().contains(k),
            |k: Seq<char>| self.entries@[self.names().index_of(k)].value,
        )
    }
}

impl<V> Table<V> {
    /// The names held, in the order in which [`Table::key_at`] hands them out.
    pub closed spec fn names(&self) -> Seq<Seq<char>> {
        self.entries@.map_values(|e: Entry<V>| e.key@)
    }

    /// The values held, in the order of [`Table::names`].
    pub closed spec fn values(&self) -> Seq<V> {
        self.entries@.map_values(|e: Entry<V>| e.value)
    }

    #[verifier::type_invariant]
    spec fn no_name_twice(&self) -> bool {
        self.names().no_duplicates()
    }

    /// How the listing by position relates to the map: the names are exactly
    /// the domain, none occurs twice, and each position holds the value that
    /// the map gives its name.
    proof fn lemma_listing(&self)
        requires
            self.names().no_duplicates(),
        ensures
            self.names().len() == self.values().len(),
            self@.dom() =~= self.names().to_set(),
            self@.dom().finite(),
            self@.dom().len() == self.names().len(),
            forall|i: int|
                0 <= i < self.names().len() ==> #[trigger] self@.contains_key(self.names()[i])
                    && self@[self.names()[i]] == self.values()[i],
            forall|k: Seq<char>|
                self@.contains_key(k) ==> 0 <= self.names().index_of(k) < self.names().len()
                    && self.names()[self.names().index_of(k)] == k,
    {
        let names = self.names();
        names.unique_seq_to_set();
        assert(self@.dom() =~= names.to_set());
        assert forall|i: int| 0 <= i < names.len() implies #[trigger] self@.contains_key(names[i])
            && self@[names[i]] == self.values()[i] by {
            assert(names.contains(names[i]));
            let j = names.index_of(names[i]);
            assert(names[j] == names[i]);
            assert(j == i);
        }
    }

    /// A table that holds nothing.
    pub fn new() -> (t: Self)
        ensures
            t@ == Map::<Seq<char>, V>::empty(),
            t.names() == Seq::<Seq<char>>::empty(),
    {
        let t = Table { entries: Vec::new() };
        assert(t.names() =~= Seq::<Seq<char>>::empty());
        assert(t@ =~= Map::<Seq<char>, V>::empty());
        t
    }

    /// The number of names held.
    pub fn len(&self) -> (n: usize)
        ensures
            n == self.names().len(),
            n == self.values().len(),
            n == self@.dom().len(),
            self@.dom().finite(),
            self.names().no_duplicates(),
            self@.dom() == self.names().to_set(),
    {
        proof {
            use_type_invariant(self);
            self.lemma_listing();
        }
        self.entries.len()
    }

    /// The name at position `i` of the listing.
    pub fn key_at(&self, i: usize) -> (k: &String)
        requires
            i < self.names().len(),
        ensures
            k@ == self.names()[i as int],
            self@.contains_key(k@),
    {
        proof {
            use_type_invariant(self);
            self.lemma_listing();
            assert(self@.contains_key(self.names()[i as int]));
        }
        &self.entries[i].key
    }

    /// The value at position `i` of the listing.
    pub fn value_at(&self, i: usize) -> (v: &V)
        requires
            i < self.names().len(),
        ensures
            *v == self.values()[i as int],
            *v == self@[self.names()[i as int]],
    {
        proof {
            use_type_invariant(self);
            self.lemma_listing();
            assert(self@.contains_key(self.names()[i as int]));
        }
        &self.entries[i].value
    }

    /// The position of `key` in the listing, if the table holds it.
    fn position(&self, key: &str) -> (r: Option<usize>)
        ensures
            match r {
                Some(i) => i < self.names().len() && self.names()[i as int] == key@,
                None => !self.names().contains(key@),
            },
    {
        let needle: String = key.to_owned();
        let mut i: usize = 0;
        while i < self.entries.len()
            invariant
                i <= self.entries.len(),
                needle@ == key@,
                forall|j: int| 0 <= j < i ==> self.names()[j] != key@,
            decreases self.entries.len() - i,
        {
            if self.entries[i].key == needle {
                return Some(i);
            }
            i += 1;
        }
        None
    }

    /// Whether the table holds `key`.
    pub fn contains_key(&self, key: &str) -> (b: bool)
        ensures
            b == self@.contains_key(key@),
    {
        self.position(key).is_some()
    }

    /// The value held under `key`.
    pub fn get(&self, key: &str) -> (r: Option<&V>)
        ensures
            match r {
                Some(v) => self@.contains_key(key@) && *v == self@[key@],
                None => !self@.contains_key(key@),
            },
    {
        proof {
            use_type_invariant(self);
            self.lemma_listing();
        }
        match self.position(key) {
            Some(i) => Some(&self.entries[i].value),
            None => None,
        }
    }

    /// Puts `value` under `key` and hands back what was there before.
    pub fn insert(&mut self, key: String, value: V) -> (previous: Option<V>)
        ensures
            final(self)@ == old(self)@.insert(key@, value),
            match previous {
                Some(v) => old(self)@.contains_key(key@) && v == old(self)@[key@],
                None => !old(self)@.contains_key(key@),
            },
    {
        proof {
            use_type_invariant(&*self);
            self.lemma_listing();
        }
        let ghost before = *self;
        let found = self.position(key.as_str());
        let mut entries: Vec<Entry<V>> = Vec::new();
        core::mem::swap(&mut self.entries, &mut entries);
        match found {
            Some(i) => {
                let old_entry = entries.remove(i);
                entries.insert(i, Entry { key, value });
                assert(entries@.map_values(|e: Entry<V>| e.key@) =~= before.names());
                self.entries = entries;
                proof {
                    assert(self.names() =~= before.names());
                    assert(self@ =~= before@.insert(key@, value)) by {
                        assert forall|k: Seq<char>| self@.contains_key(k) implies self@[k]
                            == before@.insert(key@, value)[k] by {
                            let j = self.names().index_of(k);
                            assert(self.names()[j] == k);
                            if j != i as int {
                                assert(self.entries@[j] == before.entries@[j]);
                            }
                        }
                    }
                }
                Some(old_entry.value)
            },
            None => {
                entries.push(Entry { key, value });
                assert(entries@.map_values(|e: Entry<V>| e.key@) =~= before.names().push(key@));
                self.entries = entries;
                proof {
                    assert(self.names() =~= before.names().push(key@));
                    assert(self@ =~= before@.insert(key@, value)) by {
                        assert forall|k: Seq<char>| self@.contains_key(k) implies self@[k]
                            == before@.insert(key@, value)[k] by {
                            let j = self.names().index_of(k);
                            assert(self.names()[j] == k);
                            if k != key@ {
                                assert(j < before.names().len());
                                let j0 = before.names().index_of(k);
                                assert(before.names()[j] == k);
                                assert(before.names()[j0] == k);
                                assert(j0 == j);
                            }
                        }
                        assert forall|k: Seq<char>| before@.insert(key@, value).contains_key(k)
                            implies self@.contains_key(k) by {
                            if k != key@ {
                                let j0 = before.names().index_of(k);
                                assert(self.names()[j0] == k);
                            } else {
                                assert(self.names()[before.names().len() as int] == k);
                            }
                        }
                    }
                }
                None
            },
        }
    }

    /// Takes `key` out of the table and hands back its value.
    pub fn remove(&mut self, key: &str) -> (taken: Option<V>)
        ensures
            final(self)@ == old(self)@.remove(key@),
            taken is None ==> *final(self) == *old(self),
            match taken {
                Some(v) => old(self)@.contains_key(key@) && v == old(self)@[key@],
                None => !old(self)@.contains_key(key@),
            },
    {
        proof {
            use_type_invariant(&*self);
            self.lemma_listing();
        }
        let ghost before = *self;
        match self.position(key) {
            Some(i) => {
                let mut entries: Vec<Entry<V>> = Vec::new();
                core::mem::swap(&mut self.entries, &mut entries);
                let entry = entries.remove(i);
                assert(entries@.map_values(|e: Entry<V>| e.key@) =~= before.names().remove(
                    i as int,
                ));
                self.entries = entries;
                proof {
                    assert(self.names() =~= before.names().remove(i as int));
                    assert(self@ =~= before@.remove(key@)) by {
                        assert forall|k: Seq<char>| self@.contains_key(k) implies k != key@
                            && before@.contains_key(k) && self@[k] == before@[k] by {
                            let j = self.names().index_of(k);
                            assert(self.names()[j] == k);
                            let j1 = if j < i { j } else { j + 1 };
                            assert(before.names()[j1] == k);
                            let j0 = before.names().index_of(k);
                            assert(before.names()[j0] == k);
                            assert(j0 == j1);
                        }
                        assert forall|k: Seq<char>| before@.remove(key@).contains_key(k)
                            implies self@.contains_key(k) by {
                            let j0 = before.names().index_of(k);
                            assert(before.names()[j0] == k);
                            let j = if j0 < i { j0 } else { j0 - 1 };
                            assert(self.names()[j] == k);
                        }
                    }
                }
                Some(entry.value)
            },
            None => {
                assert(self@ =~= before@.remove(key@));
                None
            },
        }
    }
}

} // verus!
