//! A map from dotted paths to values, held as a list sorted by path.

use crate::entries::{
    entries_view, has_key, lemma_key_position, lemma_put, lemma_same_keys, lookup,
    position, put, same_keys, search, sorted, Entries,
};
use vstd::prelude::*;

verus! {

/// A map from dotted paths to values. Its entries stand in ascending
/// order of their paths, each path once.
#[derive(Debug)]
pub struct PathMap<V> {
    entries: Vec<(String, V)>,
}

impl<V: View> PathMap<V> {
    /// Path and content of each entry, in ascending order of the paths.
    pub closed spec fn content(&self) -> Entries<V::V> {
        self.entries@.map_values(|e: (String, V)| (e.0@, e.1@))
    }

    /// Validity: the paths are strictly ascending.
    pub open spec fn wf(&self) -> bool {
        sorted(self.content())
    }

    /// The content has the keys of the entries.
    proof fn lemma_keys(&self)
        ensures
            same_keys(self.content(), entries_view(self.entries@)),
            same_keys(entries_view(self.entries@), self.content()),
    {
    }

    /// The empty map.
    pub fn new() -> (m: Self)
        ensures
            m.wf(),
            m.content().len() == 0,
    {
        PathMap { entries: Vec::new() }
    }

    /// The number of entries.
    pub fn len(&self) -> (n: usize)
        ensures
            n == self.content().len(),
    {
        self.entries.len()
    }

    /// Whether the map holds no entry.
    pub fn is_empty(&self) -> (b: bool)
        ensures
            b == (self.content().len() == 0),
    {
        self.entries.len() == 0
    }

    /// The value under `path`, if any.
    pub fn get(&self, path: &str) -> (r: Option<&V>)
        requires
            self.wf(),
        ensures
            match r {
                Some(v) => lookup(self.content(), path@) == Some(v@),
                None => lookup(self.content(), path@) is None,
            },
    {
        proof {
            self.lemma_keys();
            lemma_same_keys(self.content(), entries_view(self.entries@), path@);
        }
        match position(&self.entries, path) {
            Some(i) => {
                proof {
                    lemma_key_position(self.content(), path@, i as int);
                }
                Some(&self.entries[i].1)
            },
            None => None,
        }
    }

    /// Whether something stands under `path`.
    pub fn contains_key(&self, path: &str) -> (b: bool)
        requires
            self.wf(),
        ensures
            b == has_key(self.content(), path@),
    {
        proof {
            self.lemma_keys();
            lemma_same_keys(self.content(), entries_view(self.entries@), path@);
        }
        position(&self.entries, path).is_some()
    }

    /// Puts `value` under `path`, in place of what stood there.
    pub fn insert(&mut self, path: String, value: V)
        requires
            old(self).wf(),
        ensures
            final(self).wf(),
            final(self).content() == put(old(self).content(), path@, value@),
    {
        let ghost before = self.content();
        proof {
            self.lemma_keys();
            lemma_same_keys(before, entries_view(self.entries@), path@);
            lemma_put(before, path@, value@);
        }
        match position(&self.entries, path.as_str()) {
            Some(i) => {
                self.entries.set(i, (path, value));
                assert(self.content() =~= put(before, path@, value@));
            },
            None => {
                let at = search(&self.entries, path.as_str());
                self.entries.insert(at, (path, value));
                assert(self.content() =~= put(before, path@, value@));
            },
        }
    }

    /// The entries, in ascending order of their paths.
    pub fn into_entries(self) -> (list: Vec<(String, V)>)
        ensures
            list@.map_values(|e: (String, V)| (e.0@, e.1@)) == self.content(),
    {
        self.entries
    }

    /// The path of the entry at position `i`.
    pub fn path_at(&self, i: usize) -> (r: &String)
        requires
            i < self.content().len(),
        ensures
            r@ == self.content()[i as int].0,
    {
        &self.entries[i].0
    }

    /// The value of the entry at position `i`.
    pub fn value_at(&self, i: usize) -> (r: &V)
        requires
            i < self.content().len(),
        ensures
            r@ == self.content()[i as int].1,
    {
        &self.entries[i].1
    }
}

} // verus!
