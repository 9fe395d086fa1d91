//! Lists of rows by key.

use std::collections::HashMap;

use vstd::hash_map::StringHashMap;
use vstd::prelude::*;
use vstd::string::*;

use crate::syntax;

verus! {

/// Lists of rows by number.
pub struct Postings {
    map: HashMap<u64, usize>,
    lists: Vec<Vec<usize>>,
}

impl Postings {
    /// Whether every key has a list of its own.
    pub closed spec fn is_wf(&self) -> bool {
        &&& forall|key: u64| #[trigger]
            self.map@.contains_key(key) ==> self.map@[key] < self.lists@.len()
        &&& forall|a: u64, b: u64| #[trigger]
            self.map@.contains_key(a) && #[trigger] self.map@.contains_key(b) && self.map@[a]
                == self.map@[b] ==> a == b
    }

    /// The rows behind a key.
    pub closed spec fn rows(&self, key: u64) -> Seq<int> {
        if self.map@.contains_key(key) {
            syntax::index_views(self.lists@[self.map@[key] as int]@)
        } else {
            Seq::empty()
        }
    }

    pub fn new() -> (postings: Self)
        ensures
            postings.is_wf(),
            forall|key: u64| #[trigger] postings.rows(key) == Seq::<int>::empty(),
    {
        broadcast use vstd::std_specs::hash::group_hash_axioms;

        Postings { map: HashMap::new(), lists: Vec::new() }
    }

    /// Adds a row behind a key.
    pub fn push(&mut self, key: u64, row: usize)
        requires
            old(self).is_wf(),
        ensures
            final(self).is_wf(),
            forall|other: u64| #[trigger]
                final(self).rows(other) == if other == key {
                    old(self).rows(other).push(row as int)
                } else {
                    old(self).rows(other)
                },
    {
        broadcast use vstd::std_specs::hash::group_hash_axioms;

        let ghost before = *self;
        let known: Option<usize> = match self.map.get(&key) {
            Some(at) => Some(*at),
            None => None,
        };
        match known {
            Some(at) => {
                self.lists[at].push(row);
                proof {
                    assert(syntax::index_views(self.lists@[at as int]@) =~= syntax::index_views(
                        before.lists@[at as int]@,
                    ).push(row as int));
                    assert forall|other: u64| #[trigger] self.rows(other) == if other == key {
                        before.rows(other).push(row as int)
                    } else {
                        before.rows(other)
                    } by {
                        if before.map@.contains_key(other) && other != key {
                            assert(before.map@[other] != at);
                        }
                    }
                }
            },
            None => {
                let at: usize = self.lists.len();
                let mut list: Vec<usize> = Vec::new();
                list.push(row);
                assert(syntax::index_views(list@) =~= Seq::<int>::empty().push(row as int));
                self.lists.push(list);
                self.map.insert(key, at);
                proof {
                    assert forall|other: u64| #[trigger] self.rows(other) == if other == key {
                        before.rows(other).push(row as int)
                    } else {
                        before.rows(other)
                    } by {
                        if before.map@.contains_key(other) && other != key {
                            assert(self.map@[other] == before.map@[other]);
                        }
                    }
                }
            },
        }
    }

    /// The rows behind a key.
    pub fn get(&self, key: u64) -> (rows: Option<&Vec<usize>>)
        requires
            self.is_wf(),
        ensures
            match rows {
                Some(rows) => syntax::index_views(rows@) == self.rows(key),
                None => self.rows(key) == Seq::<int>::empty(),
            },
    {
        broadcast use vstd::std_specs::hash::group_hash_axioms;

        match self.map.get(&key) {
            Some(at) => Some(&self.lists[*at]),
            None => None,
        }
    }
}

/// Lists of rows by text.
pub struct TextPostings {
    map: StringHashMap<usize>,
    lists: Vec<Vec<usize>>,
}

impl TextPostings {
    /// Whether every key has a list of its own.
    pub closed spec fn is_wf(&self) -> bool {
        &&& forall|key: Seq<char>| #[trigger]
            self.map@.contains_key(key) ==> self.map@[key] < self.lists@.len()
        &&& forall|a: Seq<char>, b: Seq<char>| #[trigger]
            self.map@.contains_key(a) && #[trigger] self.map@.contains_key(b) && self.map@[a]
                == self.map@[b] ==> a == b
    }

    /// The rows behind a key.
    pub closed spec fn rows(&self, key: Seq<char>) -> Seq<int> {
        if self.map@.contains_key(key) {
            syntax::index_views(self.lists@[self.map@[key] as int]@)
        } else {
            Seq::empty()
        }
    }

    pub fn new() -> (postings: Self)
        ensures
            postings.is_wf(),
            forall|key: Seq<char>| #[trigger] postings.rows(key) == Seq::<int>::empty(),
    {
        TextPostings { map: StringHashMap::new(), lists: Vec::new() }
    }

    /// Adds a row behind a key.
    pub fn push(&mut self, key: String, row: usize)
        requires
            old(self).is_wf(),
        ensures
            final(self).is_wf(),
            forall|other: Seq<char>| #[trigger]
                final(self).rows(other) == if other == key@ {
                    old(self).rows(other).push(row as int)
                } else {
                    old(self).rows(other)
                },
    {
        let ghost before = *self;
        let ghost text = key@;
        let known: Option<usize> = match self.map.get(key.as_str()) {
            Some(at) => Some(*at),
            None => None,
        };
        match known {
            Some(at) => {
                self.lists[at].push(row);
                proof {
                    assert(syntax::index_views(self.lists@[at as int]@) =~= syntax::index_views(
                        before.lists@[at as int]@,
                    ).push(row as int));
                    assert forall|other: Seq<char>| #[trigger] self.rows(other) == if other
                        == text {
                        before.rows(other).push(row as int)
                    } else {
                        before.rows(other)
                    } by {
                        if before.map@.contains_key(other) && other != text {
                            assert(before.map@[other] != at);
                        }
                    }
                }
            },
            None => {
                let at: usize = self.lists.len();
                let mut list: Vec<usize> = Vec::new();
                list.push(row);
                assert(syntax::index_views(list@) =~= Seq::<int>::empty().push(row as int));
                self.lists.push(list);
                self.map.insert(key, at);
                proof {
                    assert forall|other: Seq<char>| #[trigger] self.rows(other) == if other
                        == text {
                        before.rows(other).push(row as int)
                    } else {
                        before.rows(other)
                    } by {
                        if before.map@.contains_key(other) && other != text {
                            assert(self.map@[other] == before.map@[other]);
                        }
                    }
                }
            },
        }
    }

    /// The rows behind a key.
    pub fn get(&self, key: &str) -> (rows: Option<&Vec<usize>>)
        requires
            self.is_wf(),
        ensures
            match rows {
                Some(rows) => syntax::index_views(rows@) == self.rows(key@),
                None => self.rows(key@) == Seq::<int>::empty(),
            },
    {
        match self.map.get(key) {
            Some(at) => Some(&self.lists[*at]),
            None => None,
        }
    }
}

} // verus!
