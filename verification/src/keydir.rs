//! The in-memory index of a log-structured store: for each key, where its
//! latest record lies.

use vstd::prelude::*;

verus! {

/// Where a record lies: `size` bytes at `offset_position` of the data file
/// `file_id`, written at `timestamp`.
#[derive(Clone, Copy, Debug, PartialEq, Eq, Structural)]
pub struct Value {
    pub offset_position: u64,
    pub size: usize,
    pub file_id: u64,
    pub timestamp: u64,
}

impl Value {
    /// The byte offset of the record in its file.
    pub fn offset_position(&self) -> (r: u64)
        ensures
            r == self.offset_position,
    {
        self.offset_position
    }

    /// The record's length in bytes.
    pub fn size(&self) -> (r: usize)
        ensures
            r == self.size,
    {
        self.size
    }

    /// The data file that holds the record.
    pub fn file_id(&self) -> (r: u64)
        ensures
            r == self.file_id,
    {
        self.file_id
    }

    /// When the record was written.
    pub fn timestamp(&self) -> (r: u64)
        ensures
            r == self.timestamp,
    {
        self.timestamp
    }
}

/// A map from keys to record locations, kept as a list of distinct keys.
pub struct KeyDir {
    entries: Vec<(String, Value)>,
}

impl KeyDir {
    /// No key occurs twice.
    pub closed spec fn wf(&self) -> bool {
        forall|i: int, j: int|
            0 <= i < j < self.entries@.len() ==> self.entries@[i].0@ != self.entries@[j].0@
    }

    closed spec fn has_at(&self, k: Seq<char>, i: int) -> bool {
        0 <= i < self.entries@.len() && self.entries@[i].0@ == k
    }

    /// The keys and the locations of their records.
    pub closed spec fn view(&self) -> Map<Seq<char>, Value> {
        Map::new(
            |k: Seq<char>| exists|i: int| self.has_at(k, i),
            |k: Seq<char>| self.entries@[choose|i: int| self.has_at(k, i)].1,
        )
    }

    proof fn lemma_view_at(&self, i: int)
        requires
            self.wf(),
            0 <= i < self.entries@.len(),
        ensures
            self@.contains_key(self.entries@[i].0@),
            self@[self.entries@[i].0@] == self.entries@[i].1,
    {
        let k = self.entries@[i].0@;
        assert(self.has_at(k, i));
        let j = choose|j: int| self.has_at(k, j);
        assert(j == i);
    }

    /// An index with no keys.
    pub fn new() -> (d: KeyDir)
        ensures
            d.wf(),
            d@ == Map::<Seq<char>, Value>::empty(),
    {
        let d = KeyDir { entries: Vec::new() };
        assert(d@ =~= Map::<Seq<char>, Value>::empty());
        d
    }

    /// The position of `key` in the list, if it is there.
    fn find(&self, key: &str) -> (r: Option<usize>)
        requires
            self.wf(),
        ensures
            match r {
                Some(i) => self.has_at(key@, i as int),
                None => !self@.contains_key(key@),
            },
    {
        let wanted = key.to_owned();
        let mut i: usize = 0;
        while i < self.entries.len()
            invariant
                i <= self.entries@.len(),
                forall|j: int| 0 <= j < i ==> self.entries@[j].0@ != key@,
                wanted@ == key@,
            decreases self.entries@.len() - i,
        {
            if self.entries[i].0 == wanted {
                return Some(i);
            }
            i = i + 1;
        }
        None
    }

    /// The location of `key`'s record, if the key is there.
    pub fn get(&self, key: &str) -> (r: Option<Value>)
        requires
            self.wf(),
        ensures
            r == (if self@.contains_key(key@) {
                Some(self@[key@])
            } else {
                None::<Value>
            }),
    {
        match self.find(key) {
            Some(i) => {
                proof {
                    self.lemma_view_at(i as int);
                }
                Some(self.entries[i].1)
            },
            None => None,
        }
    }

    /// Points `key` at `value`, replacing what it pointed at before.
    pub fn insert(&mut self, key: &str, value: Value)
        requires
            old(self).wf(),
        ensures
            final(self).wf(),
            final(self)@ == old(self)@.insert(key@, value),
    {
        let ghost before = self@;
        let found = self.find(key);
        match found {
            Some(i) => {
                let name = key.to_owned();
                self.entries.set(i, (name, value));
            },
            None => {
                let name = key.to_owned();
                self.entries.push((name, value));
            },
        }
        proof {
            assert(self.wf()) by {
                assert forall|a: int, b: int|
                    0 <= a < b < self.entries@.len() implies self.entries@[a].0@
                    != self.entries@[b].0@ by {
                    if a < old(self).entries@.len() && b < old(self).entries@.len() {
                        match found {
                            Some(i) => {
                                assert(old(self).entries@[i as int].0@ == key@);
                            },
                            None => {},
                        }
                    } else {
                        assert(old(self).has_at(self.entries@[a].0@, a));
                    }
                }
            }
            assert forall|k: Seq<char>| #[trigger] self@.contains_key(k) == before.insert(
                key@,
                value,
            ).contains_key(k) by {
                if before.contains_key(k) {
                    let j = choose|j: int| old(self).has_at(k, j);
                    assert(self.has_at(k, j) || k == key@);
                }
                if self@.contains_key(k) && k != key@ {
                    let j = choose|j: int| self.has_at(k, j);
                    assert(old(self).has_at(k, j));
                }
                if k == key@ {
                    match found {
                        Some(i) => assert(self.has_at(k, i as int)),
                        None => assert(self.has_at(k, old(self).entries@.len() as int)),
                    }
                }
            }
            assert forall|k: Seq<char>| #[trigger] self@.contains_key(k) implies self@[k]
                == before.insert(key@, value)[k] by {
                let j = choose|j: int| self.has_at(k, j);
                self.lemma_view_at(j);
                if k != key@ {
                    assert(old(self).has_at(k, j));
                    old(self).lemma_view_at(j);
                } else {
                    match found {
                        Some(i) => self.lemma_view_at(i as int),
                        None => self.lemma_view_at(old(self).entries@.len() as int),
                    }
                }
            }
            assert(self@ =~= before.insert(key@, value));
        }
    }
}

} // verus!
