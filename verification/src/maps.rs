//! Small associative tables used by the workspace.
//!
//! Both tables remember the order in which keys were first inserted, so that
//! walking a table is deterministic and can be described in contracts.

use vstd::prelude::*;

verus! {

/// A table keyed by `i32` identifiers, walked in first-insertion order.
pub struct IdMap<V> {
    entries: Vec<(i32, V)>,
    contents: Ghost<Map<i32, V>>,
}

impl<V> IdMap<V> {
    /// The key/value pairs in walking order.
    pub closed spec fn entries(&self) -> Seq<(i32, V)> {
        self.entries@
    }

    /// The keys in walking order.
    pub open spec fn key_seq(&self) -> Seq<i32> {
        self.entries().map_values(|e: (i32, V)| e.0)
    }

    /// The table as a mathematical map.
    pub closed spec fn map(&self) -> Map<i32, V> {
        self.contents@
    }

    /// Well-formedness: the keys are distinct and the map agrees with the entries.
    pub closed spec fn wf(&self) -> bool {
        &&& forall|i: int, j: int|
            0 <= i < self.entries@.len() && 0 <= j < self.entries@.len() && i != j
                ==> #[trigger] self.entries@[i].0 != #[trigger] self.entries@[j].0
        &&& forall|i: int|
            0 <= i < self.entries@.len() ==> {
                &&& #[trigger] self.contents@.contains_key(self.entries@[i].0)
                &&& self.contents@[self.entries@[i].0] == self.entries@[i].1
            }
        &&& forall|k: i32|
            #[trigger] self.contents@.contains_key(k) ==> exists|i: int|
                0 <= i < self.entries@.len() && #[trigger] self.entries@[i].0 == k
    }

    /// Facts that follow from well-formedness.
    pub proof fn lemma_wf(&self)
        requires
            self.wf(),
        ensures
            self.key_seq().no_duplicates(),
            self.key_seq().len() == self.entries().len(),
            forall|i: int|
                0 <= i < self.entries().len() ==> {
                    &&& #[trigger] self.map().contains_key(self.entries()[i].0)
                    &&& self.map()[self.entries()[i].0] == self.entries()[i].1
                    &&& self.key_seq()[i] == self.entries()[i].0
                },
            forall|k: i32| #[trigger] self.map().contains_key(k) <==> self.key_seq().contains(k),
            self.map().dom().finite(),
            self.map().dom().len() == self.entries().len(),
    {
        let ks = self.key_seq();
        assert forall|k: i32| #[trigger] self.map().contains_key(k) <==> ks.contains(k) by {
            if self.map().contains_key(k) {
                let i = choose|i: int| 0 <= i < self.entries@.len() && #[trigger] self.entries@[i].0 == k;
                assert(ks[i] == k);
            }
            if ks.contains(k) {
                let i = choose|i: int| 0 <= i < ks.len() && ks[i] == k;
                assert(self.entries@[i].0 == k);
            }
        }
        assert(self.map().dom() =~= ks.to_set());
        ks.unique_seq_to_set();
    }

    /// An empty table.
    pub fn new() -> (r: Self)
        ensures
            r.wf(),
            r.map() == Map::<i32, V>::empty(),
            r.entries() == Seq::<(i32, V)>::empty(),
    {
        IdMap { entries: Vec::new(), contents: Ghost(Map::empty()) }
    }

    /// The number of keys.
    pub fn len(&self) -> (n: usize)
        ensures
            n == self.entries().len(),
    {
        self.entries.len()
    }

    /// The position of `k` in walking order, if present.
    fn find(&self, k: i32) -> (r: Option<usize>)
        requires
            self.wf(),
        ensures
            match r {
                Some(i) => i < self.entries().len() && self.entries()[i as int].0 == k,
                None => !self.map().contains_key(k),
            },
    {
        let mut i: usize = 0;
        while i < self.entries.len()
            invariant
                i <= self.entries@.len(),
                forall|j: int| 0 <= j < i ==> self.entries@[j].0 != k,
            decreases self.entries@.len() - i,
        {
            if self.entries[i].0 == k {
                return Some(i);
            }
            i = i + 1;
        }
        proof {
            if self.contents@.contains_key(k) {
                let j = choose|j: int| 0 <= j < self.entries@.len() && #[trigger] self.entries@[j].0 == k;
                assert(self.entries@[j].0 == k);
            }
        }
        None
    }

    /// Whether `k` is a key.
    pub fn contains_key(&self, k: i32) -> (b: bool)
        requires
            self.wf(),
        ensures
            b == self.map().contains_key(k),
    {
        match self.find(k) {
            Some(_) => true,
            None => false,
        }
    }

    /// The value stored under `k`, if any.
    pub fn get(&self, k: i32) -> (r: Option<&V>)
        requires
            self.wf(),
        ensures
            match r {
                Some(v) => self.map().contains_key(k) && *v == self.map()[k],
                None => !self.map().contains_key(k),
            },
    {
        match self.find(k) {
            Some(i) => {
                assert(self.contents@.contains_key(self.entries@[i as int].0));
                Some(&self.entries[i].1)
            },
            None => None,
        }
    }

    /// The key and value at position `i` of the walking order.
    pub fn entry_at(&self, i: usize) -> (r: (i32, &V))
        requires
            self.wf(),
            i < self.entries().len(),
        ensures
            r.0 == self.entries()[i as int].0,
            *r.1 == self.entries()[i as int].1,
            self.map().contains_key(r.0),
            self.map()[r.0] == *r.1,
    {
        (self.entries[i].0, &self.entries[i].1)
    }

    /// Stores `v` under `k`; a new key goes to the end of the walking order,
    /// an existing key keeps its place.
    pub fn insert(&mut self, k: i32, v: V)
        requires
            old(self).wf(),
        ensures
            final(self).wf(),
            final(self).map() == old(self).map().insert(k, v),
            old(self).map().contains_key(k) ==> final(self).key_seq() == old(self).key_seq(),
            !old(self).map().contains_key(k) ==> final(self).key_seq() == old(self).key_seq().push(k),
    {
        let ghost old_entries = self.entries@;
        match self.find(k) {
            Some(i) => {
                self.entries.set(i, (k, v));
                proof {
                    self.contents@ = self.contents@.insert(k, v);
                    assert forall|j: int|
                        0 <= j < self.entries@.len() implies #[trigger] self.entries@[j].0
                        == old_entries[j].0 by {}
                    assert(self.key_seq() =~= old_entries.map_values(|e: (i32, V)| e.0));
                    assert forall|k2: i32| #[trigger] self.contents@.contains_key(k2) implies exists|j: int|
                        0 <= j < self.entries@.len() && #[trigger] self.entries@[j].0 == k2 by {
                        if k2 != k {
                            let j = choose|j: int| 0 <= j < old_entries.len() && #[trigger] old_entries[j].0 == k2;
                            assert(self.entries@[j].0 == k2);
                        } else {
                            assert(self.entries@[i as int].0 == k2);
                        }
                    }
                }
            },
            None => {
                self.entries.push((k, v));
                proof {
                    self.contents@ = self.contents@.insert(k, v);
                    assert(self.key_seq() =~= old_entries.map_values(|e: (i32, V)| e.0).push(k));
                    assert forall|k2: i32| #[trigger] self.contents@.contains_key(k2) implies exists|j: int|
                        0 <= j < self.entries@.len() && #[trigger] self.entries@[j].0 == k2 by {
                        if k2 != k {
                            let j = choose|j: int| 0 <= j < old_entries.len() && #[trigger] old_entries[j].0 == k2;
                            assert(self.entries@[j].0 == k2);
                        } else {
                            assert(self.entries@[old_entries.len() as int].0 == k2);
                        }
                    }
                }
            },
        }
    }
}

/// A table keyed by strings, walked in first-insertion order.
pub struct StrMap {
    entries: Vec<(String, i32)>,
    contents: Ghost<Map<Seq<char>, i32>>,
}

impl StrMap {
    /// The key/value pairs in walking order, keys taken by their characters.
    pub closed spec fn entries(&self) -> Seq<(Seq<char>, i32)> {
        self.entries@.map_values(|e: (String, i32)| (e.0@, e.1))
    }

    /// The table as a mathematical map.
    pub closed spec fn map(&self) -> Map<Seq<char>, i32> {
        self.contents@
    }

    /// Well-formedness: the keys are distinct and the map agrees with the entries.
    pub closed spec fn wf(&self) -> bool {
        &&& forall|i: int, j: int|
            0 <= i < self.entries@.len() && 0 <= j < self.entries@.len() && i != j
                ==> #[trigger] self.entries@[i].0@ != #[trigger] self.entries@[j].0@
        &&& forall|i: int|
            0 <= i < self.entries@.len() ==> {
                &&& #[trigger] self.contents@.contains_key(self.entries@[i].0@)
                &&& self.contents@[self.entries@[i].0@] == self.entries@[i].1
            }
        &&& forall|k: Seq<char>|
            #[trigger] self.contents@.contains_key(k) ==> exists|i: int|
                0 <= i < self.entries@.len() && #[trigger] self.entries@[i].0@ == k
    }

    /// Facts that follow from well-formedness.
    pub proof fn lemma_wf(&self)
        requires
            self.wf(),
        ensures
            forall|i: int|
                0 <= i < self.entries().len() ==> {
                    &&& #[trigger] self.map().contains_key(self.entries()[i].0)
                    &&& self.map()[self.entries()[i].0] == self.entries()[i].1
                },
            forall|k: Seq<char>| #[trigger] self.map().contains_key(k) ==> exists|i: int|
                0 <= i < self.entries().len() && #[trigger] self.entries()[i].0 == k,
    {
        assert forall|k: Seq<char>| #[trigger] self.map().contains_key(k) implies exists|i: int|
            0 <= i < self.entries().len() && #[trigger] self.entries()[i].0 == k by {
            let i = choose|i: int| 0 <= i < self.entries@.len() && #[trigger] self.entries@[i].0@ == k;
            assert(self.entries()[i].0 == k);
        }
    }

    /// An empty table.
    pub fn new() -> (r: Self)
        ensures
            r.wf(),
            r.map() == Map::<Seq<char>, i32>::empty(),
            r.entries() == Seq::<(Seq<char>, i32)>::empty(),
    {
        let r = StrMap { entries: Vec::new(), contents: Ghost(Map::empty()) };
        assert(r.entries() =~= Seq::<(Seq<char>, i32)>::empty());
        r
    }

    /// The number of keys.
    pub fn len(&self) -> (n: usize)
        ensures
            n == self.entries().len(),
    {
        self.entries.len()
    }

    fn find(&self, k: &String) -> (r: Option<usize>)
        requires
            self.wf(),
        ensures
            match r {
                Some(i) => i < self.entries().len() && self.entries()[i as int].0 == k@,
                None => !self.map().contains_key(k@),
            },
    {
        let mut i: usize = 0;
        while i < self.entries.len()
            invariant
                i <= self.entries@.len(),
                forall|j: int| 0 <= j < i ==> self.entries@[j].0@ != k@,
            decreases self.entries@.len() - i,
        {
            if self.entries[i].0 == *k {
                return Some(i);
            }
            i = i + 1;
        }
        proof {
            if self.contents@.contains_key(k@) {
                let j = choose|j: int| 0 <= j < self.entries@.len() && #[trigger] self.entries@[j].0@ == k@;
                assert(self.entries@[j].0@ == k@);
            }
        }
        None
    }

    /// The value stored under `k`, if any.
    pub fn get(&self, k: &str) -> (r: Option<i32>)
        requires
            self.wf(),
        ensures
            match r {
                Some(v) => self.map().contains_key(k@) && v == self.map()[k@],
                None => !self.map().contains_key(k@),
            },
    {
        let key = k.to_string();
        match self.find(&key) {
            Some(i) => {
                assert(self.contents@.contains_key(self.entries@[i as int].0@));
                Some(self.entries[i].1)
            },
            None => None,
        }
    }

    /// Whether `k` is a key.
    pub fn contains_key(&self, k: &str) -> (b: bool)
        requires
            self.wf(),
        ensures
            b == self.map().contains_key(k@),
    {
        match self.get(k) {
            Some(_) => true,
            None => false,
        }
    }

    /// The key and value at position `i` of the walking order.
    pub fn entry_at(&self, i: usize) -> (r: (&String, i32))
        requires
            self.wf(),
            i < self.entries().len(),
        ensures
            r.0@ == self.entries()[i as int].0,
            r.1 == self.entries()[i as int].1,
            self.map().contains_key(r.0@),
            self.map()[r.0@] == r.1,
    {
        (&self.entries[i].0, self.entries[i].1)
    }

    /// Stores `v` under `k`; a new key goes to the end of the walking order.
    pub fn insert(&mut self, k: &str, v: i32)
        requires
            old(self).wf(),
        ensures
            final(self).wf(),
            final(self).map() == old(self).map().insert(k@, v),
            old(self).map().contains_key(k@) ==> final(self).entries().len() == old(self).entries().len(),
            !old(self).map().contains_key(k@) ==> final(self).entries() == old(self).entries().push((k@, v)),
    {
        let ghost old_entries = self.entries@;
        let key = k.to_string();
        match self.find(&key) {
            Some(i) => {
                self.entries.set(i, (key, v));
                proof {
                    self.contents@ = self.contents@.insert(k@, v);
                    assert forall|k2: Seq<char>| #[trigger] self.contents@.contains_key(k2) implies exists|j: int|
                        0 <= j < self.entries@.len() && #[trigger] self.entries@[j].0@ == k2 by {
                        if k2 != k@ {
                            let j = choose|j: int| 0 <= j < old_entries.len() && #[trigger] old_entries[j].0@ == k2;
                            assert(self.entries@[j].0@ == k2);
                        } else {
                            assert(self.entries@[i as int].0@ == k2);
                        }
                    }
                }
            },
            None => {
                self.entries.push((key, v));
                proof {
                    self.contents@ = self.contents@.insert(k@, v);
                    assert(self.entries() =~= old_entries.map_values(|e: (String, i32)| (e.0@, e.1)).push((k@, v)));
                    assert forall|k2: Seq<char>| #[trigger] self.contents@.contains_key(k2) implies exists|j: int|
                        0 <= j < self.entries@.len() && #[trigger] self.entries@[j].0@ == k2 by {
                        if k2 != k@ {
                            let j = choose|j: int| 0 <= j < old_entries.len() && #[trigger] old_entries[j].0@ == k2;
                            assert(self.entries@[j].0@ == k2);
                        } else {
                            assert(self.entries@[old_entries.len() as int].0@ == k2);
                        }
                    }
                }
            },
        }
    }
}

} // verus!
