//! Tables keyed by integers.

use vstd::prelude::*;

verus! {

/// A table with at most one value per key.
#[derive(Clone, Debug)]
pub struct Table<V> {
    /// Keys and values, in the order in which the keys were first stored.
    pub entries: Vec<(i64, V)>,
}

/// Whether entry `a` holds the value of `key`.
pub open spec fn holds<V>(entries: Seq<(i64, V)>, a: int, key: i64) -> bool {
    0 <= a < entries.len() && entries[a].0 == key
}

/// The value of `key` in a list of entries without repeated keys.
pub open spec fn lookup<V>(entries: Seq<(i64, V)>, key: i64) -> Option<V> {
    if exists|a: int| holds(entries, a, key) {
        Some(entries[choose|a: int| holds(entries, a, key)].1)
    } else {
        None
    }
}

impl<V: Copy> Table<V> {
    /// No key occurs twice.
    pub open spec fn wf(&self) -> bool {
        forall|a: int, b: int|
            0 <= a < b < self.entries@.len() ==> (#[trigger] self.entries@[a]).0 != (#[trigger] self.entries@[b]).0
    }

    /// The value of `key`.
    pub open spec fn find(&self, key: i64) -> Option<V> {
        lookup(self.entries@, key)
    }

    /// The table as a map.
    pub open spec fn map(&self) -> Map<i64, V> {
        Map::new(|key: i64| self.find(key) is Some, |key: i64| self.find(key)->0)
    }

    /// An empty table.
    pub fn new() -> (r: Table<V>)
        ensures
            r.wf(),
            r.entries@.len() == 0,
            forall|key: i64| #[trigger] r.find(key) is None,
            r.map() == Map::<i64, V>::empty(),
    {
        let r = Table { entries: Vec::new() };
        assert(r.map() =~= Map::<i64, V>::empty());
        r
    }

    /// What an entry says is what the table holds.
    pub proof fn lemma_find_at(&self, a: int)
        requires
            self.wf(),
            0 <= a < self.entries@.len(),
        ensures
            self.find(self.entries@[a].0) == Some(self.entries@[a].1),
    {
        let key = self.entries@[a].0;
        assert(holds(self.entries@, a, key));
        let b = choose|b: int| holds(self.entries@, b, key);
        if a < b {
            assert(self.entries@[a].0 != self.entries@[b].0);
        } else if b < a {
            assert(self.entries@[b].0 != self.entries@[a].0);
        }
    }

    fn position(&self, key: i64) -> (a: usize)
        requires
            self.wf(),
        ensures
            a <= self.entries@.len(),
            a < self.entries@.len() ==> self.entries@[a as int].0 == key,
            a == self.entries@.len() ==> forall|b: int| 0 <= b < a ==> (#[trigger] self.entries@[b]).0 != key,
    {
        let mut a: usize = 0;
        while a < self.entries.len()
            invariant
                a <= self.entries@.len(),
                forall|b: int| 0 <= b < a ==> (#[trigger] self.entries@[b]).0 != key,
            decreases self.entries@.len() - a,
        {
            if self.entries[a].0 == key {
                return a;
            }
            a = a + 1;
        }
        a
    }

    /// The value of `key`.
    pub fn get(&self, key: i64) -> (r: Option<V>)
        requires
            self.wf(),
        ensures
            r == self.find(key),
    {
        let a: usize = self.position(key);
        if a < self.entries.len() {
            proof {
                self.lemma_find_at(a as int);
            }
            Some(self.entries[a].1)
        } else {
            None
        }
    }

    /// Stores a value.
    pub fn put(&mut self, key: i64, v: V)
        requires
            old(self).wf(),
        ensures
            final(self).wf(),
            final(self).find(key) == Some(v),
            forall|other: i64| other != key ==> #[trigger] final(self).find(other) == old(self).find(other),
            final(self).map() == old(self).map().insert(key, v),
    {
        let ghost before = *self;
        let a: usize = self.position(key);
        if a < self.entries.len() {
            self.entries.set(a, (key, v));
        } else {
            self.entries.push((key, v));
        }
        proof {
            assert forall|i: int, j: int| 0 <= i < j < self.entries@.len() implies (#[trigger] self.entries@[i]).0
                != (#[trigger] self.entries@[j]).0 by {
                if j < before.entries@.len() {
                    assert(before.entries@[i].0 != before.entries@[j].0);
                } else {
                    assert(before.entries@[i].0 != key);
                }
            }
            self.lemma_find_at(a as int);
            assert forall|other: i64| other != key implies #[trigger] self.find(other) == before.find(other) by {
                if exists|b: int| holds(before.entries@, b, other) {
                    let b = choose|b: int| holds(before.entries@, b, other);
                    before.lemma_find_at(b);
                    assert(self.entries@[b] == before.entries@[b]);
                    self.lemma_find_at(b);
                } else if exists|b: int| holds(self.entries@, b, other) {
                    let b = choose|b: int| holds(self.entries@, b, other);
                    assert(b != a);
                    assert(holds(before.entries@, b, other));
                }
            }
            assert(self.map() =~= before.map().insert(key, v));
        }
    }

    /// A copy of the table.
    pub fn copy(&self) -> (r: Table<V>)
        requires
            self.wf(),
        ensures
            r.entries@ == self.entries@,
            r.wf(),
    {
        Table { entries: crate::streaming::columns::copy_columns(&self.entries) }
    }
}

} // verus!
