//! A lookup table over values that compare for equality.

use vstd::prelude::*;

use crate::primitives::Key;

verus! {

/// Whether no key occurs in two rows.
pub open spec fn distinct_keys<K, V>(rows: Seq<(K, V)>) -> bool {
    forall|i: int, j: int|
        #![trigger rows[i], rows[j]]
        0 <= i < j < rows.len() ==> rows[i].0 != rows[j].0
}

/// The map that a list of rows stands for.
pub open spec fn rows_map<K, V>(rows: Seq<(K, V)>) -> Map<K, V>
    decreases rows.len(),
{
    if rows.len() == 0 {
        Map::empty()
    } else {
        rows_map(rows.drop_last()).insert(rows.last().0, rows.last().1)
    }
}

/// A key is in the map of some rows exactly when one of the rows holds it, and then the map gives
/// that row's value.
pub proof fn lemma_rows_map<K, V>(rows: Seq<(K, V)>)
    requires
        distinct_keys(rows),
    ensures
        forall|i: int|
            0 <= i < rows.len() ==> #[trigger] rows_map(rows).contains_key(rows[i].0)
                && rows_map(rows)[rows[i].0] == rows[i].1,
        forall|k: K| #[trigger]
            rows_map(rows).contains_key(k) ==> exists|i: int|
                0 <= i < rows.len() && (#[trigger] rows[i]).0 == k,
        rows_map(rows).dom().finite(),
    decreases rows.len(),
{
    if rows.len() > 0 {
        let init = rows.drop_last();
        assert(distinct_keys(init)) by {
            assert forall|i: int, j: int|
                #![trigger init[i], init[j]]
                0 <= i < j < init.len() implies init[i].0 != init[j].0 by {
                assert(rows[i].0 != rows[j].0);
            }
        }
        lemma_rows_map(init);
        let n = rows.len() - 1;
        assert forall|i: int| 0 <= i < rows.len() implies #[trigger] rows_map(rows).contains_key(
            rows[i].0,
        ) && rows_map(rows)[rows[i].0] == rows[i].1 by {
            if i < n {
                assert(init[i] == rows[i]);
                assert(rows_map(init).contains_key(init[i].0));
                assert(rows[i].0 != rows[n].0);
            }
        }
        assert forall|k: K| #[trigger] rows_map(rows).contains_key(k) implies exists|i: int|
            0 <= i < rows.len() && (#[trigger] rows[i]).0 == k by {
            if k == rows[n].0 {
            } else {
                assert(rows_map(init).contains_key(k));
                let i = choose|i: int| 0 <= i < init.len() && (#[trigger] init[i]).0 == k;
                assert(rows[i].0 == k);
            }
        }
    }
}

impl<K: Key, V: Copy> Table<K, V> {
    /// A copy of the table.
    pub fn duplicate(&self) -> (r: Self)
        ensures
            r@ == self@,
            r.rows() == self.rows(),
    {
        proof {
            use_type_invariant(self);
        }
        let mut rows: Vec<(K, V)> = Vec::new();
        let mut i: usize = 0;
        while i < self.rows.len()
            invariant
                i <= self.rows@.len(),
                rows@ == self.rows@.take(i as int),
            decreases self.rows.len() - i,
        {
            rows.push(self.rows[i]);
            i += 1;
            assert(rows@ =~= self.rows@.take(i as int));
        }
        assert(rows@ =~= self.rows@);
        Table { rows }
    }
}

/// A map from keys to values, kept as a list of rows in insertion order.
pub struct Table<K: Key, V> {
    rows: Vec<(K, V)>,
}

impl<K: Key, V> View for Table<K, V> {
    type V = Map<K, V>;

    closed spec fn view(&self) -> Map<K, V> {
        rows_map(self.rows@)
    }
}

impl<K: Key, V> Table<K, V> {
    #[verifier::type_invariant]
    spec fn inv(self) -> bool {
        distinct_keys(self.rows@)
    }

    /// The rows in the order in which their keys were first inserted.
    pub closed spec fn rows(self) -> Seq<(K, V)> {
        self.rows@
    }

    /// An empty table.
    pub fn new() -> (r: Self)
        ensures
            r@ == Map::<K, V>::empty(),
            r.rows() == Seq::<(K, V)>::empty(),
    {
        Table { rows: Vec::new() }
    }

    /// The number of keys. No key is in two rows, and the map is the one that the rows stand for.
    pub fn len(&self) -> (r: usize)
        ensures
            r == self.rows().len(),
            distinct_keys(self.rows()),
            self@ == rows_map(self.rows()),
    {
        proof {
            use_type_invariant(self);
        }
        self.rows.len()
    }

    /// The row at a position.
    pub fn row(&self, index: usize) -> (r: &(K, V))
        requires
            index < self.rows().len(),
        ensures
            *r == self.rows()[index as int],
    {
        &self.rows[index]
    }

    /// The position of the row that holds a key.
    fn position(&self, key: &K) -> (r: Option<usize>)
        ensures
            match r {
                Some(i) => i < self.rows@.len() && self.rows@[i as int].0 == *key,
                None => forall|i: int| 0 <= i < self.rows@.len() ==> self.rows@[i].0 != *key,
            },
    {
        let mut i: usize = 0;
        while i < self.rows.len()
            invariant
                i <= self.rows@.len(),
                forall|j: int| 0 <= j < i ==> self.rows@[j].0 != *key,
            decreases self.rows.len() - i,
        {
            if self.rows[i].0.same(key) {
                return Some(i);
            }
            i += 1;
        }
        None
    }

    /// Whether a key is present.
    pub fn contains_key(&self, key: &K) -> (r: bool)
        ensures
            r == self@.contains_key(*key),
            self@.dom().finite(),
            distinct_keys(self.rows()),
            self@ == rows_map(self.rows()),
    {
        proof {
            use_type_invariant(self);
            lemma_rows_map(self.rows@);
        }
        match self.position(key) {
            Some(i) => {
                assert(self@.contains_key(self.rows@[i as int].0));
                true
            },
            None => false,
        }
    }

    /// The value of a key, if it is present.
    pub fn get(&self, key: &K) -> (r: Option<&V>)
        ensures
            match r {
                Some(v) => self@.contains_key(*key) && self@[*key] == *v,
                None => !self@.contains_key(*key),
            },
    {
        proof {
            use_type_invariant(self);
            lemma_rows_map(self.rows@);
        }
        match self.position(key) {
            Some(i) => {
                assert(self@.contains_key(self.rows@[i as int].0));
                Some(&self.rows[i].1)
            },
            None => None,
        }
    }

    /// Sets the value of a key, replacing the one it had.
    pub fn insert(&mut self, key: K, value: V)
        ensures
            final(self)@ == old(self)@.insert(key, value),
    {
        proof {
            use_type_invariant(&*self);
            lemma_rows_map(self.rows@);
        }
        let mut rows: Vec<(K, V)> = Vec::new();
        let position = self.position(&key);
        std::mem::swap(&mut rows, &mut self.rows);
        let ghost before = rows@;
        match position {
            Some(i) => {
                rows.set(i, (key, value));
                proof {
                    assert forall|a: int, b: int|
                        #![trigger rows@[a], rows@[b]]
                        0 <= a < b < rows@.len() implies rows@[a].0 != rows@[b].0 by {
                        assert(before[a].0 != before[b].0);
                    }
                    lemma_rows_map(rows@);
                    assert forall|k: K|
                        rows_map(rows@).contains_key(k) == rows_map(before).insert(
                            key,
                            value,
                        ).contains_key(k) by {
                        if rows_map(rows@).contains_key(k) {
                            let j = choose|j: int| 0 <= j < rows@.len() && (#[trigger] rows@[j]).0 == k;
                            assert(rows_map(before).contains_key(before[j].0));
                        }
                        if rows_map(before).contains_key(k) {
                            let j = choose|j: int| 0 <= j < before.len() && (#[trigger] before[j]).0 == k;
                            assert(rows_map(rows@).contains_key(rows@[j].0));
                        }
                        assert(rows_map(rows@).contains_key(rows@[i as int].0));
                    }
                    assert forall|k: K| #[trigger] rows_map(rows@).contains_key(k) implies rows_map(
                        rows@,
                    )[k] == rows_map(before).insert(key, value)[k] by {
                        let j = choose|j: int| 0 <= j < rows@.len() && (#[trigger] rows@[j]).0 == k;
                        assert(rows_map(rows@).contains_key(rows@[j].0));
                        assert(rows_map(before).contains_key(before[j].0));
                        if j != i {
                            assert(k != key);
                        }
                    }
                    assert(rows_map(rows@) =~= rows_map(before).insert(key, value));
                }
            },
            None => {
                rows.push((key, value));
                proof {
                    assert(rows@.drop_last() =~= before);
                }
            },
        }
        self.rows = rows;
    }

    /// Removes a key, if it is present. The other rows keep their order.
    pub fn remove(&mut self, key: &K)
        ensures
            final(self)@ == old(self)@.remove(*key),
    {
        proof {
            use_type_invariant(&*self);
            lemma_rows_map(self.rows@);
        }
        let position = self.position(key);
        let mut rows: Vec<(K, V)> = Vec::new();
        std::mem::swap(&mut rows, &mut self.rows);
        let ghost before = rows@;
        match position {
            Some(i) => {
                let _ = rows.remove(i);
                proof {
                    assert forall|a: int, b: int|
                        #![trigger rows@[a], rows@[b]]
                        0 <= a < b < rows@.len() implies rows@[a].0 != rows@[b].0 by {
                        let a0 = if a < i { a } else { a + 1 };
                        let b0 = if b < i { b } else { b + 1 };
                        assert(before[a0].0 != before[b0].0);
                    }
                    lemma_rows_map(rows@);
                    assert forall|k: K|
                        rows_map(rows@).contains_key(k) == rows_map(before).remove(
                            *key,
                        ).contains_key(k) by {
                        if rows_map(rows@).contains_key(k) {
                            let j = choose|j: int| 0 <= j < rows@.len() && (#[trigger] rows@[j]).0 == k;
                            let j0 = if j < i { j } else { j + 1 };
                            assert(before[j0] == rows@[j]);
                            assert(rows_map(before).contains_key(before[j0].0));
                            assert(before[j0].0 != before[i as int].0);
                        }
                        if rows_map(before).contains_key(k) && k != *key {
                            let j = choose|j: int| 0 <= j < before.len() && (#[trigger] before[j]).0 == k;
                            let j1 = if j < i { j } else { j - 1 };
                            assert(rows@[j1] == before[j]);
                            assert(rows_map(rows@).contains_key(rows@[j1].0));
                        }
                    }
                    assert forall|k: K| #[trigger] rows_map(rows@).contains_key(k) implies rows_map(
                        rows@,
                    )[k] == rows_map(before)[k] by {
                        let j = choose|j: int| 0 <= j < rows@.len() && (#[trigger] rows@[j]).0 == k;
                        let j0 = if j < i { j } else { j + 1 };
                        assert(rows_map(rows@).contains_key(rows@[j].0));
                        assert(before[j0] == rows@[j]);
                        assert(rows_map(before).contains_key(before[j0].0));
                    }
                    assert(rows_map(rows@) =~= rows_map(before).remove(*key));
                }
            },
            None => {
                proof {
                    if rows_map(before).contains_key(*key) {
                        let j = choose|j: int| 0 <= j < before.len() && (#[trigger] before[j]).0 == *key;
                        assert(before[j].0 != *key);
                    }
                    assert(rows_map(before) =~= rows_map(before).remove(*key));
                }
            },
        }
        self.rows = rows;
    }
}

} // verus!
