//! Ordered table with byte-string keys.

use vstd::prelude::*;

use crate::bytes::{bytes_eq, bytes_lt, lex_lt};

verus! {

/// Rows in ascending key order, each key at most once.
pub struct Table<V> {
    /// Keys with their values.
    pub rows: Vec<(Vec<u8>, V)>,
}

impl<V> Table<V> {
    /// Keys ascend strictly.
    pub open spec fn wf(self) -> bool {
        forall|i: int, j: int|
            0 <= i < j < self.rows@.len() ==> lex_lt((#[trigger] self.rows@[i]).0@, (#[trigger] self.rows@[j]).0@)
    }

    /// Row `i` holds `key`.
    pub open spec fn holds(self, key: Seq<u8>, i: int) -> bool {
        0 <= i < self.rows@.len() && self.rows@[i].0@ == key
    }

    /// The contents as a map.
    pub open spec fn contents(self) -> Map<Seq<u8>, V> {
        Map::new(
            |key: Seq<u8>| exists|i: int| self.holds(key, i),
            |key: Seq<u8>| self.rows@[choose|i: int| self.holds(key, i)].1,
        )
    }

    /// The keys in the order in which the table is walked.
    pub open spec fn keys(self) -> Seq<Seq<u8>> {
        self.rows@.map_values(|row: (Vec<u8>, V)| row.0@)
    }
}

impl<V> View for Table<V> {
    type V = Map<Seq<u8>, V>;

    open spec fn view(&self) -> Map<Seq<u8>, V> {
        self.contents()
    }
}

impl<V> Table<V> {
    /// Each row is an entry of the map, and each entry is a row.
    pub proof fn rows_are_entries(self)
        requires
            self.wf(),
        ensures
            forall|i: int|
                0 <= i < self.rows@.len() ==> self@.contains_key((#[trigger] self.rows@[i]).0@)
                    && self@[self.rows@[i].0@] == self.rows@[i].1,
            forall|key: Seq<u8>| #[trigger]
                self@.contains_key(key) ==> exists|i: int|
                    self.holds(key, i) && self@[key] == self.rows@[i].1,
    {
        assert forall|i: int| 0 <= i < self.rows@.len() implies self@.contains_key(
            (#[trigger] self.rows@[i]).0@,
        ) && self@[self.rows@[i].0@] == self.rows@[i].1 by {
            let key = self.rows@[i].0@;
            assert(self.holds(key, i));
            let j = choose|j: int| self.holds(key, j);
            self.same_row(i, j);
        }
        assert forall|key: Seq<u8>| #[trigger] self@.contains_key(key) implies exists|i: int|
            self.holds(key, i) && self@[key] == self.rows@[i].1 by {
            let i = choose|i: int| self.holds(key, i);
            assert(self.holds(key, i) && self@[key] == self.rows@[i].1);
        }
    }

    /// A table has finitely many entries.
    pub proof fn finite_contents(self)
        ensures
            self@.dom().finite(),
    {
        let keys = self.keys().to_set();
        assert(self@.dom().subset_of(keys)) by {
            assert forall|key: Seq<u8>| self@.dom().contains(key) implies keys.contains(key) by {
                let i = choose|i: int| self.holds(key, i);
                assert(self.keys()[i] == key);
            }
        }
        vstd::seq_lib::seq_to_set_is_finite(self.keys());
        vstd::set_lib::lemma_set_subset_finite(keys, self@.dom());
    }

    /// Two rows with one key are one row.
    proof fn same_row(self, i: int, j: int)
        requires
            self.wf(),
            0 <= i < self.rows@.len(),
            0 <= j < self.rows@.len(),
            self.rows@[i].0@ == self.rows@[j].0@,
        ensures
            i == j,
    {
        crate::bytes::lex_irreflexive(self.rows@[i].0@);
        if i < j {
            assert(lex_lt(self.rows@[i].0@, self.rows@[j].0@));
        } else if j < i {
            assert(lex_lt(self.rows@[j].0@, self.rows@[i].0@));
        }
    }

    /// An empty table.
    pub fn new() -> (table: Table<V>)
        ensures
            table.wf(),
            table@ == Map::<Seq<u8>, V>::empty(),
    {
        let table = Table { rows: Vec::new() };
        assert(table@ =~= Map::<Seq<u8>, V>::empty());
        table
    }

    /// Number of rows.
    pub fn len(&self) -> (n: usize)
        ensures
            n == self.rows@.len(),
    {
        self.rows.len()
    }

    /// Position of the first row whose key is not less than `key`.
    pub fn lower_bound(&self, key: &[u8]) -> (at: usize)
        requires
            self.wf(),
        ensures
            at <= self.rows@.len(),
            forall|i: int| 0 <= i < at ==> lex_lt((#[trigger] self.rows@[i]).0@, key@),
            forall|i: int| at <= i < self.rows@.len() ==> !lex_lt((#[trigger] self.rows@[i]).0@, key@),
    {
        let mut lo: usize = 0;
        let mut hi: usize = self.rows.len();
        while lo < hi
            invariant
                self.wf(),
                lo <= hi <= self.rows@.len(),
                forall|i: int| 0 <= i < lo ==> lex_lt((#[trigger] self.rows@[i]).0@, key@),
                forall|i: int|
                    hi <= i < self.rows@.len() ==> !lex_lt((#[trigger] self.rows@[i]).0@, key@),
            decreases hi - lo,
        {
            let mid: usize = lo + (hi - lo) / 2;
            if bytes_lt(self.rows[mid].0.as_slice(), key) {
                proof {
                    assert forall|i: int| 0 <= i <= mid implies lex_lt(
                        (#[trigger] self.rows@[i]).0@,
                        key@,
                    ) by {
                        if i < mid {
                            crate::bytes::lex_transitive(
                                self.rows@[i].0@,
                                self.rows@[mid as int].0@,
                                key@,
                            );
                        }
                    }
                }
                lo = mid + 1;
            } else {
                proof {
                    assert forall|i: int| mid <= i < self.rows@.len() implies !lex_lt(
                        (#[trigger] self.rows@[i]).0@,
                        key@,
                    ) by {
                        if mid < i && lex_lt(self.rows@[i].0@, key@) {
                            crate::bytes::lex_transitive(
                                self.rows@[mid as int].0@,
                                self.rows@[i].0@,
                                key@,
                            );
                        }
                    }
                }
                hi = mid;
            }
        }
        lo
    }

    /// Position of the row with `key`.
    pub fn find(&self, key: &[u8]) -> (at: Option<usize>)
        requires
            self.wf(),
        ensures
            at matches Some(i) ==> self.holds(key@, i as int) && self@.contains_key(key@)
                && self@[key@] == self.rows@[i as int].1,
            at is None ==> !self@.contains_key(key@),
    {
        proof {
            self.rows_are_entries();
        }
        let at: usize = self.lower_bound(key);
        if at < self.rows.len() && bytes_eq(self.rows[at].0.as_slice(), key) {
            Some(at)
        } else {
            proof {
                if self@.contains_key(key@) {
                    let i = choose|i: int| self.holds(key@, i) && self@[key@] == self.rows@[i].1;
                    crate::bytes::lex_irreflexive(key@);
                    if at < i {
                        assert(lex_lt(self.rows@[at as int].0@, self.rows@[i].0@));
                    }
                }
            }
            None
        }
    }

    /// The value stored under `key`.
    pub fn get(&self, key: &[u8]) -> (value: Option<&V>)
        requires
            self.wf(),
        ensures
            value is Some <==> self@.contains_key(key@),
            value matches Some(v) ==> *v == self@[key@],
    {
        match self.find(key) {
            Some(i) => Some(&self.rows[i].1),
            None => None,
        }
    }

    /// Stores `value` under `key` and returns the value that it replaces.
    pub fn insert(&mut self, key: Vec<u8>, value: V) -> (replaced: Option<V>)
        requires
            old(self).wf(),
        ensures
            final(self).wf(),
            final(self)@ == old(self)@.insert(key@, value),
            replaced is Some <==> old(self)@.contains_key(key@),
            replaced matches Some(v) ==> v == old(self)@[key@],
    {
        let ghost before = *self;
        let ghost k = key@;
        proof {
            before.rows_are_entries();
        }
        match self.find(key.as_slice()) {
            Some(i) => {
                let (_, replaced) = self.rows.remove(i);
                self.rows.insert(i, (key, value));
                proof {
                    assert(self.rows@ =~= before.rows@.update(i as int, (key, value)));
                    assert(self.wf()) by {
                        assert forall|a: int, b: int| 0 <= a < b < self.rows@.len() implies lex_lt(
                            (#[trigger] self.rows@[a]).0@,
                            (#[trigger] self.rows@[b]).0@,
                        ) by {
                            assert(lex_lt(before.rows@[a].0@, before.rows@[b].0@));
                        }
                    }
                    self.rows_are_entries();
                    assert forall|x: Seq<u8>| self@.contains_key(x) <==> before@.insert(
                        k,
                        value,
                    ).contains_key(x) by {
                        if self@.contains_key(x) {
                            let a = choose|a: int| self.holds(x, a) && self@[x] == self.rows@[a].1;
                            assert(before.holds(x, a));
                        }
                        if before@.contains_key(x) {
                            let a = choose|a: int|
                                before.holds(x, a) && before@[x] == before.rows@[a].1;
                            assert(self.holds(x, a));
                        }
                        if x == k {
                            assert(self.holds(x, i as int));
                        }
                    }
                    assert forall|x: Seq<u8>| self@.contains_key(x) implies #[trigger] self@[x]
                        == before@.insert(k, value)[x] by {
                        let a = choose|a: int| self.holds(x, a) && self@[x] == self.rows@[a].1;
                        if x == k {
                            self.same_row(a, i as int);
                        } else {
                            assert(before.rows@[a].0@ == x);
                        }
                    }
                    assert(self@ =~= before@.insert(k, value));
                }
                Some(replaced)
            },
            None => {
                let at: usize = self.lower_bound(key.as_slice());
                self.rows.insert(at, (key, value));
                proof {
                    assert(self.rows@ =~= before.rows@.insert(at as int, (key, value)));
                    assert forall|i: int| at <= i < before.rows@.len() implies lex_lt(
                        k,
                        (#[trigger] before.rows@[i]).0@,
                    ) by {
                        crate::bytes::lex_total(k, before.rows@[i].0@);
                        if before.rows@[i].0@ == k {
                            assert(before.holds(k, i));
                        }
                    }
                    assert(self.wf()) by {
                        assert forall|a: int, b: int| 0 <= a < b < self.rows@.len() implies lex_lt(
                            (#[trigger] self.rows@[a]).0@,
                            (#[trigger] self.rows@[b]).0@,
                        ) by {
                            let x = if a < at { a } else { a - 1 };
                            let y = if b < at { b } else { b - 1 };
                            if a != at {
                                assert(self.rows@[a] == before.rows@[x]);
                            }
                            if b != at {
                                assert(self.rows@[b] == before.rows@[y]);
                            }
                            if a != at && b != at {
                                assert(lex_lt(before.rows@[x].0@, before.rows@[y].0@));
                            }
                        }
                    }
                    self.rows_are_entries();
                    assert forall|x: Seq<u8>| self@.contains_key(x) <==> before@.insert(
                        k,
                        value,
                    ).contains_key(x) by {
                        if self@.contains_key(x) && x != k {
                            let a = choose|a: int| self.holds(x, a) && self@[x] == self.rows@[a].1;
                            assert(before.holds(x, if a < at { a } else { a - 1 }));
                        }
                        if before@.contains_key(x) {
                            let a = choose|a: int|
                                before.holds(x, a) && before@[x] == before.rows@[a].1;
                            assert(self.holds(x, if a < at { a } else { a + 1 }));
                        }
                        if x == k {
                            assert(self.holds(x, at as int));
                        }
                    }
                    assert forall|x: Seq<u8>| self@.contains_key(x) implies #[trigger] self@[x]
                        == before@.insert(k, value)[x] by {
                        let a = choose|a: int| self.holds(x, a) && self@[x] == self.rows@[a].1;
                        if x == k {
                            self.same_row(a, at as int);
                        } else {
                            assert(before.rows@[if a < at { a } else { a - 1 }].0@ == x);
                        }
                    }
                    assert(self@ =~= before@.insert(k, value));
                }
                None
            },
        }
    }

    /// Removes the row with `key` and returns its value.
    pub fn remove(&mut self, key: &[u8]) -> (removed: Option<V>)
        requires
            old(self).wf(),
        ensures
            final(self).wf(),
            final(self)@ == old(self)@.remove(key@),
            removed is Some <==> old(self)@.contains_key(key@),
            removed matches Some(v) ==> v == old(self)@[key@],
    {
        let ghost before = *self;
        let ghost k = key@;
        proof {
            before.rows_are_entries();
        }
        match self.find(key) {
            Some(i) => {
                let (_, value) = self.rows.remove(i);
                proof {
                    assert(self.rows@ =~= before.rows@.remove(i as int));
                    assert(self.wf()) by {
                        assert forall|a: int, b: int| 0 <= a < b < self.rows@.len() implies lex_lt(
                            (#[trigger] self.rows@[a]).0@,
                            (#[trigger] self.rows@[b]).0@,
                        ) by {
                            let x = if a < i { a } else { a + 1 };
                            let y = if b < i { b } else { b + 1 };
                            assert(self.rows@[a] == before.rows@[x]);
                            assert(self.rows@[b] == before.rows@[y]);
                            assert(lex_lt(before.rows@[x].0@, before.rows@[y].0@));
                        }
                    }
                    self.rows_are_entries();
                    assert forall|x: Seq<u8>| self@.contains_key(x) <==> before@.remove(
                        k,
                    ).contains_key(x) by {
                        if self@.contains_key(x) {
                            let a = choose|a: int| self.holds(x, a) && self@[x] == self.rows@[a].1;
                            let b = if a < i { a } else { a + 1 };
                            assert(before.holds(x, b));
                            if x == k {
                                before.same_row(b, i as int);
                            }
                        }
                        if before@.contains_key(x) && x != k {
                            let a = choose|a: int|
                                before.holds(x, a) && before@[x] == before.rows@[a].1;
                            assert(self.holds(x, if a < i { a } else { a - 1 }));
                        }
                    }
                    assert forall|x: Seq<u8>| self@.contains_key(x) implies #[trigger] self@[x]
                        == before@.remove(k)[x] by {
                        let a = choose|a: int| self.holds(x, a) && self@[x] == self.rows@[a].1;
                        assert(before.rows@[if a < i { a } else { a + 1 }].0@ == x);
                    }
                    assert(self@ =~= before@.remove(k));
                }
                Some(value)
            },
            None => {
                assert(self@ =~= before@.remove(k));
                None
            },
        }
    }
}

impl<V: Copy> Table<V> {
    /// A table with the same rows.
    pub fn copy(&self) -> (table: Table<V>)
        requires
            self.wf(),
        ensures
            table.wf(),
            table@ == self@,
            table.keys() == self.keys(),
    {
        let mut rows: Vec<(Vec<u8>, V)> = Vec::new();
        let mut i: usize = 0;
        while i < self.rows.len()
            invariant
                i <= self.rows.len(),
                rows@.len() == i,
                forall|j: int|
                    0 <= j < i ==> (#[trigger] rows@[j]).0@ == self.rows@[j].0@ && rows@[j].1
                        == self.rows@[j].1,
            decreases self.rows.len() - i,
        {
            let key = self.rows[i].0.clone();
            assert(key@ =~= self.rows@[i as int].0@);
            rows.push((key, self.rows[i].1));
            i += 1;
        }
        let table = Table { rows };
        proof {
            assert forall|a: int, b: int| 0 <= a < b < table.rows@.len() implies lex_lt(
                (#[trigger] table.rows@[a]).0@,
                (#[trigger] table.rows@[b]).0@,
            ) by {
                assert(lex_lt(self.rows@[a].0@, self.rows@[b].0@));
            }
            table.same_contents(*self);
            assert(table.keys() =~= self.keys());
        }
        table
    }

    /// Tables with equal rows have equal contents.
    proof fn same_contents(self, other: Table<V>)
        requires
            self.wf(),
            other.wf(),
            self.rows@.len() == other.rows@.len(),
            forall|j: int|
                0 <= j < self.rows@.len() ==> (#[trigger] self.rows@[j]).0@ == other.rows@[j].0@
                    && self.rows@[j].1 == other.rows@[j].1,
        ensures
            self@ == other@,
    {
        self.rows_are_entries();
        other.rows_are_entries();
        assert forall|x: Seq<u8>| self@.contains_key(x) <==> other@.contains_key(x) by {
            if self@.contains_key(x) {
                let a = choose|a: int| self.holds(x, a) && self@[x] == self.rows@[a].1;
                assert(other.holds(x, a));
            }
            if other@.contains_key(x) {
                let a = choose|a: int| other.holds(x, a) && other@[x] == other.rows@[a].1;
                assert(self.rows@[a].0@ == x);
                assert(self.holds(x, a));
            }
        }
        assert forall|x: Seq<u8>| self@.contains_key(x) implies #[trigger] self@[x] == other@[x] by {
            let a = choose|a: int| self.holds(x, a) && self@[x] == self.rows@[a].1;
            assert(other.rows@[a].0@ == x);
        }
        assert(self@ =~= other@);
    }
}

} // verus!
