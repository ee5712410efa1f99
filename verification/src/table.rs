//! Rows in key order, at most one per key.

use vstd::prelude::*;

use crate::numbers;

verus! {

/// What a row is found by: the id of what it belongs to, and its number there.
pub type Key = (i64, u32);

pub open spec fn below(a: Key, b: Key) -> bool {
    a.0 < b.0 || (a.0 == b.0 && a.1 < b.1)
}

fn is_below(a: Key, b: Key) -> (r: bool)
    ensures
        r == below(a, b),
{
    a.0 < b.0 || (a.0 == b.0 && a.1 < b.1)
}

/// A map from keys to rows, kept in ascending key order.
pub struct Table<R> {
    rows: Vec<(Key, R)>,
}

pub open spec fn keys_ascend<R>(s: Seq<(Key, R)>) -> bool {
    forall|i: int, j: int| 0 <= i < j < s.len() ==> below(#[trigger] s[i].0, #[trigger] s[j].0)
}

pub open spec fn has_key<R>(s: Seq<(Key, R)>, k: Key) -> bool {
    exists|i: int| 0 <= i < s.len() && (#[trigger] s[i]).0 == k
}

pub open spec fn index_of_key<R>(s: Seq<(Key, R)>, k: Key) -> int {
    choose|i: int| 0 <= i < s.len() && (#[trigger] s[i]).0 == k
}

impl<R> View for Table<R> {
    type V = Map<Key, R>;

    open spec fn view(&self) -> Map<Key, R> {
        Map::new(
            |k: Key| has_key(self.entries(), k),
            |k: Key| self.entries()[index_of_key(self.entries(), k)].1,
        )
    }
}

impl<R> Table<R> {
    /// The rows with their keys, in order.
    pub closed spec fn entries(&self) -> Seq<(Key, R)> {
        self.rows@
    }

    pub open spec fn wf(&self) -> bool {
        keys_ascend(self.entries())
    }

    /// The map says what the rows say.
    pub proof fn lemma_entries(&self)
        requires
            self.wf(),
        ensures
            forall|i: int|
                0 <= i < self.entries().len() ==> self@.contains_key(
                    (#[trigger] self.entries()[i]).0,
                ) && self@[self.entries()[i].0] == self.entries()[i].1,
            forall|k: Key| #[trigger]
                self@.contains_key(k) ==> exists|i: int|
                    0 <= i < self.entries().len() && (#[trigger] self.entries()[i]).0 == k,
    {
        assert forall|i: int| 0 <= i < self.entries().len() implies self@.contains_key(
            (#[trigger] self.entries()[i]).0,
        ) && self@[self.entries()[i].0] == self.entries()[i].1 by {
            let k = self.entries()[i].0;
            assert(has_key(self.entries(), k));
            let j = index_of_key(self.entries(), k);
            assert(i == j) by {
                if i < j {
                    assert(below(self.entries()[i].0, self.entries()[j].0));
                } else if j < i {
                    assert(below(self.entries()[j].0, self.entries()[i].0));
                }
            }
        }
    }

    /// There are as many rows as keys.
    pub proof fn lemma_len(&self)
        requires
            self.wf(),
        ensures
            self@.dom().finite(),
            self@.dom().len() == self.entries().len(),
    {
        let e = self.entries();
        let keys = e.map_values(|p: (Key, R)| p.0);
        assert(keys.no_duplicates()) by {
            assert forall|i: int, j: int| 0 <= i < keys.len() && 0 <= j < keys.len() && i
                != j implies keys[i] != keys[j] by {
                assert(keys[i] == e[i].0 && keys[j] == e[j].0);
                if i < j {
                    assert(below(e[i].0, e[j].0));
                } else {
                    assert(below(e[j].0, e[i].0));
                }
            }
        }
        keys.unique_seq_to_set();
        assert(keys.to_set() =~= self@.dom()) by {
            assert forall|k: Key| keys.to_set().contains(k) == self@.dom().contains(k) by {
                if keys.contains(k) {
                    let i = choose|i: int| 0 <= i < keys.len() && keys[i] == k;
                    assert(e[i].0 == k);
                }
                if has_key(e, k) {
                    let i = index_of_key(e, k);
                    assert(keys[i] == k);
                }
            }
        }
    }

    pub fn new() -> (r: Table<R>)
        ensures
            r.wf(),
            r.entries() == Seq::<(Key, R)>::empty(),
            r@ == Map::<Key, R>::empty(),
    {
        let r = Table { rows: Vec::new() };
        assert(r@ =~= Map::<Key, R>::empty());
        r
    }

    pub fn len(&self) -> (r: usize)
        ensures
            r == self.entries().len(),
    {
        self.rows.len()
    }

    pub fn key_at(&self, i: usize) -> (r: Key)
        requires
            i < self.entries().len(),
        ensures
            r == self.entries()[i as int].0,
    {
        self.rows[i].0
    }

    pub fn row_at(&self, i: usize) -> (r: &R)
        requires
            i < self.entries().len(),
        ensures
            *r == self.entries()[i as int].1,
    {
        &self.rows[i].1
    }

    /// The first position whose key is not below `k`.
    fn lower_bound(&self, k: Key) -> (r: usize)
        requires
            self.wf(),
        ensures
            r <= self.entries().len(),
            forall|i: int| 0 <= i < r ==> below((#[trigger] self.entries()[i]).0, k),
            forall|i: int|
                r <= i < self.entries().len() ==> !below((#[trigger] self.entries()[i]).0, k),
    {
        let mut lo: usize = 0;
        let mut hi: usize = self.rows.len();
        while lo < hi
            invariant
                lo <= hi <= self.entries().len(),
                self.wf(),
                forall|i: int| 0 <= i < lo ==> below((#[trigger] self.entries()[i]).0, k),
                forall|i: int|
                    hi <= i < self.entries().len() ==> !below((#[trigger] self.entries()[i]).0, k),
            decreases hi - lo,
        {
            let mid: usize = lo + (hi - lo) / 2;
            if is_below(self.rows[mid].0, k) {
                assert forall|i: int| 0 <= i < mid + 1 implies below(
                    (#[trigger] self.entries()[i]).0,
                    k,
                ) by {
                    if i < mid {
                        assert(below(self.entries()[i].0, self.entries()[mid as int].0));
                    }
                }
                lo = mid + 1;
            } else {
                assert forall|i: int| mid <= i < self.entries().len() implies !below(
                    (#[trigger] self.entries()[i]).0,
                    k,
                ) by {
                    if mid < i {
                        assert(below(self.entries()[mid as int].0, self.entries()[i].0));
                    }
                }
                hi = mid;
            }
        }
        lo
    }

    /// Where the row of `k` stands, if there is one.
    pub fn find(&self, k: Key) -> (r: Option<usize>)
        requires
            self.wf(),
        ensures
            r is Some == self@.contains_key(k),
            r matches Some(i) ==> i < self.entries().len() && self.entries()[i as int].0 == k
                && self.entries()[i as int].1 == self@[k],
    {
        let i: usize = self.lower_bound(k);
        proof {
            self.lemma_entries();
        }
        if i < self.rows.len() && self.rows[i].0.0 == k.0 && self.rows[i].0.1 == k.1 {
            assert(self.entries()[i as int].0 == k);
            Some(i)
        } else {
            assert(!self@.contains_key(k)) by {
                if self@.contains_key(k) {
                    let j = index_of_key(self.entries(), k);
                    assert(self.entries()[j].0 == k);
                    if j < i {
                        assert(below(self.entries()[j].0, k));
                    } else if i < j {
                        assert(below(self.entries()[i as int].0, self.entries()[j].0));
                        assert(!below(self.entries()[i as int].0, k));
                    }
                }
            }
            None
        }
    }

    pub fn get(&self, k: Key) -> (r: Option<&R>)
        requires
            self.wf(),
        ensures
            r is Some == self@.contains_key(k),
            r matches Some(row) ==> *row == self@[k],
    {
        match self.find(k) {
            Some(i) => Some(&self.rows[i].1),
            None => None,
        }
    }

    pub fn contains(&self, k: Key) -> (r: bool)
        requires
            self.wf(),
        ensures
            r == self@.contains_key(k),
    {
        self.find(k).is_some()
    }

    /// Insert the row, in place of the one that has the key already.
    pub fn insert(&mut self, k: Key, row: R)
        requires
            old(self).wf(),
        ensures
            final(self).wf(),
            final(self)@ == old(self)@.insert(k, row),
    {
        let ghost before = *self;
        match self.find(k) {
            Some(i) => {
                self.rows.set(i, (k, row));
                proof {
                    assert(self.entries() == before.entries().update(i as int, (k, row)));
                    self.lemma_entries();
                    before.lemma_entries();
                    lemma_same_map(self.entries(), before.entries(), i as int, k, row);
                    assert(self@ =~= before@.insert(k, row));
                }
            },
            None => {
                let i: usize = self.lower_bound(k);
                proof {
                    before.lemma_entries();
                }
                self.rows.insert(i, (k, row));
                proof {
                    let s = before.entries();
                    let t = self.entries();
                    assert(t == s.insert(i as int, (k, row)));
                    assert forall|a: int, b: int| 0 <= a < b < t.len() implies below(
                        #[trigger] t[a].0,
                        #[trigger] t[b].0,
                    ) by {
                        if a < i && b == i {
                            assert(below(s[a].0, k));
                        } else if a == i && b > i {
                            assert(!below(s[b - 1].0, k));
                            assert(s[b - 1].0 != k) by {
                                if s[b - 1].0 == k {
                                    assert(before@.contains_key(k));
                                }
                            }
                        } else if a < i && b < i {
                            assert(below(s[a].0, s[b].0));
                        } else if a < i {
                            assert(below(s[a].0, s[b - 1].0));
                        } else {
                            assert(below(s[a - 1].0, s[b - 1].0));
                        }
                    }
                    self.lemma_entries();
                    assert forall|q: Key| self@.contains_key(q) == before@.insert(
                        k,
                        row,
                    ).contains_key(q) by {
                        if self@.contains_key(q) {
                            let a = index_of_key(t, q);
                            assert(t[a].0 == q);
                            if a < i {
                                assert(s[a].0 == q);
                            } else if a > i {
                                assert(s[a - 1].0 == q);
                            }
                        }
                        if before@.contains_key(q) {
                            let a = index_of_key(s, q);
                            assert(s[a].0 == q);
                            if a < i {
                                assert(t[a].0 == q);
                            } else {
                                assert(t[a + 1].0 == q);
                            }
                        }
                        assert(t[i as int].0 == k);
                    }
                    assert forall|q: Key| self@.contains_key(q) implies self@[q] == before@.insert(
                        k,
                        row,
                    )[q] by {
                        let a = index_of_key(t, q);
                        assert(t[a].0 == q);
                        if a < i {
                            assert(s[a].0 == q);
                        } else if a > i {
                            assert(s[a - 1].0 == q);
                        }
                    }
                    assert(self@ =~= before@.insert(k, row));
                }
            },
        }
    }

    /// Remove the row of `k`, if there is one, and hand it over.
    pub fn take(&mut self, k: Key) -> (r: Option<R>)
        requires
            old(self).wf(),
        ensures
            final(self).wf(),
            final(self)@ == old(self)@.remove(k),
            r is Some == old(self)@.contains_key(k),
            r matches Some(row) ==> row == old(self)@[k],
    {
        let ghost before = *self;
        match self.find(k) {
            Some(i) => {
                let gone = self.rows.remove(i);
                proof {
                    let s = before.entries();
                    let t = self.entries();
                    before.lemma_entries();
                    assert(t == s.remove(i as int));
                    assert forall|a: int, b: int| 0 <= a < b < t.len() implies below(
                        #[trigger] t[a].0,
                        #[trigger] t[b].0,
                    ) by {
                        let x = if a < i { a } else { a + 1 };
                        let y = if b < i { b } else { b + 1 };
                        assert(t[a] == s[x] && t[b] == s[y]);
                        assert(below(s[x].0, s[y].0));
                    }
                    self.lemma_entries();
                    assert forall|q: Key| self@.contains_key(q) == before@.remove(k).contains_key(
                        q,
                    ) by {
                        if self@.contains_key(q) {
                            let a = index_of_key(t, q);
                            assert(t[a].0 == q);
                            let x = if a < i { a } else { a + 1 };
                            assert(s[x].0 == q);
                            if q == k {
                                if x < i {
                                    assert(below(s[x].0, s[i as int].0));
                                } else {
                                    assert(below(s[i as int].0, s[x].0));
                                }
                            }
                        }
                        if before@.remove(k).contains_key(q) {
                            let x = index_of_key(s, q);
                            assert(s[x].0 == q);
                            let a = if x < i { x } else { x - 1 };
                            assert(t[a].0 == q);
                        }
                    }
                    assert forall|q: Key| self@.contains_key(q) implies self@[q] == before@[q] by {
                        let a = index_of_key(t, q);
                        assert(t[a].0 == q);
                        let x = if a < i { a } else { a + 1 };
                        assert(s[x].0 == q);
                    }
                    assert(self@ =~= before@.remove(k));
                }
                Some(gone.1)
            },
            None => {
                assert(self@ =~= before@.remove(k));
                None
            },
        }
    }

    /// The numbers under which rows of `owner` stand, in ascending order.
    pub fn numbers_of(&self, owner: i64) -> (r: Vec<u32>)
        requires
            self.wf(),
        ensures
            numbers::lists(r@, Set::new(|n: u32| self@.contains_key((owner, n)))),
    {
        proof {
            self.lemma_entries();
        }
        let ghost e = self.entries();
        let mut out: Vec<u32> = Vec::new();
        let mut i: usize = 0;
        while i < self.rows.len()
            invariant
                i <= e.len(),
                e == self.entries(),
                keys_ascend(e),
                numbers::ascending(out@),
                forall|n: u32| #[trigger]
                    out@.contains(n) <==> has_key(e.take(i as int), (owner, n)),
            decreases e.len() - i,
        {
            let k = self.rows[i].0;
            let ghost before = out@;
            if k.0 == owner {
                out.push(k.1);
            }
            proof {
                let a = e.take(i as int);
                let b = e.take(i + 1);
                assert(b[i as int].0 == k);
                assert forall|n: u32| #[trigger] out@.contains(n) <==> has_key(b, (owner, n)) by {
                    if has_key(a, (owner, n)) {
                        let j = index_of_key(a, (owner, n));
                        assert(b[j].0 == (owner, n));
                    }
                    if has_key(b, (owner, n)) {
                        let j = index_of_key(b, (owner, n));
                        if j < i {
                            assert(a[j].0 == (owner, n));
                        }
                    }
                    if before.contains(n) {
                        let x = choose|x: int| 0 <= x < before.len() && before[x] == n;
                        assert(out@[x] == n);
                    }
                    if out@.contains(n) && !before.contains(n) {
                        let x = choose|x: int| 0 <= x < out@.len() && out@[x] == n;
                        if x < before.len() {
                            assert(before[x] == n);
                        }
                    }
                    if k == (owner, n) {
                        assert(out@[out@.len() - 1] == n);
                    }
                }
                if k.0 == owner {
                    assert forall|x: int, y: int| 0 <= x < y < out@.len() implies #[trigger] out@[x]
                        < #[trigger] out@[y] by {
                        if y < before.len() {
                            assert(before[x] < before[y]);
                        } else {
                            assert(before.contains(before[x]));
                            let j = index_of_key(a, (owner, before[x]));
                            assert(a[j].0 == (owner, before[x]));
                            assert(below(e[j].0, e[i as int].0));
                        }
                    }
                }
            }
            i += 1;
        }
        proof {
            assert(e.take(e.len() as int) =~= e);
            assert forall|n: u32| #[trigger] out@.contains(n) <==> Set::new(
                |n: u32| self@.contains_key((owner, n)),
            ).contains(n) by {}
        }
        out
    }

    /// Remove the rows of all these keys.
    pub fn remove_all(&mut self, keys: &Vec<Key>)
        requires
            old(self).wf(),
        ensures
            final(self).wf(),
            final(self)@ == old(self)@.remove_keys(keys@.to_set()),
    {
        let ghost before = self@;
        let mut i: usize = 0;
        assert(before.remove_keys(keys@.take(0).to_set()) =~= before);
        while i < keys.len()
            invariant
                i <= keys.len(),
                self.wf(),
                self@ == before.remove_keys(keys@.take(i as int).to_set()),
            decreases keys.len() - i,
        {
            self.take(keys[i]);
            proof {
                let a = keys@.take(i as int);
                let b = keys@.take(i + 1);
                assert(b =~= a.push(keys@[i as int]));
                assert(b.to_set() =~= a.to_set().insert(keys@[i as int])) by {
                    assert forall|k: Key| b.to_set().contains(k) == a.to_set().insert(
                        keys@[i as int],
                    ).contains(k) by {
                        if a.contains(k) {
                            let j = choose|j: int| 0 <= j < a.len() && a[j] == k;
                            assert(b[j] == k);
                        }
                        if b.contains(k) {
                            let j = choose|j: int| 0 <= j < b.len() && b[j] == k;
                            if j < i {
                                assert(a[j] == k);
                            }
                        }
                        assert(b[i as int] == keys@[i as int]);
                    }
                }
                assert(self@ =~= before.remove_keys(b.to_set()));
            }
            i += 1;
        }
        assert(keys@.take(keys@.len() as int) =~= keys@);
    }
}

proof fn lemma_same_map<R>(t: Seq<(Key, R)>, s: Seq<(Key, R)>, i: int, k: Key, row: R)
    requires
        0 <= i < s.len(),
        s[i].0 == k,
        t == s.update(i, (k, row)),
        keys_ascend(s),
        keys_ascend(t),
    ensures
        forall|q: Key| #[trigger] has_key(t, q) == has_key(s, q),
        forall|q: Key| #[trigger] has_key(t, q) ==> index_of_key(t, q) == index_of_key(s, q),
        index_of_key(t, k) == i,
{
    assert forall|q: Key| #[trigger] has_key(t, q) == has_key(s, q) by {
        if has_key(t, q) {
            let a = index_of_key(t, q);
            assert(s[a].0 == q);
        }
        if has_key(s, q) {
            let a = index_of_key(s, q);
            assert(t[a].0 == q);
        }
    }
    assert forall|q: Key| #[trigger] has_key(t, q) implies index_of_key(t, q) == index_of_key(
        s,
        q,
    ) by {
        let a = index_of_key(t, q);
        let b = index_of_key(s, q);
        assert(has_key(s, q));
        assert(t[a].0 == q && s[b].0 == q);
        assert(s[a].0 == q);
        if a < b {
            assert(below(s[a].0, s[b].0));
        } else if b < a {
            assert(below(s[b].0, s[a].0));
        }
    }
    assert(t[i].0 == k);
    assert(has_key(t, k));
    let a = index_of_key(t, k);
    assert(t[a].0 == k);
    if a < i {
        assert(below(t[a].0, t[i].0));
    } else if i < a {
        assert(below(t[i].0, t[a].0));
    }
}

} // verus!
