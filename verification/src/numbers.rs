//! Sets of chapter numbers.

use std::collections::BTreeSet;
use vstd::prelude::*;

verus! {

pub fn no_numbers() -> (r: BTreeSet<u32>)
    ensures
        r@ == Set::<u32>::empty(),
{
    BTreeSet::new()
}

pub fn insert_number(set: &mut BTreeSet<u32>, n: u32)
    ensures
        final(set)@ == old(set)@.insert(n),
{
    broadcast use {vstd::std_specs::btree::group_btree_axioms, vstd::laws_cmp::group_laws_cmp};

    set.insert(n);
}

pub fn is_empty_set(set: &BTreeSet<u32>) -> (r: bool)
    ensures
        r == (set@ == Set::<u32>::empty()),
{
    broadcast use {vstd::std_specs::btree::group_btree_axioms, vstd::laws_cmp::group_laws_cmp};

    set.is_empty()
}

/// Strictly ascending.
pub open spec fn ascending(s: Seq<u32>) -> bool {
    forall|i: int, j: int| 0 <= i < j < s.len() ==> #[trigger] s[i] < #[trigger] s[j]
}

/// Whether `s` lists the members of `set` in ascending order.
pub open spec fn lists(s: Seq<u32>, set: Set<u32>) -> bool {
    ascending(s) && forall|n: u32| #[trigger] s.contains(n) <==> set.contains(n)
}

/// The members of `set` in ascending order.
pub open spec fn listing(set: Set<u32>) -> Seq<u32> {
    choose|s: Seq<u32>| lists(s, set)
}

/// Only one sequence lists a set.
pub proof fn lemma_listing(s: Seq<u32>, set: Set<u32>)
    requires
        lists(s, set),
    ensures
        listing(set) == s,
{
    let t = listing(set);
    assert(lists(t, set));
    lemma_lists_same(s, t, set);
}

proof fn lemma_lists_same(s: Seq<u32>, t: Seq<u32>, set: Set<u32>)
    requires
        lists(s, set),
        lists(t, set),
    ensures
        s == t,
    decreases s.len() + t.len(),
{
    if s.len() == 0 {
        if t.len() > 0 {
            assert(t.contains(t[0]));
            assert(s.contains(t[0]));
        }
        assert(s =~= t);
    } else if t.len() == 0 {
        assert(s.contains(s[0]));
        assert(t.contains(s[0]));
    } else {
        assert(s.contains(s.last()));
        assert(t.contains(t.last()));
        assert(t.contains(s.last()));
        assert(s.contains(t.last()));
        let i = choose|i: int| 0 <= i < t.len() && t[i] == s.last();
        let j = choose|j: int| 0 <= j < s.len() && s[j] == t.last();
        assert(s.last() == t.last()) by {
            if i < t.len() - 1 {
                assert(t[i] < t[t.len() - 1]);
            }
            if j < s.len() - 1 {
                assert(s[j] < s[s.len() - 1]);
            }
        }
        let rest = set.remove(s.last());
        let a = s.drop_last();
        let b = t.drop_last();
        assert forall|n: u32| #[trigger] a.contains(n) <==> rest.contains(n) by {
            if a.contains(n) {
                let k = choose|k: int| 0 <= k < a.len() && a[k] == n;
                assert(s[k] == n);
                assert(s.contains(n));
                assert(s[k] < s[s.len() - 1]);
            }
            if rest.contains(n) {
                assert(s.contains(n));
                let k = choose|k: int| 0 <= k < s.len() && s[k] == n;
                assert(a[k] == n);
            }
        }
        assert forall|n: u32| #[trigger] b.contains(n) <==> rest.contains(n) by {
            if b.contains(n) {
                let k = choose|k: int| 0 <= k < b.len() && b[k] == n;
                assert(t[k] == n);
                assert(t.contains(n));
                assert(t[k] < t[t.len() - 1]);
            }
            if rest.contains(n) {
                assert(t.contains(n));
                let k = choose|k: int| 0 <= k < t.len() && t[k] == n;
                assert(b[k] == n);
            }
        }
        assert(ascending(a)) by {
            assert forall|x: int, y: int| 0 <= x < y < a.len() implies #[trigger] a[x]
                < #[trigger] a[y] by {
                assert(s[x] < s[y]);
            }
        }
        assert(ascending(b)) by {
            assert forall|x: int, y: int| 0 <= x < y < b.len() implies #[trigger] b[x]
                < #[trigger] b[y] by {
                assert(t[x] < t[y]);
            }
        }
        lemma_lists_same(a, b, rest);
        assert(s =~= a.push(s.last()));
        assert(t =~= b.push(t.last()));
    }
}

/// The members of `set` below `bound`, ascending.
spec fn list_below(set: Set<u32>, bound: int) -> Seq<u32>
    decreases bound,
{
    if bound <= 0 {
        seq![]
    } else {
        let before = list_below(set, bound - 1);
        if set.contains((bound - 1) as u32) {
            before.push((bound - 1) as u32)
        } else {
            before
        }
    }
}

proof fn lemma_list_below(set: Set<u32>, bound: int)
    requires
        0 <= bound <= 0x1_0000_0000,
    ensures
        ascending(list_below(set, bound)),
        forall|n: u32| #[trigger] list_below(set, bound).contains(n) <==> (set.contains(n) && n
            < bound),
    decreases bound,
{
    if bound > 0 {
        lemma_list_below(set, bound - 1);
        let before = list_below(set, bound - 1);
        let s = list_below(set, bound);
        let top = (bound - 1) as u32;
        assert forall|n: u32| #[trigger] s.contains(n) <==> (set.contains(n) && n < bound) by {
            assert(before.contains(n) <==> (set.contains(n) && n < bound - 1));
            if set.contains(top) {
                if s.contains(n) && n != top {
                    let k = choose|k: int| 0 <= k < s.len() && s[k] == n;
                    assert(before[k] == n);
                }
                if before.contains(n) {
                    let k = choose|k: int| 0 <= k < before.len() && before[k] == n;
                    assert(s[k] == n);
                }
                assert(s[s.len() - 1] == top);
            }
        }
        assert forall|a: int, b: int| 0 <= a < b < s.len() implies #[trigger] s[a]
            < #[trigger] s[b] by {
            if b < before.len() {
                assert(before[a] < before[b]);
            } else {
                assert(before.contains(before[a]));
            }
        }
    }
}

/// Every set of numbers has its list.
pub proof fn lemma_listing_lists(set: Set<u32>)
    ensures
        lists(listing(set), set),
{
    lemma_list_below(set, 0x1_0000_0000);
    assert(lists(list_below(set, 0x1_0000_0000), set));
}

/// An ascending list is as long as the set it lists.
pub proof fn lemma_list_len(s: Seq<u32>, set: Set<u32>)
    requires
        lists(s, set),
    ensures
        set.finite(),
        set.len() == s.len(),
        s.len() <= 0x1_0000_0000,
{
    assert(s.no_duplicates()) by {
        assert forall|i: int, j: int| 0 <= i < s.len() && 0 <= j < s.len() && i != j implies s[i]
            != s[j] by {
            if i < j {
                assert(s[i] < s[j]);
            } else {
                assert(s[j] < s[i]);
            }
        }
    }
    s.unique_seq_to_set();
    assert(s.to_set() =~= set);
    if s.len() > 0 {
        lemma_ascending_grows(s, s.len() - 1);
    }
}

proof fn lemma_ascending_grows(s: Seq<u32>, i: int)
    requires
        ascending(s),
        0 <= i < s.len(),
    ensures
        s[i] >= i,
    decreases i,
{
    if i > 0 {
        lemma_ascending_grows(s, i - 1);
        assert(s[i - 1] < s[i]);
    }
}

/// Insert into an ascending list, once.
pub fn insert_sorted(v: &mut Vec<u32>, n: u32)
    requires
        ascending(old(v)@),
    ensures
        ascending(final(v)@),
        forall|k: u32| #[trigger] final(v)@.contains(k) <==> (old(v)@.contains(k) || k == n),
{
    let ghost before = v@;
    let mut i: usize = 0;
    while i < v.len() && v[i] < n
        invariant
            i <= v.len(),
            v@ == before,
            forall|j: int| 0 <= j < i ==> #[trigger] before[j] < n,
        decreases v.len() - i,
    {
        i += 1;
    }
    if i < v.len() && v[i] == n {
        assert(before.contains(n));
        return;
    }
    v.insert(i, n);
    proof {
        let t = v@;
        assert(t == before.insert(i as int, n));
        assert forall|a: int, b: int| 0 <= a < b < t.len() implies #[trigger] t[a]
            < #[trigger] t[b] by {
            let x = if a < i { a } else { a - 1 };
            let y = if b < i { b } else { b - 1 };
            if a == i {
                assert(t[b] == before[b - 1]);
                if b - 1 > i {
                    assert(before[i as int] < before[b - 1]);
                }
            } else if b == i {
                assert(t[a] == before[a]);
            } else {
                assert(t[a] == before[x] && t[b] == before[y]);
                assert(before[x] < before[y]);
            }
        }
        assert forall|k: u32| #[trigger] t.contains(k) <==> (before.contains(k) || k == n) by {
            if t.contains(k) {
                let a = choose|a: int| 0 <= a < t.len() && t[a] == k;
                if a < i {
                    assert(before[a] == k);
                } else if a > i {
                    assert(before[a - 1] == k);
                }
            }
            if before.contains(k) {
                let a = choose|a: int| 0 <= a < before.len() && before[a] == k;
                if a < i {
                    assert(t[a] == k);
                } else {
                    assert(t[a + 1] == k);
                }
            }
            assert(t[i as int] == n);
        }
    }
}

/// Take out of an ascending list.
pub fn remove_sorted(v: &mut Vec<u32>, n: u32)
    requires
        ascending(old(v)@),
    ensures
        ascending(final(v)@),
        forall|k: u32| #[trigger] final(v)@.contains(k) <==> (old(v)@.contains(k) && k != n),
{
    let ghost before = v@;
    let mut i: usize = 0;
    while i < v.len() && v[i] != n
        invariant
            i <= v.len(),
            v@ == before,
            forall|j: int| 0 <= j < i ==> #[trigger] before[j] != n,
        decreases v.len() - i,
    {
        i += 1;
    }
    if i < v.len() {
        v.remove(i);
        proof {
            let t = v@;
            assert(t == before.remove(i as int));
            assert forall|a: int, b: int| 0 <= a < b < t.len() implies #[trigger] t[a]
                < #[trigger] t[b] by {
                let x = if a < i { a } else { a + 1 };
                let y = if b < i { b } else { b + 1 };
                assert(t[a] == before[x] && t[b] == before[y]);
                assert(before[x] < before[y]);
            }
            assert forall|k: u32| #[trigger] t.contains(k) <==> (before.contains(k) && k != n) by {
                if t.contains(k) {
                    let a = choose|a: int| 0 <= a < t.len() && t[a] == k;
                    let x = if a < i { a } else { a + 1 };
                    assert(before[x] == k);
                    if a < i {
                        assert(before[a] < before[i as int]);
                    } else {
                        assert(before[i as int] < before[x]);
                    }
                }
                if before.contains(k) && k != n {
                    let a = choose|a: int| 0 <= a < before.len() && before[a] == k;
                    if a < i {
                        assert(t[a] == k);
                    } else {
                        assert(t[a - 1] == k);
                    }
                }
            }
        }
    }
}

/// An ascending list without the members of another list.
pub fn without(v: &[u32], drop: &[u32]) -> (r: Vec<u32>)
    requires
        ascending(v@),
    ensures
        ascending(r@),
        forall|n: u32| #[trigger] r@.contains(n) <==> (v@.contains(n) && !drop@.contains(n)),
{
    let mut out: Vec<u32> = Vec::new();
    let mut i: usize = 0;
    while i < v.len()
        invariant
            i <= v@.len(),
            ascending(v@),
            ascending(out@),
            forall|n: u32| #[trigger]
                out@.contains(n) <==> (v@.take(i as int).contains(n) && !drop@.contains(n)),
        decreases v@.len() - i,
    {
        let n: u32 = v[i];
        let ghost before = out@;
        let kept = !in_list(drop, n);
        if kept {
            out.push(n);
        }
        proof {
            let t = v@.take(i as int);
            let u = v@.take(i + 1);
            assert forall|m: u32| #[trigger] u.contains(m) <==> (t.contains(m) || m == n) by {
                if u.contains(m) {
                    let k = choose|k: int| 0 <= k < u.len() && u[k] == m;
                    if k < i {
                        assert(t[k] == m);
                    }
                }
                if t.contains(m) {
                    let k = choose|k: int| 0 <= k < t.len() && t[k] == m;
                    assert(u[k] == m);
                }
                assert(u[i as int] == n);
            }
            assert forall|m: u32| #[trigger] out@.contains(m) <==> (u.contains(m)
                && !drop@.contains(m)) by {
                assert(before.contains(m) <==> (t.contains(m) && !drop@.contains(m)));
                assert(u.contains(m) <==> (t.contains(m) || m == n));
                if kept {
                    if out@.contains(m) {
                        let k = choose|k: int| 0 <= k < out@.len() && out@[k] == m;
                        if k < before.len() {
                            assert(before[k] == m);
                        }
                    }
                    if before.contains(m) {
                        let k = choose|k: int| 0 <= k < before.len() && before[k] == m;
                        assert(out@[k] == m);
                    }
                    assert(out@[out@.len() - 1] == n);
                }
            }
            if kept {
                assert forall|a: int, b: int| 0 <= a < b < out@.len() implies #[trigger] out@[a]
                    < #[trigger] out@[b] by {
                    if b < before.len() {
                        assert(before[a] < before[b]);
                    } else {
                        assert(before.contains(before[a]));
                        assert(t.contains(before[a]));
                        let k = choose|k: int| 0 <= k < t.len() && t[k] == before[a];
                        assert(v@[k] < v@[i as int]);
                    }
                }
            }
        }
        i += 1;
    }
    assert(v@.take(v@.len() as int) =~= v@);
    out
}

/// Whether an ascending list holds `n`.
pub fn in_list(v: &[u32], n: u32) -> (r: bool)
    ensures
        r == v@.contains(n),
{
    let mut i: usize = 0;
    while i < v.len()
        invariant
            i <= v.len(),
            forall|j: int| 0 <= j < i ==> v@[j] != n,
        decreases v.len() - i,
    {
        if v[i] == n {
            return true;
        }
        i += 1;
    }
    false
}

/// The list as a set.
pub fn to_set(v: &[u32]) -> (r: BTreeSet<u32>)
    ensures
        r@ == v@.to_set(),
{
    let mut r = no_numbers();
    let mut i: usize = 0;
    while i < v.len()
        invariant
            i <= v.len(),
            forall|n: u32| #[trigger] r@.contains(n) <==> v@.take(i as int).contains(n),
        decreases v.len() - i,
    {
        let ghost before = r@;
        insert_number(&mut r, v[i]);
        proof {
            let t = v@.take(i + 1);
            assert forall|n: u32| #[trigger] r@.contains(n) <==> t.contains(n) by {
                if t.contains(n) {
                    let k = choose|k: int| 0 <= k < t.len() && t[k] == n;
                    if k < i {
                        assert(v@.take(i as int)[k] == n);
                        assert(v@.take(i as int).contains(n));
                    }
                }
                if before.contains(n) {
                    let k = choose|k: int| 0 <= k < i && v@.take(i as int)[k] == n;
                    assert(t[k] == n);
                }
                assert(t[i as int] == v@[i as int]);
            }
        }
        i += 1;
    }
    assert(v@.take(v@.len() as int) == v@);
    assert(r@ =~= v@.to_set());
    r
}

/// A list of numbers holds each member once, in ascending order, and nothing else.
pub proof fn law_a_list_holds_each_number_once(set: Set<u32>, n: u32, i: int, j: int)
    ensures
        listing(set).contains(n) <==> set.contains(n),
        0 <= i < j < listing(set).len() ==> listing(set)[i] < listing(set)[j],
{
    lemma_listing_lists(set);
    assert(listing(set).contains(n) <==> set.contains(n));
}

} // verus!
