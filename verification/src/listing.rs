//! What the sources of a novel list, and where a chapter can be had from.

use vstd::prelude::*;

use crate::model::{ChapterRef, RefView};
use crate::numbers;
use crate::source;

verus! {

/// The chapters one source lists. `source` is its position among the novel's sources.
#[derive(Debug)]
pub struct Listing {
    pub source: usize,
    pub refs: Vec<ChapterRef>,
}

/// A [`Listing`] as plain values.
#[verifier::ext_equal]
pub struct ListingView {
    pub source: int,
    pub refs: Seq<RefView>,
}

impl View for Listing {
    type V = ListingView;

    open spec fn view(&self) -> ListingView {
        ListingView { source: self.source as int, refs: source::ref_views(self.refs@) }
    }
}

pub open spec fn listing_views(v: Seq<Listing>) -> Seq<ListingView> {
    v.map_values(|l: Listing| l@)
}

/// The position of the first chapter with this number, or their count.
pub open spec fn first_at(refs: Seq<RefView>, n: u32) -> int
    decreases refs.len(),
{
    if refs.len() > 0 && refs[0].number != n {
        1 + first_at(refs.drop_first(), n)
    } else {
        0
    }
}

/// The position of the last chapter with this number, or -1.
pub open spec fn last_at(refs: Seq<RefView>, n: u32) -> int
    decreases refs.len(),
{
    if refs.len() > 0 && refs.last().number != n {
        last_at(refs.drop_last(), n)
    } else {
        refs.len() - 1
    }
}

impl ListingView {
    /// Whether the source lists a chapter of this number.
    pub open spec fn lists(self, n: u32) -> bool {
        exists|i: int| 0 <= i < self.refs.len() && (#[trigger] self.refs[i]).number == n
    }

    pub open spec fn numbers(self) -> Set<u32> {
        Set::new(|n: u32| self.lists(n))
    }

    /// Whether `n` is the highest number listed.
    pub open spec fn is_highest(self, n: u32) -> bool {
        self.lists(n) && forall|m: u32| #[trigger] self.lists(m) ==> m <= n
    }

    /// The highest number listed.
    pub open spec fn highest(self) -> Option<u32> {
        if self.refs.len() > 0 {
            Some(choose|n: u32| self.is_highest(n))
        } else {
            None
        }
    }
}

/// The numbers that any of the sources lists.
pub open spec fn all_numbers(found: Seq<ListingView>) -> Set<u32> {
    Set::new(|n: u32| exists|i: int| 0 <= i < found.len() && (#[trigger] found[i]).lists(n))
}

/// The position, from `from` on, of the first listing with this number, or their count.
pub open spec fn next_listing(found: Seq<ListingView>, n: u32, from: int) -> int
    decreases found.len() - from,
{
    if from < 0 || from >= found.len() {
        found.len() as int
    } else if found[from].lists(n) {
        from
    } else {
        next_listing(found, n, from + 1)
    }
}

pub proof fn lemma_first_at(refs: Seq<RefView>, n: u32)
    ensures
        0 <= first_at(refs, n) <= refs.len(),
        forall|j: int| 0 <= j < first_at(refs, n) ==> (#[trigger] refs[j]).number != n,
        first_at(refs, n) < refs.len() ==> refs[first_at(refs, n)].number == n,
    decreases refs.len(),
{
    if refs.len() > 0 && refs[0].number != n {
        let t = refs.drop_first();
        lemma_first_at(t, n);
        assert forall|j: int| 0 <= j < first_at(refs, n) implies (#[trigger] refs[j]).number
            != n by {
            if j > 0 {
                assert(t[j - 1] == refs[j]);
            }
        }
    }
}

pub proof fn lemma_last_at(refs: Seq<RefView>, n: u32)
    ensures
        -1 <= last_at(refs, n) < refs.len(),
        forall|j: int| last_at(refs, n) < j < refs.len() ==> (#[trigger] refs[j]).number != n,
        last_at(refs, n) >= 0 ==> refs[last_at(refs, n)].number == n,
    decreases refs.len(),
{
    if refs.len() > 0 && refs.last().number != n {
        let t = refs.drop_last();
        lemma_last_at(t, n);
        assert forall|j: int| last_at(refs, n) < j < refs.len() implies (#[trigger] refs[j]).number
            != n by {
            if j < t.len() {
                assert(t[j] == refs[j]);
            }
        }
    }
}

pub proof fn lemma_next_listing(found: Seq<ListingView>, n: u32, from: int)
    requires
        0 <= from,
    ensures
        next_listing(found, n, from) <= found.len(),
        from <= found.len() ==> from <= next_listing(found, n, from),
        next_listing(found, n, from) < found.len() ==> found[next_listing(found, n, from)].lists(n),
        forall|j: int|
            from <= j < next_listing(found, n, from) && j < found.len()
                ==> !(#[trigger] found[j]).lists(n),
    decreases found.len() - from,
{
    if from < found.len() && !found[from].lists(n) {
        lemma_next_listing(found, n, from + 1);
    }
}

proof fn lemma_highest(l: ListingView, n: u32)
    requires
        l.is_highest(n),
    ensures
        l.highest() == Some(n),
{
    let m = choose|m: u32| l.is_highest(m);
    assert(l.is_highest(m));
    assert(l.lists(m) && l.lists(n));
    let i = choose|i: int| 0 <= i < l.refs.len() && (#[trigger] l.refs[i]).number == n;
    assert(l.refs.len() > 0);
}

impl Listing {
    /// The first chapter listed under this number.
    pub fn first(&self, n: u32) -> (r: Option<&ChapterRef>)
        ensures
            r is Some == self@.lists(n),
            r matches Some(c) ==> c@ == self@.refs[first_at(self@.refs, n)] && c.number == n,
    {
        let ghost refs = self@.refs;
        proof {
            lemma_first_at(refs, n);
        }
        let mut i: usize = 0;
        while i < self.refs.len()
            invariant
                i <= self.refs@.len(),
                refs == self@.refs,
                i <= first_at(refs, n) <= refs.len(),
                forall|j: int| 0 <= j < first_at(refs, n) ==> (#[trigger] refs[j]).number != n,
                first_at(refs, n) < refs.len() ==> refs[first_at(refs, n)].number == n,
            decreases self.refs@.len() - i,
        {
            assert(refs[i as int] == self.refs@[i as int]@);
            if self.refs[i].number == n {
                assert(first_at(refs, n) == i);
                return Some(&self.refs[i]);
            }
            i += 1;
        }
        assert(!self@.lists(n));
        None
    }

    /// The last chapter listed under this number.
    pub fn last(&self, n: u32) -> (r: Option<&ChapterRef>)
        ensures
            r is Some == self@.lists(n),
            r matches Some(c) ==> c@ == self@.refs[last_at(self@.refs, n)] && c.number == n,
    {
        let ghost refs = self@.refs;
        proof {
            lemma_last_at(refs, n);
        }
        let mut i: usize = self.refs.len();
        while i > 0
            invariant
                i <= self.refs@.len(),
                refs == self@.refs,
                -1 <= last_at(refs, n) < i,
                forall|j: int| last_at(refs, n) < j < refs.len() ==> (#[trigger] refs[j]).number
                    != n,
                last_at(refs, n) >= 0 ==> refs[last_at(refs, n)].number == n,
            decreases i,
        {
            i -= 1;
            assert(refs[i as int] == self.refs@[i as int]@);
            if self.refs[i].number == n {
                assert(last_at(refs, n) == i);
                return Some(&self.refs[i]);
            }
        }
        assert(!self@.lists(n));
        None
    }

    pub fn has(&self, n: u32) -> (r: bool)
        ensures
            r == self@.lists(n),
    {
        self.first(n).is_some()
    }

    /// The highest number listed.
    pub fn highest(&self) -> (r: Option<u32>)
        ensures
            r == self@.highest(),
    {
        if self.refs.len() == 0 {
            return None;
        }
        let ghost l = self@;
        let mut best: u32 = self.refs[0].number;
        let mut i: usize = 1;
        assert(l.refs[0] == self.refs@[0]@);
        while i < self.refs.len()
            invariant
                1 <= i <= self.refs@.len(),
                l == self@,
                l.lists(best),
                forall|j: int| 0 <= j < i ==> (#[trigger] l.refs[j]).number <= best,
            decreases self.refs@.len() - i,
        {
            assert(l.refs[i as int] == self.refs@[i as int]@);
            if self.refs[i].number > best {
                best = self.refs[i].number;
            }
            i += 1;
        }
        proof {
            lemma_highest(l, best);
        }
        Some(best)
    }
}

/// The first listing from `from` on that has a chapter of this number.
pub fn find_listing(found: &Vec<Listing>, n: u32, from: usize) -> (r: usize)
    requires
        from <= found@.len(),
    ensures
        r as int == next_listing(listing_views(found@), n, from as int),
        from <= r <= found@.len(),
        r < found@.len() ==> found@[r as int]@.lists(n),
{
    let ghost views = listing_views(found@);
    let mut i: usize = from;
    while i < found.len() && !found[i].has(n)
        invariant
            from <= i <= found@.len(),
            views == listing_views(found@),
            next_listing(views, n, from as int) == next_listing(views, n, i as int),
        decreases found@.len() - i,
    {
        assert(views[i as int] == found@[i as int]@);
        i += 1;
    }
    if i < found.len() {
        assert(views[i as int] == found@[i as int]@);
    }
    i
}

/// The numbers that any of the sources lists, ascending.
pub fn target_numbers(found: &Vec<Listing>) -> (r: Vec<u32>)
    ensures
        numbers::lists(r@, all_numbers(listing_views(found@))),
{
    let ghost views = listing_views(found@);
    let mut out: Vec<u32> = Vec::new();
    let mut i: usize = 0;
    while i < found.len()
        invariant
            i <= found@.len(),
            views == listing_views(found@),
            numbers::ascending(out@),
            forall|n: u32| #[trigger]
                out@.contains(n) <==> (exists|k: int|
                    0 <= k < i && (#[trigger] views[k]).lists(n)),
        decreases found@.len() - i,
    {
        let ghost before = out@;
        let ghost l = views[i as int];
        assert(l == found@[i as int]@);
        let mut j: usize = 0;
        while j < found[i].refs.len()
            invariant
                i < found@.len(),
                j <= found@[i as int].refs@.len(),
                l == found@[i as int]@,
                numbers::ascending(out@),
                forall|n: u32| #[trigger]
                    out@.contains(n) <==> (before.contains(n) || exists|k: int|
                        0 <= k < j && (#[trigger] l.refs[k]).number == n),
            decreases found@[i as int].refs@.len() - j,
        {
            let n: u32 = found[i].refs[j].number;
            assert(l.refs[j as int] == found@[i as int].refs@[j as int]@);
            let ghost prev = out@;
            numbers::insert_sorted(&mut out, n);
            assert forall|m: u32| #[trigger] out@.contains(m) <==> (before.contains(m) || exists|
                k: int,
            |
                0 <= k < j + 1 && (#[trigger] l.refs[k]).number == m) by {
                assert(out@.contains(m) <==> (prev.contains(m) || m == n));
                if m == n {
                    assert(l.refs[j as int].number == m);
                }
            }
            j += 1;
        }
        assert forall|n: u32| #[trigger] out@.contains(n) <==> (exists|k: int|
            0 <= k < i + 1 && (#[trigger] views[k]).lists(n)) by {
            assert(before.contains(n) <==> exists|k: int|
                0 <= k < i && (#[trigger] views[k]).lists(n));
            if l.lists(n) {
                assert(views[i as int].lists(n));
            }
        }
        i += 1;
    }
    assert forall|n: u32| #[trigger] out@.contains(n) <==> all_numbers(views).contains(n) by {}
    out
}

/// A number is listed where some chapter of some source has it.
pub proof fn law_listed_numbers_are_those_of_the_chapters(found: Seq<ListingView>, n: u32)
    ensures
        all_numbers(found).contains(n) <==> exists|k: int, i: int|
            0 <= k < found.len() && 0 <= i < found[k].refs.len() && (
            #[trigger] found[k].refs[i]).number == n,
{
    if all_numbers(found).contains(n) {
        let k = choose|k: int| 0 <= k < found.len() && (#[trigger] found[k]).lists(n);
        let i = choose|i: int| 0 <= i < found[k].refs.len() && (#[trigger] found[k].refs[i]).number
            == n;
        assert(found[k].refs[i].number == n);
    }
    if exists|k: int, i: int|
        0 <= k < found.len() && 0 <= i < found[k].refs.len() && (#[trigger] found[k].refs[i]).number
            == n {
        let (k, i) = choose|k: int, i: int|
            0 <= k < found.len() && 0 <= i < found[k].refs.len() && (
            #[trigger] found[k].refs[i]).number == n;
        assert(found[k].lists(n));
    }
}

/// The highest number of a listing is one of its chapters', and none is above it. A listing
/// without chapters has none.
pub proof fn law_the_highest_is_listed_and_none_is_above(l: ListingView, i: int)
    ensures
        l.highest() is Some <==> l.refs.len() > 0,
        l.highest() matches Some(n) ==> {
            &&& exists|j: int| 0 <= j < l.refs.len() && (#[trigger] l.refs[j]).number == n
            &&& 0 <= i < l.refs.len() ==> l.refs[i].number <= n
        },
{
    if l.refs.len() > 0 {
        assert(l.lists(l.refs[0].number));
        lemma_has_highest(l, u32::MAX as int);
        let n = choose|n: u32| l.is_highest(n);
        assert(l.is_highest(n));
        if 0 <= i < l.refs.len() {
            assert(l.lists(l.refs[i].number));
        }
    }
}

proof fn lemma_has_highest(l: ListingView, bound: int)
    requires
        l.refs.len() > 0,
        bound <= u32::MAX,
        forall|m: u32| #[trigger] l.lists(m) ==> m <= bound,
    ensures
        exists|n: u32| l.is_highest(n),
    decreases bound + 1,
{
    assert(l.lists(l.refs[0].number));
    if l.lists(bound as u32) {
        assert(l.is_highest(bound as u32));
    } else {
        lemma_has_highest(l, bound - 1);
    }
}

/// The next listing with a number is the first from there on that has it.
pub proof fn law_the_next_listing_is_the_first_that_has_it(
    found: Seq<ListingView>,
    n: u32,
    from: int,
    j: int,
)
    requires
        0 <= from <= found.len(),
    ensures
        from <= next_listing(found, n, from) <= found.len(),
        next_listing(found, n, from) < found.len() ==> exists|i: int|
            0 <= i < found[next_listing(found, n, from)].refs.len() && (
            #[trigger] found[next_listing(found, n, from)].refs[i]).number == n,
        from <= j < next_listing(found, n, from) ==> forall|i: int|
            0 <= i < found[j].refs.len() ==> (#[trigger] found[j].refs[i]).number != n,
{
    lemma_next_listing(found, n, from);
    if from <= j < next_listing(found, n, from) {
        assert(!found[j].lists(n));
    }
}

/// A listing holds what its source listed.
pub proof fn law_listings_show_their_chapters(l: Listing, v: Seq<Listing>, i: int)
    ensures
        l@.source == l.source,
        l@.refs.len() == l.refs@.len(),
        0 <= i < l.refs@.len() ==> l@.refs[i].number == l.refs@[i].number && l@.refs[i].url
            == l.refs@[i].url@ && l@.refs[i].title == l.refs@[i].title@,
        listing_views(v).len() == v.len(),
        0 <= i < v.len() ==> listing_views(v)[i] == v[i]@,
{
}

} // verus!
