//! Bringing a novel up to date from its sources.
//!
//! The primary source is authoritative: fallbacks only supply chapters it lacks, matched
//! by number, and a chapter that a fallback supplied is replaced once the primary has it.
//! Every chapter is stored as it lands, so a pass that is cut short costs a pause, not a
//! restart.

use vstd::prelude::*;

use crate::fetch::{Failure, FailureView};
use crate::job;
use crate::library::Library;
use crate::library;
use crate::listing::{Listing, ListingView};
use crate::listing;
use crate::model::{Chapter, ChapterRef, ChapterView, DerivedState, RefView};
use crate::numbers;
use crate::repair;
use crate::source;
use crate::store::{SourceView, Store, StoredSource};
use crate::store;
use crate::table::Key;
use crate::text;

verus! {

/// How far a pass has come.
#[derive(Debug, Clone, Copy, PartialEq, Eq, Structural)]
pub enum SyncProgress {
    Fetching { done: usize, total: usize },
    Upgrading { done: usize, total: usize },
}

/// What a pass did.
#[derive(Debug)]
pub struct SyncReport {
    pub newly_fetched: u32,
    pub from_fallback: u32,
    pub upgraded: u32,
    pub new_state: DerivedState,
    pub delta_mode: bool,
    pub warnings: Vec<String>,
    pub failures: Vec<u32>,
    pub gaps: Vec<u32>,
    pub interrupted: bool,
}

/// A [`SyncReport`] as plain values.
#[verifier::ext_equal]
pub struct ReportView {
    pub newly_fetched: u32,
    pub from_fallback: u32,
    pub upgraded: u32,
    pub new_state: DerivedState,
    pub delta_mode: bool,
    pub warnings: Seq<Seq<char>>,
    pub failures: Seq<u32>,
    pub gaps: Seq<u32>,
    pub interrupted: bool,
}

impl View for SyncReport {
    type V = ReportView;

    open spec fn view(&self) -> ReportView {
        ReportView {
            newly_fetched: self.newly_fetched,
            from_fallback: self.from_fallback,
            upgraded: self.upgraded,
            new_state: self.new_state,
            delta_mode: self.delta_mode,
            warnings: text::texts(self.warnings@),
            failures: self.failures@,
            gaps: self.gaps@,
            interrupted: self.interrupted,
        }
    }
}

/// One more; the counts stop at the highest number they can hold.
pub open spec fn one_more(n: u32) -> u32 {
    if n < u32::MAX {
        (n + 1) as u32
    } else {
        n
    }
}

fn add_one(n: u32) -> (r: u32)
    ensures
        r == one_more(n),
{
    if n < u32::MAX {
        n + 1
    } else {
        n
    }
}

impl ReportView {
    pub open spec fn fresh(state: DerivedState) -> ReportView {
        ReportView {
            newly_fetched: 0,
            from_fallback: 0,
            upgraded: 0,
            new_state: state,
            delta_mode: state != DerivedState::Backfilling,
            warnings: seq![],
            failures: seq![],
            gaps: seq![],
            interrupted: false,
        }
    }

    pub open spec fn warned(self, w: Seq<char>) -> ReportView {
        ReportView { warnings: self.warnings.push(w), ..self }
    }

    /// With one more chapter stored.
    pub open spec fn gained(self, fallback: bool) -> ReportView {
        ReportView {
            newly_fetched: one_more(self.newly_fetched),
            from_fallback: if fallback {
                one_more(self.from_fallback)
            } else {
                self.from_fallback
            },
            ..self
        }
    }
}

/// Where a pass stands.
#[derive(Debug, Clone, Copy)]
pub enum Step {
    /// Waiting for the chapter list of a source: all of it, or the latest entries.
    Discovering { full: bool, next: usize },
    /// Waiting for a chapter from the source of a listing. `missed` says whether the
    /// primary has answered that it has no such page.
    Fetching { i: usize, at: usize, missed: bool },
    /// Done with a chapter, about to report it.
    Fetched { i: usize },
    /// About to replace a chapter that a fallback supplied.
    Upgrading { i: usize },
    /// Waiting for the primary's version of it.
    Replacing { i: usize },
    Done,
}

/// What a pass needs next. A source is named by its position among the novel's sources.
#[derive(Debug)]
pub enum SyncAction {
    /// List the chapters of a source, all of them or the latest.
    Discover { source: usize, full: bool },
    /// Fetch a chapter from a source.
    Fetch { source: usize, chapter: ChapterRef },
    /// Report progress, and find out whether to stop.
    Report(SyncProgress),
    /// Nothing: the pass is over.
    Finish,
}

/// A [`SyncAction`] as plain values.
#[verifier::ext_equal]
pub enum SyncActionView {
    Discover { source: int, full: bool },
    Fetch { source: int, chapter: RefView },
    Report(SyncProgress),
    Finish,
}

impl View for SyncAction {
    type V = SyncActionView;

    open spec fn view(&self) -> SyncActionView {
        match *self {
            SyncAction::Discover { source, full } => SyncActionView::Discover {
                source: source as int,
                full,
            },
            SyncAction::Fetch { source, chapter } => SyncActionView::Fetch {
                source: source as int,
                chapter: chapter@,
            },
            SyncAction::Report(p) => SyncActionView::Report(p),
            SyncAction::Finish => SyncActionView::Finish,
        }
    }
}

/// A pass as plain values.
#[verifier::ext_equal]
pub struct SyncView {
    pub novel: i64,
    pub state: DerivedState,
    pub sources: Seq<SourceView>,
    /// How many chapters to fetch at most; 0 for all.
    pub limit: usize,
    /// The chapters that were stored when the pass began.
    pub have: Set<u32>,
    /// The chapters the primary has no page for.
    pub gaps: Set<u32>,
    pub found: Seq<ListingView>,
    /// The chapters to fetch, or those to replace.
    pub queue: Seq<u32>,
    pub report: ReportView,
    pub step: Step,
}

/// Whether `n` is the highest member; 0 for none.
pub open spec fn is_top(have: Set<u32>, n: u32) -> bool {
    ||| n == 0 && forall|m: u32| !#[trigger] have.contains(m)
    ||| have.contains(n) && forall|m: u32| #[trigger] have.contains(m) ==> m <= n
}

pub open spec fn top(have: Set<u32>) -> u32 {
    choose|n: u32| is_top(have, n)
}

/// Whether `n` is the lowest listed number above `floor`.
pub open spec fn is_first_above(found: Seq<ListingView>, floor: u32, n: u32) -> bool {
    &&& listing::all_numbers(found).contains(n)
    &&& n > floor
    &&& forall|m: u32| #[trigger] listing::all_numbers(found).contains(m) && m > floor ==> n <= m
}

pub open spec fn first_above(found: Seq<ListingView>, floor: u32) -> Option<u32> {
    if exists|n: u32| is_first_above(found, floor, n) {
        Some(choose|n: u32| is_first_above(found, floor, n))
    } else {
        None
    }
}

/// The highest number a source lists, or 0.
pub open spec fn height(l: ListingView) -> u32 {
    match l.highest() {
        Some(n) => n,
        None => 0,
    }
}

pub open spec fn all_level(found: Seq<ListingView>) -> bool {
    forall|i: int| 0 <= i < found.len() ==> #[trigger] height(found[i]) == height(found[0])
}

/// How far each source goes.
pub open spec fn heights(found: Seq<ListingView>, sources: Seq<SourceView>) -> Seq<Seq<char>> {
    found.map_values(
        |l: ListingView|
            sources[l.source].name + ": up to ch."@ + text::decimal(height(l) as nat),
    )
}

/// The listed chapters that are not stored, ascending, up to the limit.
pub open spec fn missing(found: Seq<ListingView>, have: Set<u32>, limit: usize) -> Seq<u32> {
    let all = numbers::listing(
        Set::new(|n: u32| listing::all_numbers(found).contains(n) && !have.contains(n)),
    );
    if limit == 0 || all.len() <= limit {
        all
    } else {
        all.take(limit as int)
    }
}

/// The position of the primary source's listing, or their count.
pub open spec fn primary_listing(found: Seq<ListingView>, sources: Seq<SourceView>) -> int
    decreases found.len(),
{
    if found.len() > 0 && sources[found[0].source].priority != 1 {
        1 + primary_listing(found.drop_first(), sources)
    } else {
        0
    }
}

/// The position, from `from` on, of the first of these chapters that a source lists, or
/// their count.
pub open spec fn next_offered(queue: Seq<u32>, l: ListingView, from: int) -> int
    decreases queue.len() - from,
{
    if from < 0 || from >= queue.len() {
        queue.len() as int
    } else if l.lists(queue[from]) {
        from
    } else {
        next_offered(queue, l, from + 1)
    }
}

/// The chapters that other sources supplied and the primary may have by now.
pub open spec fn upgradable(lib: Library, novel: i64, primary: i64, gaps: Set<u32>) -> Set<u32> {
    Set::new(
        |n: u32|
            store::foreign_chapters(lib, novel, primary).contains(n) && !gaps.contains(n),
    )
}

/// With each source's highest chapter on record.
pub open spec fn noted(
    lib: Library,
    found: Seq<ListingView>,
    sources: Seq<SourceView>,
    now: i64,
) -> Library
    decreases found.len(),
{
    if found.len() == 0 {
        lib
    } else {
        let before = noted(lib, found.drop_last(), sources, now);
        let l = found.last();
        match l.highest() {
            Some(n) => before.with_progress(sources[l.source].id, n, now),
            None => before,
        }
    }
}

impl SyncView {
    /// A pass at its start. A novel still being filled gets a full walk; any other a
    /// cheap look at the latest chapters.
    pub open spec fn planned(
        lib: Library,
        novel: i64,
        state: DerivedState,
        sources: Seq<SourceView>,
        limit: usize,
    ) -> SyncView {
        let start = SyncView {
            novel,
            state,
            sources,
            limit,
            have: lib.stored(novel),
            gaps: lib.gap_numbers(novel),
            found: seq![],
            queue: seq![],
            report: ReportView::fresh(state),
            step: Step::Discovering { full: state == DerivedState::Backfilling, next: 0 },
        };
        if sources.len() == 0 {
            start.prepared(lib)
        } else {
            start
        }
    }

    pub open spec fn action(self) -> SyncActionView {
        match self.step {
            Step::Discovering { full, next } => SyncActionView::Discover {
                source: next as int,
                full,
            },
            Step::Fetching { i, at, missed } => {
                let l = self.found[at as int];
                SyncActionView::Fetch {
                    source: l.source,
                    chapter: l.refs[listing::last_at(l.refs, self.queue[i as int])],
                }
            },
            Step::Fetched { i } => SyncActionView::Report(
                SyncProgress::Fetching { done: (i + 1) as usize, total: self.queue.len() as usize },
            ),
            Step::Upgrading { i } => SyncActionView::Report(
                SyncProgress::Upgrading { done: (i + 1) as usize, total: self.queue.len() as usize },
            ),
            Step::Replacing { i } => {
                let l = self.found[self.primary()];
                SyncActionView::Fetch {
                    source: l.source,
                    chapter: l.refs[listing::last_at(l.refs, self.queue[i as int])],
                }
            },
            Step::Done => SyncActionView::Finish,
        }
    }

    pub open spec fn warned(self, w: Seq<char>) -> SyncView {
        SyncView { report: self.report.warned(w), ..self }
    }

    /// The position of the primary's listing, or the number of listings.
    pub open spec fn primary(self) -> int {
        primary_listing(self.found, self.sources)
    }

    // -- discovery ----------------------------------------------------------

    /// With one more source listed, or a warning that it could not be.
    pub open spec fn listed(self, next: usize, answer: Result<Seq<RefView>, Seq<char>>) -> SyncView {
        match answer {
            Ok(refs) => SyncView {
                found: self.found.push(ListingView { source: next as int, refs }),
                ..self
            },
            Err(e) => self.warned(
                "discovery failed for "@ + self.sources[next as int].name + ": "@ + e
                    + "; skipping this source"@,
            ),
        }
    }

    /// After a source's answer to the request for its chapter list.
    pub open spec fn discovered(self, lib: Library, answer: Result<Seq<RefView>, Seq<char>>) -> SyncView {
        match self.step {
            Step::Discovering { full, next } => {
                let after = self.listed(next, answer);
                if next + 1 < self.sources.len() {
                    SyncView {
                        step: Step::Discovering { full, next: (next + 1) as usize },
                        ..after
                    }
                } else {
                    after.surveyed(lib, full)
                }
            },
            _ => self,
        }
    }

    /// Whether the latest chapters leave a hole behind the stored ones.
    pub open spec fn leaves_hole(self) -> Option<u32> {
        match first_above(self.found, top(self.have)) {
            Some(n) => if n > top(self.have) + 1 {
                Some(n)
            } else {
                None
            },
            None => None,
        }
    }

    /// Once every source has answered: on to the chapters, or to a full walk where the
    /// latest chapters leave a hole.
    pub open spec fn surveyed(self, lib: Library, full: bool) -> SyncView {
        if !full && self.leaves_hole() is Some {
            let walk = self.warned(
                "delta check found new chapters from ch."@ + text::decimal(
                    self.leaves_hole()->0 as nat,
                ) + " but last stored is ch."@ + text::decimal(top(self.have) as nat)
                    + "; falling back to a full walk to fill the gap"@,
            );
            SyncView {
                found: seq![],
                report: ReportView { delta_mode: false, ..walk.report },
                step: Step::Discovering { full: true, next: 0 },
                ..walk
            }
        } else {
            self.prepared(lib)
        }
    }

    /// With a warning where the sources do not go equally far.
    pub open spec fn compared(self) -> SyncView {
        if self.found.len() > 1 && !all_level(self.found) {
            self.warned(
                "sources report different latest chapters ("@ + text::join(
                    heights(self.found, self.sources),
                    ", "@,
                ) + "); gap-fill matches by number and may not align 1:1"@,
            )
        } else {
            self
        }
    }

    /// Ready to fetch what is missing.
    pub open spec fn prepared(self, lib: Library) -> SyncView {
        SyncView {
            queue: missing(self.found, self.have, self.limit),
            ..self.compared()
        }.fetching(lib, 0)
    }

    // -- fetching -----------------------------------------------------------

    /// On to the `i`-th missing chapter, or to the upgrades behind the last.
    pub open spec fn fetching(self, lib: Library, i: int) -> SyncView {
        if i < self.queue.len() {
            SyncView {
                step: Step::Fetching {
                    i: i as usize,
                    at: listing::next_listing(self.found, self.queue[i], 0) as usize,
                    missed: false,
                },
                ..self
            }
        } else {
            self.reviewing(lib)
        }
    }

    /// With a chapter on record as having no page at the primary, and the library with
    /// it. `None` where the library has no such novel.
    pub open spec fn holed(self, lib: Library, n: u32, now: i64) -> Option<(SyncView, Library)> {
        if self.gaps.contains(n) {
            Some((self, lib))
        } else if !lib.novels.contains_key(self.novel) {
            None
        } else {
            Some(
                (
                    SyncView { gaps: self.gaps.insert(n), ..self },
                    lib.with_gap((self.novel, n), now),
                ),
            )
        }
    }

    /// With a chapter that has a page at the primary after all.
    pub open spec fn unholed(self, lib: Library, n: u32) -> (SyncView, Library) {
        if self.gaps.contains(n) {
            (
                SyncView { gaps: self.gaps.remove(n), ..self },
                lib.without_gap((self.novel, n)),
            )
        } else {
            (self, lib)
        }
    }

    /// With a chapter that came in from the source of a listing: stored, unless its number
    /// is taken. `None` where the library has no such novel or source.
    pub open spec fn landed(
        self,
        lib: Library,
        i: usize,
        at: usize,
        missed: bool,
        c: ChapterView,
        now: i64,
    ) -> Option<(SyncView, Library)> {
        let source = self.sources[self.found[at as int].source];
        let taken = lib.stored(self.novel).contains(c.number);
        let after = SyncView {
            report: if taken {
                self.report
            } else {
                self.report.gained(at > 0)
            },
            step: Step::Fetched { i },
            ..self
        };
        let stored = lib.with_chapter(self.novel, source.id, c, now);
        if !taken && !(lib.novels.contains_key(self.novel) && lib.sources.contains_key(source.id)) {
            None
        } else if source.priority == 1 {
            Some(after.unholed(stored, self.queue[i as int]))
        } else if missed {
            after.holed(stored, self.queue[i as int], now)
        } else {
            Some((after, stored))
        }
    }

    /// After a source failed to hand over a chapter: the next source that lists it is
    /// tried. Behind the last, a chapter without a page at the primary is a hole, and any
    /// other a failure.
    pub open spec fn refused(
        self,
        lib: Library,
        i: usize,
        at: usize,
        missed: bool,
        f: FailureView,
        now: i64,
    ) -> Option<(SyncView, Library)> {
        let n = self.queue[i as int];
        let source = self.sources[self.found[at as int].source];
        let gone = missed || (source.priority == 1 && f.not_found);
        let after = if self.gaps.contains(n) {
            self
        } else {
            self.warned(
                "ch."@ + text::decimal(n as nat) + " from "@ + source.name + " failed: "@
                    + f.message + "; trying next source"@,
            )
        };
        let next = listing::next_listing(self.found, n, at + 1);
        if next < self.found.len() {
            Some(
                (
                    SyncView {
                        step: Step::Fetching { i, at: next as usize, missed: gone },
                        ..after
                    },
                    lib,
                ),
            )
        } else if gone {
            SyncView { step: Step::Fetched { i }, ..after }.holed(lib, n, now)
        } else {
            Some(
                (
                    SyncView {
                        report: ReportView {
                            failures: after.report.failures.push(n),
                            ..after.report
                        },
                        step: Step::Fetched { i },
                        ..after
                    },
                    lib,
                ),
            )
        }
    }

    // -- upgrading ----------------------------------------------------------

    /// Take up the chapters that a fallback supplied, if the primary could be listed.
    pub open spec fn reviewing(self, lib: Library) -> SyncView {
        if self.primary() < self.found.len() {
            let source = self.sources[self.found[self.primary()].source];
            SyncView {
                queue: numbers::listing(upgradable(lib, self.novel, source.id, self.gaps)),
                ..self
            }.upgrading(0)
        } else {
            SyncView { step: Step::Done, ..self }
        }
    }

    /// On to the next chapter, from the `i`-th on, that the primary lists by now.
    pub open spec fn upgrading(self, i: int) -> SyncView {
        let j = next_offered(self.queue, self.found[self.primary()], i);
        SyncView {
            step: if j < self.queue.len() {
                Step::Upgrading { i: j as usize }
            } else {
                Step::Done
            },
            ..self
        }
    }

    /// After the primary's answer to the request for its version of a chapter. A
    /// placeholder, like a page that is not there, only shows that the primary does not
    /// have the chapter.
    pub open spec fn replaced(
        self,
        lib: Library,
        i: usize,
        answer: Result<ChapterView, FailureView>,
        now: i64,
    ) -> Option<(SyncView, Library)> {
        let n = self.queue[i as int];
        let source = self.sources[self.found[self.primary()].source];
        let absent = match answer {
            Ok(c) => repair::is_stub(c.paragraphs),
            Err(f) => f.not_found,
        };
        if absent {
            match self.holed(lib, n, now) {
                Some((after, with)) => Some((after.upgrading(i + 1), with)),
                None => None,
            }
        } else {
            match answer {
                Ok(c) => if lib.stored(self.novel).contains(c.number) && !lib.sources.contains_key(
                    source.id,
                ) {
                    None
                } else {
                    Some(
                        (
                            SyncView {
                                report: ReportView {
                                    upgraded: one_more(self.report.upgraded),
                                    ..self.report
                                },
                                ..self
                            }.upgrading(i + 1),
                            lib.with_content(self.novel, source.id, c),
                        ),
                    )
                },
                Err(f) => Some(
                    (
                        self.warned(
                            "upgrade of ch."@ + text::decimal(n as nat) + " from "@ + source.name
                                + " failed: "@ + f.message,
                        ).upgrading(i + 1),
                        lib,
                    ),
                ),
            }
        }
    }

    // -- events -------------------------------------------------------------

    /// After a source's answer to the request for a chapter, and what becomes of the
    /// library. `None` where the library has no such novel or source.
    pub open spec fn fetched(
        self,
        lib: Library,
        answer: Result<ChapterView, FailureView>,
        now: i64,
    ) -> Option<(SyncView, Library)> {
        match self.step {
            Step::Fetching { i, at, missed } => match answer {
                Ok(c) => self.landed(lib, i, at, missed, c, now),
                Err(f) => self.refused(lib, i, at, missed, f, now),
            },
            Step::Replacing { i } => self.replaced(lib, i, answer, now),
            _ => Some((self, lib)),
        }
    }

    /// After progress was reported, and it turned out whether to stop.
    pub open spec fn reported(self, lib: Library, stop: bool) -> SyncView {
        let stopped = SyncView {
            report: ReportView { interrupted: true, ..self.report },
            step: Step::Done,
            ..self
        };
        match self.step {
            Step::Fetched { i } => if stop {
                stopped
            } else {
                self.fetching(lib, i + 1)
            },
            Step::Upgrading { i } => if stop {
                stopped
            } else {
                SyncView { step: Step::Replacing { i }, ..self }
            },
            _ => self,
        }
    }

    // -- the end ------------------------------------------------------------

    /// Whether a listed chapter is neither stored nor known to have no page.
    pub open spec fn outstanding(self, lib: Library) -> bool {
        exists|n: u32| #[trigger]
            listing::all_numbers(self.found).contains(n) && !lib.stored(self.novel).contains(n)
                && !self.gaps.contains(n)
    }

    /// The novel's state at the end of the pass: a novel being filled is live once nothing
    /// is outstanding, and any other once it has gained a chapter.
    pub open spec fn closing_state(self, lib: Library) -> DerivedState {
        if self.state == DerivedState::Backfilling {
            if (exists|n: u32| #[trigger] listing::all_numbers(self.found).contains(n))
                && !self.outstanding(lib) {
                DerivedState::Live
            } else {
                DerivedState::Backfilling
            }
        } else if self.report.newly_fetched > 0 {
            DerivedState::Live
        } else {
            self.state
        }
    }

    /// The library at the end of the pass.
    pub open spec fn closing(self, lib: Library, now: i64) -> Library {
        let after = noted(lib, self.found, self.sources, now);
        let state = self.closing_state(after);
        if state != self.state {
            after.with_state(self.novel, state, now)
        } else {
            after
        }
    }

    /// The report at the end of the pass, with the holes that nothing has filled.
    pub open spec fn closing_report(self, lib: Library, now: i64) -> ReportView {
        let after = noted(lib, self.found, self.sources, now);
        ReportView {
            new_state: self.closing_state(after),
            gaps: numbers::listing(
                Set::new(|n: u32| self.gaps.contains(n) && !after.stored(self.novel).contains(n)),
            ),
            ..self.report
        }
    }
}

// ---------------------------------------------------------------------------
// The pieces
// ---------------------------------------------------------------------------

/// The highest of an ascending list; 0 for none.
fn top_of(v: &Vec<u32>) -> (r: u32)
    requires
        numbers::ascending(v@),
    ensures
        r == top(v@.to_set()),
{
    let n: usize = v.len();
    let r: u32 = if n == 0 {
        0
    } else {
        v[n - 1]
    };
    proof {
        let have = v@.to_set();
        assert(is_top(have, r)) by {
            if n > 0 {
                assert(v@.contains(r));
                assert forall|m: u32| #[trigger] have.contains(m) implies m <= r by {
                    let k = choose|k: int| 0 <= k < v@.len() && v@[k] == m;
                    if k < n - 1 {
                        assert(v@[k] < v@[n - 1]);
                    }
                }
            }
        }
        let o = top(have);
        assert(is_top(have, o));
        if n > 0 {
            assert(have.contains(r));
        }
    }
    r
}

/// The lowest number above `floor` that any source lists.
fn lowest_above(found: &Vec<Listing>, floor: u32) -> (r: Option<u32>)
    ensures
        r == first_above(listing::listing_views(found@), floor),
{
    let ghost views = listing::listing_views(found@);
    let ghost all = listing::all_numbers(views);
    let v = listing::target_numbers(found);
    let mut i: usize = 0;
    while i < v.len() && v[i] <= floor
        invariant
            i <= v@.len(),
            forall|j: int| 0 <= j < i ==> #[trigger] v@[j] <= floor,
        decreases v@.len() - i,
    {
        i += 1;
    }
    if i < v.len() {
        let n: u32 = v[i];
        proof {
            assert(v@.contains(n));
            assert(is_first_above(views, floor, n)) by {
                assert forall|m: u32| #[trigger] all.contains(m) && m > floor implies n <= m by {
                    assert(v@.contains(m));
                    let k = choose|k: int| 0 <= k < v@.len() && v@[k] == m;
                    if k < i {
                        assert(v@[k] <= floor);
                    } else if k > i {
                        assert(v@[i as int] < v@[k]);
                    }
                }
            }
            let o = choose|o: u32| is_first_above(views, floor, o);
            assert(is_first_above(views, floor, o));
            assert(all.contains(o) && all.contains(n));
        }
        Some(n)
    } else {
        proof {
            assert forall|n: u32| !is_first_above(views, floor, n) by {
                if is_first_above(views, floor, n) {
                    assert(all.contains(n));
                    assert(v@.contains(n));
                    let k = choose|k: int| 0 <= k < v@.len() && v@[k] == n;
                    assert(v@[k] <= floor);
                }
            }
        }
        None
    }
}

fn height_of(l: &Listing) -> (r: u32)
    ensures
        r == height(l@),
{
    match l.highest() {
        Some(n) => n,
        None => 0,
    }
}

fn are_level(found: &Vec<Listing>) -> (r: bool)
    ensures
        r == all_level(listing::listing_views(found@)),
{
    let ghost views = listing::listing_views(found@);
    if found.len() == 0 {
        return true;
    }
    let first: u32 = height_of(&found[0]);
    assert(views[0] == found@[0]@);
    let mut i: usize = 0;
    while i < found.len()
        invariant
            i <= found@.len(),
            views == listing::listing_views(found@),
            first == height(views[0]),
            forall|j: int| 0 <= j < i ==> #[trigger] height(views[j]) == first,
        decreases found@.len() - i,
    {
        assert(views[i as int] == found@[i as int]@);
        if height_of(&found[i]) != first {
            assert(height(views[i as int]) != height(views[0]));
            return false;
        }
        i += 1;
    }
    true
}

fn describe_heights(found: &Vec<Listing>, sources: &Vec<StoredSource>) -> (r: String)
    requires
        forall|j: int| 0 <= j < found@.len() ==> (#[trigger] found@[j]).source < sources@.len(),
    ensures
        r@ == text::join(
            heights(listing::listing_views(found@), store::source_views(sources@)),
            ", "@,
        ),
{
    let ghost views = listing::listing_views(found@);
    let ghost names = store::source_views(sources@);
    let ghost want = heights(views, names);
    let mut parts: Vec<String> = Vec::new();
    let mut i: usize = 0;
    while i < found.len()
        invariant
            i <= found@.len(),
            views == listing::listing_views(found@),
            names == store::source_views(sources@),
            want == heights(views, names),
            forall|j: int| 0 <= j < found@.len() ==> (#[trigger] found@[j]).source < sources@.len(),
            text::texts(parts@) == want.take(i as int),
        decreases found@.len() - i,
    {
        let ghost before = parts@;
        assert(views[i as int] == found@[i as int]@);
        let k: usize = found[i].source;
        assert(names[k as int] == sources@[k as int]@);
        let mut v = text::to_chars(sources[k].name.as_str());
        text::push_str(&mut v, ": up to ch.");
        let n = text::decimal_chars(height_of(&found[i]) as u64);
        text::push_all(&mut v, &n);
        let part = text::to_text(&v);
        parts.push(part);
        assert(part@ == want[i as int]);
        assert(text::texts(parts@) =~= text::texts(before).push(part@));
        assert(want.take(i + 1) =~= want.take(i as int).push(want[i as int]));
        i += 1;
    }
    assert(want.take(want.len() as int) =~= want);
    text::join_texts(&parts, ", ")
}

fn missing_numbers(found: &Vec<Listing>, have: &Vec<u32>, limit: usize) -> (r: Vec<u32>)
    ensures
        r@ == missing(listing::listing_views(found@), have@.to_set(), limit),
        forall|j: int|
            0 <= j < r@.len() ==> listing::all_numbers(listing::listing_views(found@)).contains(
                #[trigger] r@[j],
            ),
{
    let ghost target = listing::all_numbers(listing::listing_views(found@));
    let all = listing::target_numbers(found);
    let mut out = numbers::without(&all, have);
    let ghost wanted = Set::new(|n: u32| target.contains(n) && !have@.to_set().contains(n));
    proof {
        assert forall|n: u32| #[trigger] out@.contains(n) <==> wanted.contains(n) by {
            assert(all@.contains(n) <==> target.contains(n));
        }
        numbers::lemma_listing(out@, wanted);
        assert forall|j: int| 0 <= j < out@.len() implies target.contains(#[trigger] out@[j]) by {
            assert(out@.contains(out@[j]));
        }
    }
    if limit > 0 && out.len() > limit {
        out.truncate(limit);
    }
    out
}

fn find_primary(found: &Vec<Listing>, sources: &Vec<StoredSource>) -> (r: usize)
    requires
        forall|j: int| 0 <= j < found@.len() ==> (#[trigger] found@[j]).source < sources@.len(),
    ensures
        r as int == primary_listing(
            listing::listing_views(found@),
            store::source_views(sources@),
        ),
        r <= found@.len(),
{
    let ghost views = listing::listing_views(found@);
    let ghost names = store::source_views(sources@);
    let mut i: usize = 0;
    assert(views.skip(0) =~= views);
    while i < found.len() && sources[found[i].source].priority != 1
        invariant
            i <= found@.len(),
            views == listing::listing_views(found@),
            names == store::source_views(sources@),
            forall|j: int| 0 <= j < found@.len() ==> (#[trigger] found@[j]).source < sources@.len(),
            primary_listing(views, names) == i + primary_listing(views.skip(i as int), names),
        decreases found@.len() - i,
    {
        let ghost rest = views.skip(i as int);
        assert(rest[0] == found@[i as int]@);
        assert(names[rest[0].source] == sources@[found@[i as int].source as int]@);
        assert(rest.drop_first() =~= views.skip(i + 1));
        i += 1;
    }
    proof {
        let rest = views.skip(i as int);
        if i < found.len() {
            assert(rest[0] == found@[i as int]@);
            assert(names[rest[0].source] == sources@[found@[i as int].source as int]@);
        }
    }
    i
}

fn find_offered(queue: &Vec<u32>, l: &Listing, from: usize) -> (r: usize)
    requires
        from <= queue@.len(),
    ensures
        r as int == next_offered(queue@, l@, from as int),
        from <= r <= queue@.len(),
        r < queue@.len() ==> l@.lists(queue@[r as int]),
{
    let mut i: usize = from;
    while i < queue.len() && !l.has(queue[i])
        invariant
            from <= i <= queue@.len(),
            next_offered(queue@, l@, from as int) == next_offered(queue@, l@, i as int),
        decreases queue@.len() - i,
    {
        i += 1;
    }
    i
}

fn note_progress(store: &mut Store, found: &Vec<Listing>, sources: &Vec<StoredSource>, now: i64)
    requires
        old(store).wf(),
        forall|j: int| 0 <= j < found@.len() ==> (#[trigger] found@[j]).source < sources@.len(),
    ensures
        final(store).wf(),
        final(store)@ == noted(
            old(store)@,
            listing::listing_views(found@),
            store::source_views(sources@),
            now,
        ),
{
    let ghost lib = store@;
    let ghost views = listing::listing_views(found@);
    let ghost names = store::source_views(sources@);
    let mut i: usize = 0;
    assert(views.take(0) =~= Seq::<ListingView>::empty());
    while i < found.len()
        invariant
            i <= found@.len(),
            store.wf(),
            views == listing::listing_views(found@),
            names == store::source_views(sources@),
            forall|j: int| 0 <= j < found@.len() ==> (#[trigger] found@[j]).source < sources@.len(),
            store@ == noted(lib, views.take(i as int), names, now),
        decreases found@.len() - i,
    {
        proof {
            let t = views.take(i + 1);
            assert(t.drop_last() =~= views.take(i as int));
            assert(t.last() == found@[i as int]@);
        }
        let k: usize = found[i].source;
        assert(names[k as int] == sources@[k as int]@);
        if let Some(n) = found[i].highest() {
            let id: i64 = sources[k].id;
            store.update_source_progress_at(id, n, now);
        }
        i += 1;
    }
    assert(views.take(views.len() as int) =~= views);
}

// ---------------------------------------------------------------------------
// The pass
// ---------------------------------------------------------------------------

/// A pass that brings a novel up to date. It says what it needs next, takes in the
/// answers, and ends with a report.
pub struct SyncJob {
    novel_id: i64,
    state: DerivedState,
    sources: Vec<StoredSource>,
    limit: usize,
    have: Vec<u32>,
    gaps: Vec<u32>,
    found: Vec<Listing>,
    queue: Vec<u32>,
    report: SyncReport,
    step: Step,
}

impl View for SyncJob {
    type V = SyncView;

    closed spec fn view(&self) -> SyncView {
        SyncView {
            novel: self.novel_id,
            state: self.state,
            sources: store::source_views(self.sources@),
            limit: self.limit,
            have: self.have@.to_set(),
            gaps: self.gaps@.to_set(),
            found: listing::listing_views(self.found@),
            queue: self.queue@,
            report: self.report@,
            step: self.step,
        }
    }
}

impl SyncJob {
    /// What holds at every step.
    closed spec fn sound(&self) -> bool {
        &&& numbers::ascending(self.have@)
        &&& numbers::ascending(self.gaps@)
        &&& forall|j: int|
            0 <= j < self.found@.len() ==> (#[trigger] self.found@[j]).source < self.sources@.len()
    }

    /// Whether every chapter in the queue is listed by some source.
    closed spec fn queue_listed(&self) -> bool {
        forall|j: int|
            0 <= j < self.queue@.len() ==> listing::all_numbers(self@.found).contains(
                #[trigger] self.queue@[j],
            )
    }

    /// Whether the primary lists the `i`-th chapter of the queue.
    closed spec fn primary_has(&self, i: usize) -> bool {
        &&& i < self.queue@.len()
        &&& self@.primary() < self.found@.len()
        &&& self@.found[self@.primary()].lists(self.queue@[i as int])
    }

    pub closed spec fn wf(&self) -> bool {
        &&& self.sound()
        &&& match self.step {
            Step::Discovering { full, next } => next < self.sources@.len(),
            Step::Fetching { i, at, missed } => self.queue_listed() && i < self.queue@.len() && at
                < self.found@.len() && self@.found[at as int].lists(self.queue@[i as int]),
            Step::Fetched { i } => self.queue_listed() && i < self.queue@.len(),
            Step::Upgrading { i } => self.primary_has(i),
            Step::Replacing { i } => self.primary_has(i),
            Step::Done => true,
        }
    }

    /// The positions a pass holds are within its lists at every step.
    pub proof fn law_positions_are_in_range(&self)
        requires
            self.wf(),
        ensures
            in_range(self@),
    {
        assert(self.sources.len() == self.sources@.len());
        assert(self.found.len() == self.found@.len());
        assert(self.queue.len() == self.queue@.len());
    }

    /// Begin a pass over the novel's sources, in their order. `limit` caps how many
    /// chapters it fetches; 0 means all that are missing.
    pub fn start(
        store: &Store,
        novel_id: i64,
        state: DerivedState,
        sources: Vec<StoredSource>,
        limit: usize,
    ) -> (r: SyncJob)
        requires
            store.wf(),
        ensures
            r.wf(),
            r@ == SyncView::planned(
                store@,
                novel_id,
                state,
                store::source_views(sources@),
                limit,
            ),
    {
        let have = store.stored_list(novel_id);
        let gaps = store.gap_list(novel_id);
        let filling = match state {
            DerivedState::Backfilling => true,
            _ => false,
        };
        let none = sources.len() == 0;
        let mut job = SyncJob {
            novel_id,
            state,
            sources,
            limit,
            have,
            gaps,
            found: Vec::new(),
            queue: Vec::new(),
            report: SyncReport {
                newly_fetched: 0,
                from_fallback: 0,
                upgraded: 0,
                new_state: state,
                delta_mode: !filling,
                warnings: Vec::new(),
                failures: Vec::new(),
                gaps: Vec::new(),
                interrupted: false,
            },
            step: Step::Discovering { full: filling, next: 0 },
        };
        proof {
            assert(job@.have =~= store@.stored(novel_id)) by {
                assert forall|n: u32| job@.have.contains(n) == store@.stored(novel_id).contains(n) by {
                    assert(have@.contains(n) <==> store@.stored(novel_id).contains(n));
                }
            }
            assert(job@.gaps =~= store@.gap_numbers(novel_id)) by {
                assert forall|n: u32| job@.gaps.contains(n) == store@.gap_numbers(
                    novel_id,
                ).contains(n) by {
                    assert(gaps@.contains(n) <==> store@.gap_numbers(novel_id).contains(n));
                }
            }
            assert(job@ =~= (SyncView {
                novel: novel_id,
                state,
                sources: store::source_views(sources@),
                limit,
                have: store@.stored(novel_id),
                gaps: store@.gap_numbers(novel_id),
                found: seq![],
                queue: seq![],
                report: ReportView::fresh(state),
                step: Step::Discovering { full: filling, next: 0 },
            }));
        }
        if none {
            job.prepare(store);
        }
        job
    }

    /// What the pass needs next.
    pub fn next(&self) -> (r: SyncAction)
        requires
            self.wf(),
        ensures
            r@ == self@.action(),
    {
        match self.step {
            Step::Discovering { full, next } => SyncAction::Discover { source: next, full },
            Step::Fetching { i, at, missed } => {
                assert(self@.found[at as int] == self.found@[at as int]@);
                match self.found[at].last(self.queue[i]) {
                    Some(c) => SyncAction::Fetch {
                        source: self.found[at].source,
                        chapter: c.clone(),
                    },
                    None => SyncAction::Finish,
                }
            },
            Step::Fetched { i } => {
                let total: usize = self.queue.len();
                SyncAction::Report(SyncProgress::Fetching { done: i + 1, total })
            },
            Step::Upgrading { i } => {
                let total: usize = self.queue.len();
                SyncAction::Report(SyncProgress::Upgrading { done: i + 1, total })
            },
            Step::Replacing { i } => {
                let at: usize = find_primary(&self.found, &self.sources);
                assert(self@.found[at as int] == self.found@[at as int]@);
                match self.found[at].last(self.queue[i]) {
                    Some(c) => SyncAction::Fetch {
                        source: self.found[at].source,
                        chapter: c.clone(),
                    },
                    None => SyncAction::Finish,
                }
            },
            Step::Done => SyncAction::Finish,
        }
    }

    fn warn(&mut self, w: String)
        ensures
            *final(self) == (SyncJob { report: final(self).report, ..*old(self) }),
            final(self)@ == old(self)@.warned(w@),
    {
        let ghost before = self@;
        self.report.warnings.push(w);
        assert(self.report@.warnings =~= before.report.warnings.push(w@));
        assert(self@ =~= before.warned(w@));
    }

    // -- discovery ----------------------------------------------------------

    /// Take in a source's chapter list, or why it could not be had.
    pub fn on_discovered(&mut self, store: &Store, answer: Result<Vec<ChapterRef>, Failure>)
        requires
            old(self).wf(),
            store.wf(),
        ensures
            final(self).wf(),
            final(self)@ == old(self)@.discovered(store@, job::list_answer(answer)),
    {
        let ghost before = self@;
        let (full, next) = match self.step {
            Step::Discovering { full, next } => (full, next),
            _ => return,
        };
        match answer {
            Ok(refs) => {
                let ghost l = ListingView { source: next as int, refs: source::ref_views(refs@) };
                self.found.push(Listing { source: next, refs });
                assert(self@.found =~= before.found.push(l));
                assert(self@ =~= (SyncView { found: before.found.push(l), ..before }));
            },
            Err(f) => {
                assert(before.sources[next as int] == self.sources@[next as int]@);
                let mut v = text::to_chars("discovery failed for ");
                text::push_str(&mut v, self.sources[next].name.as_str());
                text::push_str(&mut v, ": ");
                text::push_str(&mut v, f.message.as_str());
                text::push_str(&mut v, "; skipping this source");
                let w = text::to_text(&v);
                self.warn(w);
            },
        }
        assert(self@ == before.listed(next, job::list_answer(answer)));
        let count: usize = self.sources.len();
        let more: usize = next + 1;
        if more < count {
            self.step = Step::Discovering { full, next: more };
        } else {
            self.survey(store, full);
        }
    }

    fn survey(&mut self, store: &Store, full: bool)
        requires
            old(self).sound(),
            old(self).sources@.len() > 0,
            store.wf(),
        ensures
            final(self).wf(),
            final(self)@ == old(self)@.surveyed(store@, full),
    {
        let ghost before = self@;
        if !full {
            let last: u32 = top_of(&self.have);
            if let Some(n) = lowest_above(&self.found, last) {
                if n as u64 > last as u64 + 1 {
                    let mut v = text::to_chars("delta check found new chapters from ch.");
                    let d = text::decimal_chars(n as u64);
                    text::push_all(&mut v, &d);
                    text::push_str(&mut v, " but last stored is ch.");
                    let d = text::decimal_chars(last as u64);
                    text::push_all(&mut v, &d);
                    text::push_str(&mut v, "; falling back to a full walk to fill the gap");
                    let w = text::to_text(&v);
                    self.warn(w);
                    self.found = Vec::new();
                    self.report.delta_mode = false;
                    self.step = Step::Discovering { full: true, next: 0 };
                    assert(self@.found =~= Seq::<ListingView>::empty());
                    assert(self@ =~= before.surveyed(store@, full));
                    return;
                }
            }
        }
        self.prepare(store);
    }

    fn prepare(&mut self, store: &Store)
        requires
            old(self).sound(),
            store.wf(),
        ensures
            final(self).wf(),
            final(self)@ == old(self)@.prepared(store@),
    {
        let ghost before = self@;
        if self.found.len() > 1 && !are_level(&self.found) {
            let detail = describe_heights(&self.found, &self.sources);
            let mut v = text::to_chars("sources report different latest chapters (");
            text::push_str(&mut v, detail.as_str());
            text::push_str(&mut v, "); gap-fill matches by number and may not align 1:1");
            let w = text::to_text(&v);
            self.warn(w);
        }
        assert(self@ == before.compared());
        self.queue = missing_numbers(&self.found, &self.have, self.limit);
        assert(self@ =~= (SyncView {
            queue: missing(before.found, before.have, before.limit),
            ..before.compared()
        }));
        self.fetch_from(store, 0);
    }

    // -- fetching -----------------------------------------------------------

    fn fetch_from(&mut self, store: &Store, i: usize)
        requires
            old(self).sound(),
            old(self).queue_listed(),
            i <= old(self).queue@.len(),
            store.wf(),
        ensures
            final(self).wf(),
            final(self)@ == old(self)@.fetching(store@, i as int),
    {
        if i < self.queue.len() {
            let at: usize = listing::find_listing(&self.found, self.queue[i], 0);
            proof {
                let n = self.queue@[i as int];
                assert(listing::all_numbers(self@.found).contains(n));
                let k = choose|k: int| 0 <= k < self@.found.len() && (#[trigger] self@.found[k]).lists(
                    n,
                );
                listing::lemma_next_listing(self@.found, n, 0);
                assert(at < self@.found.len());
                assert(self@.found[at as int] == self.found@[at as int]@);
            }
            self.step = Step::Fetching { i, at, missed: false };
        } else {
            self.review(store);
        }
    }

    /// Put a chapter on record as having no page at the primary.
    fn hole(&mut self, store: &mut Store, n: u32, now: i64) -> (r: Result<(), String>)
        requires
            old(self).sound(),
            old(store).wf(),
        ensures
            final(store).wf(),
            final(self).sound(),
            *final(self) == (SyncJob { gaps: final(self).gaps, ..*old(self) }),
            match old(self)@.holed(old(store)@, n, now) {
                Some((after, lib)) => r is Ok && final(self)@ == after && final(store)@ == lib,
                None => (r matches Err(e) && e@ == library::broken_reference()) && final(self)@
                    == old(self)@ && final(store)@ == old(store)@ && *final(self) == *old(self),
            },
    {
        let ghost before = *self;
        if !numbers::in_list(&self.gaps, n) {
            if let Err(e) = store.record_gap_at(self.novel_id, n, now) {
                return Err(e);
            }
            numbers::insert_sorted(&mut self.gaps, n);
            proof {
                assert(self@.gaps =~= before@.gaps.insert(n)) by {
                    assert forall|m: u32| self@.gaps.contains(m) == before@.gaps.insert(n).contains(
                        m,
                    ) by {
                        assert(self.gaps@.contains(m) <==> (before.gaps@.contains(m) || m == n));
                    }
                }
                assert(self@ =~= (SyncView { gaps: before@.gaps.insert(n), ..before@ }));
            }
        }
        Ok(())
    }

    /// Take a chapter off that record.
    fn unhole(&mut self, store: &mut Store, n: u32)
        requires
            old(self).sound(),
            old(store).wf(),
        ensures
            final(store).wf(),
            final(self).sound(),
            *final(self) == (SyncJob { gaps: final(self).gaps, ..*old(self) }),
            (final(self)@, final(store)@) == old(self)@.unholed(old(store)@, n),
    {
        let ghost before = *self;
        if numbers::in_list(&self.gaps, n) {
            store.clear_gap(self.novel_id, n);
            numbers::remove_sorted(&mut self.gaps, n);
            proof {
                assert(self@.gaps =~= before@.gaps.remove(n)) by {
                    assert forall|m: u32| self@.gaps.contains(m) == before@.gaps.remove(n).contains(
                        m,
                    ) by {
                        assert(self.gaps@.contains(m) <==> (before.gaps@.contains(m) && m != n));
                    }
                }
                assert(self@ =~= (SyncView { gaps: before@.gaps.remove(n), ..before@ }));
            }
        }
    }

    fn land(
        &mut self,
        store: &mut Store,
        i: usize,
        at: usize,
        missed: bool,
        c: &Chapter,
        now: i64,
    ) -> (r: Result<(), String>)
        requires
            old(self).wf(),
            old(self).step == (Step::Fetching { i, at, missed }),
            old(store).wf(),
        ensures
            final(self).wf(),
            final(store).wf(),
            match old(self)@.landed(old(store)@, i, at, missed, c@, now) {
                Some((after, lib)) => r is Ok && final(self)@ == after && final(store)@ == lib,
                None => (r matches Err(e) && e@ == library::broken_reference()) && final(self)@
                    == old(self)@ && final(store)@ == old(store)@,
            },
    {
        let ghost before = self@;
        let ghost lib = store@;
        let k: usize = self.found[at].source;
        assert(before.found[at as int] == self.found@[at as int]@);
        assert(before.sources[k as int] == self.sources@[k as int]@);
        let id: i64 = self.sources[k].id;
        let primary = self.sources[k].priority == 1;
        let n: u32 = self.queue[i];
        let stored = match store.insert_chapter_at(self.novel_id, id, c, now) {
            Ok(stored) => stored,
            Err(e) => return Err(e),
        };
        if stored {
            self.report.newly_fetched = add_one(self.report.newly_fetched);
            if at > 0 {
                self.report.from_fallback = add_one(self.report.from_fallback);
            }
        }
        self.step = Step::Fetched { i };
        let ghost after = SyncView {
            report: if stored {
                before.report.gained(at > 0)
            } else {
                before.report
            },
            step: Step::Fetched { i },
            ..before
        };
        assert(self@ =~= after);
        assert(store@ == lib.with_chapter(before.novel, id, c@, now));
        let ghost listed = *self;
        if primary {
            self.unhole(store, n);
        } else if missed {
            proof {
                store.law_store_is_valid();
                assert(store@.chapters.contains_key((before.novel, c@.number)));
            }
            let done = self.hole(store, n, now);
            assert(done is Ok);
        }
        assert(self.queue_listed()) by {
            assert(self@.found == listed@.found);
        }
        Ok(())
    }

    fn refuse(
        &mut self,
        store: &mut Store,
        i: usize,
        at: usize,
        missed: bool,
        f: &Failure,
        now: i64,
    ) -> (r: Result<(), String>)
        requires
            old(self).wf(),
            old(self).step == (Step::Fetching { i, at, missed }),
            old(store).wf(),
        ensures
            final(self).wf(),
            final(store).wf(),
            match old(self)@.refused(old(store)@, i, at, missed, f@, now) {
                Some((after, lib)) => r is Ok && final(self)@ == after && final(store)@ == lib,
                None => (r matches Err(e) && e@ == library::broken_reference()) && final(store)@
                    == old(store)@,
            },
    {
        let ghost before = self@;
        let k: usize = self.found[at].source;
        assert(before.found[at as int] == self.found@[at as int]@);
        assert(before.sources[k as int] == self.sources@[k as int]@);
        let n: u32 = self.queue[i];
        let gone = missed || (self.sources[k].priority == 1 && f.not_found);
        let known = numbers::in_list(&self.gaps, n);
        if !known {
            let mut v = text::to_chars("ch.");
            let d = text::decimal_chars(n as u64);
            text::push_all(&mut v, &d);
            text::push_str(&mut v, " from ");
            text::push_str(&mut v, self.sources[k].name.as_str());
            text::push_str(&mut v, " failed: ");
            text::push_str(&mut v, f.message.as_str());
            text::push_str(&mut v, "; trying next source");
            let w = text::to_text(&v);
            self.warn(w);
        }
        let ghost after = self@;
        let count: usize = self.found.len();
        assert(at < count);
        let next: usize = listing::find_listing(&self.found, n, at + 1);
        if next < count {
            assert(self@.found[next as int] == self.found@[next as int]@);
            self.step = Step::Fetching { i, at: next, missed: gone };
        } else {
            self.step = Step::Fetched { i };
            assert(self@ =~= (SyncView { step: Step::Fetched { i }, ..after }));
            let ghost listed = *self;
            if gone {
                let done = self.hole(store, n, now);
                assert(self.queue_listed()) by {
                    assert(self@.found == listed@.found);
                }
                return done;
            }
            self.report.failures.push(n);
            assert(self@ =~= (SyncView {
                report: ReportView { failures: after.report.failures.push(n), ..after.report },
                step: Step::Fetched { i },
                ..after
            }));
        }
        Ok(())
    }

    // -- upgrading ----------------------------------------------------------

    fn review(&mut self, store: &Store)
        requires
            old(self).sound(),
            store.wf(),
        ensures
            final(self).wf(),
            final(self)@ == old(self)@.reviewing(store@),
    {
        let ghost before = self@;
        let at: usize = find_primary(&self.found, &self.sources);
        if at < self.found.len() {
            let k: usize = self.found[at].source;
            assert(before.found[at as int] == self.found@[at as int]@);
            assert(before.sources[k as int] == self.sources@[k as int]@);
            let id: i64 = self.sources[k].id;
            let foreign = store.chapters_from_other_sources(self.novel_id, id);
            self.queue = numbers::without(&foreign, &self.gaps);
            proof {
                let want = upgradable(store@, before.novel, id, before.gaps);
                assert forall|n: u32| #[trigger] self.queue@.contains(n) <==> want.contains(n) by {
                    assert(foreign@.contains(n) <==> store::foreign_chapters(
                        store@,
                        before.novel,
                        id,
                    ).contains(n));
                }
                numbers::lemma_listing(self.queue@, want);
                assert(self@ =~= (SyncView { queue: numbers::listing(want), ..before }));
            }
            self.upgrade_from(0);
        } else {
            self.step = Step::Done;
        }
    }

    fn upgrade_from(&mut self, i: usize)
        requires
            old(self).sound(),
            old(self)@.primary() < old(self).found@.len(),
            i <= old(self).queue@.len(),
        ensures
            final(self).wf(),
            final(self)@ == old(self)@.upgrading(i as int),
    {
        let ghost before = self@;
        let at: usize = find_primary(&self.found, &self.sources);
        assert(self@.found[at as int] == self.found@[at as int]@);
        let j: usize = find_offered(&self.queue, &self.found[at], i);
        if j < self.queue.len() {
            self.step = Step::Upgrading { i: j };
        } else {
            self.step = Step::Done;
        }
        assert(self@ =~= before.upgrading(i as int));
    }

    fn replace(
        &mut self,
        store: &mut Store,
        i: usize,
        answer: Result<Chapter, Failure>,
        now: i64,
    ) -> (r: Result<(), String>)
        requires
            old(self).wf(),
            old(self).step == (Step::Replacing { i }),
            old(store).wf(),
        ensures
            final(self).wf(),
            final(store).wf(),
            match old(self)@.replaced(old(store)@, i, job::chapter_answer(answer), now) {
                Some((after, lib)) => r is Ok && final(self)@ == after && final(store)@ == lib,
                None => (r matches Err(e) && e@ == library::broken_reference()) && final(store)@
                    == old(store)@,
            },
    {
        let ghost before = self@;
        let total: usize = self.queue.len();
        assert(i < total);
        let at: usize = find_primary(&self.found, &self.sources);
        let k: usize = self.found[at].source;
        assert(before.found[at as int] == self.found@[at as int]@);
        assert(before.sources[k as int] == self.sources@[k as int]@);
        let n: u32 = self.queue[i];
        let absent = match &answer {
            Ok(c) => repair::looks_like_gate_stub(&c.paragraphs),
            Err(f) => f.not_found,
        };
        if absent {
            if let Err(e) = self.hole(store, n, now) {
                return Err(e);
            }
        } else {
            match answer {
                Ok(c) => {
                    let id: i64 = self.sources[k].id;
                    if let Err(e) = store.update_chapter_content(self.novel_id, id, &c) {
                        return Err(e);
                    }
                    self.report.upgraded = add_one(self.report.upgraded);
                    assert(self@ =~= (SyncView {
                        report: ReportView {
                            upgraded: one_more(before.report.upgraded),
                            ..before.report
                        },
                        ..before
                    }));
                },
                Err(f) => {
                    let mut v = text::to_chars("upgrade of ch.");
                    let d = text::decimal_chars(n as u64);
                    text::push_all(&mut v, &d);
                    text::push_str(&mut v, " from ");
                    text::push_str(&mut v, self.sources[k].name.as_str());
                    text::push_str(&mut v, " failed: ");
                    text::push_str(&mut v, f.message.as_str());
                    let w = text::to_text(&v);
                    self.warn(w);
                },
            }
        }
        self.upgrade_from(i + 1);
        Ok(())
    }

    // -- events -------------------------------------------------------------

    /// Take in a chapter, or why it could not be had.
    pub fn on_fetched(
        &mut self,
        store: &mut Store,
        answer: Result<Chapter, Failure>,
        now: i64,
    ) -> (r: Result<(), String>)
        requires
            old(self).wf(),
            old(store).wf(),
        ensures
            final(self).wf(),
            final(store).wf(),
            match old(self)@.fetched(old(store)@, job::chapter_answer(answer), now) {
                Some((after, lib)) => r is Ok && final(self)@ == after && final(store)@ == lib,
                None => (r matches Err(e) && e@ == library::broken_reference()) && final(store)@
                    == old(store)@,
            },
    {
        match self.step {
            Step::Fetching { i, at, missed } => match answer {
                Ok(c) => self.land(store, i, at, missed, &c, now),
                Err(f) => self.refuse(store, i, at, missed, &f, now),
            },
            Step::Replacing { i } => self.replace(store, i, answer, now),
            _ => Ok(()),
        }
    }

    /// Progress has been reported; `stop` ends the pass there.
    pub fn on_reported(&mut self, store: &Store, stop: bool)
        requires
            old(self).wf(),
            store.wf(),
        ensures
            final(self).wf(),
            final(self)@ == old(self)@.reported(store@, stop),
    {
        let ghost before = self@;
        match self.step {
            Step::Fetched { i } => {
                if stop {
                    self.report.interrupted = true;
                    self.step = Step::Done;
                    assert(self@ =~= before.reported(store@, stop));
                } else {
                    let total: usize = self.queue.len();
                    assert(i < total);
                    self.fetch_from(store, i + 1);
                }
            },
            Step::Upgrading { i } => {
                if stop {
                    self.report.interrupted = true;
                    self.step = Step::Done;
                    assert(self@ =~= before.reported(store@, stop));
                } else {
                    self.step = Step::Replacing { i };
                    assert(self@ =~= before.reported(store@, stop));
                }
            },
            _ => {},
        }
    }

    // -- the end ------------------------------------------------------------

    fn end_state(&self, target: &Vec<u32>, have: &Vec<u32>, lib: Ghost<Library>) -> (r: DerivedState)
        requires
            numbers::lists(target@, listing::all_numbers(self@.found)),
            numbers::lists(have@, lib@.stored(self@.novel)),
        ensures
            r == self@.closing_state(lib@),
    {
        let ghost all = listing::all_numbers(self@.found);
        match self.state {
            DerivedState::Backfilling => {
                let open = numbers::without(target, have);
                let open = numbers::without(&open, &self.gaps);
                proof {
                    assert forall|n: u32| #[trigger] open@.contains(n) <==> (all.contains(n)
                        && !lib@.stored(self@.novel).contains(n) && !self@.gaps.contains(n)) by {
                        assert(target@.contains(n) <==> all.contains(n));
                        assert(have@.contains(n) <==> lib@.stored(self@.novel).contains(n));
                    }
                    if open@.len() > 0 {
                        assert(open@.contains(open@[0]));
                        assert(all.contains(open@[0]));
                    }
                    if self@.outstanding(lib@) {
                        let n = choose|n: u32| #[trigger]
                            all.contains(n) && !lib@.stored(self@.novel).contains(n)
                                && !self@.gaps.contains(n);
                        assert(open@.contains(n));
                    }
                    if target@.len() > 0 {
                        assert(target@.contains(target@[0]));
                        assert(all.contains(target@[0]));
                    }
                    if exists|n: u32| #[trigger] all.contains(n) {
                        let n = choose|n: u32| #[trigger] all.contains(n);
                        assert(target@.contains(n));
                    }
                }
                if target.len() > 0 && open.len() == 0 {
                    DerivedState::Live
                } else {
                    DerivedState::Backfilling
                }
            },
            _ => {
                if self.report.newly_fetched > 0 {
                    DerivedState::Live
                } else {
                    self.state
                }
            },
        }
    }

    /// Close the pass: put the sources' progress and the novel's new state on record, and
    /// hand over the report.
    pub fn finish(self, store: &mut Store, now: i64) -> (r: SyncReport)
        requires
            self.wf(),
            old(store).wf(),
        ensures
            final(store).wf(),
            final(store)@ == self@.closing(old(store)@, now),
            r@ == self@.closing_report(old(store)@, now),
    {
        let ghost before = store@;
        note_progress(store, &self.found, &self.sources, now);
        let ghost lib = store@;
        let target = listing::target_numbers(&self.found);
        let have = store.stored_list(self.novel_id);
        let state = self.end_state(&target, &have, Ghost(lib));
        if state != self.state {
            store.set_derived_state_at(self.novel_id, state, now);
        }
        let gaps = numbers::without(&self.gaps, &have);
        proof {
            let want = Set::new(
                |n: u32| self@.gaps.contains(n) && !lib.stored(self@.novel).contains(n),
            );
            assert forall|n: u32| #[trigger] gaps@.contains(n) <==> want.contains(n) by {
                assert(have@.contains(n) <==> lib.stored(self@.novel).contains(n));
            }
            numbers::lemma_listing(gaps@, want);
        }
        let ghost view = self@;
        let mut report = self.report;
        report.new_state = state;
        report.gaps = gaps;
        assert(report@ =~= view.closing_report(before, now));
        report
    }
}

// ---------------------------------------------------------------------------
// Laws
// ---------------------------------------------------------------------------

/// Whatever a source answers, no stored chapter is lost. While missing chapters are being
/// fetched no stored chapter changes at all, so a fallback never overwrites anything. Only
/// the primary's version of a chapter can take the place of a stored one, and never if it
/// is a placeholder.
pub proof fn law_sync_keeps_chapters(
    pass: SyncView,
    lib: Library,
    answer: Result<ChapterView, FailureView>,
    now: i64,
    k: Key,
)
    requires
        pass.fetched(lib, answer, now) is Some,
        lib.chapters.contains_key(k),
    ensures
        ({
            let after = (pass.fetched(lib, answer, now)->0).1;
            &&& after.chapters.contains_key(k)
            &&& after.chapters[k] == lib.chapters[k] || (pass.step is Replacing && (
            answer matches Ok(c)) && k == (pass.novel, answer->Ok_0.number) && !repair::is_stub(
                answer->Ok_0.paragraphs,
            ) && after.chapters[k].source_id == Some(
                pass.sources[pass.found[pass.primary()].source].id,
            ))
        }),
{
}

/// A chapter that comes in is in the library from then on.
pub proof fn law_fetched_chapters_are_stored(
    pass: SyncView,
    lib: Library,
    c: ChapterView,
    now: i64,
)
    requires
        pass.step is Fetching,
        pass.fetched(lib, Ok(c), now) is Some,
    ensures
        (pass.fetched(lib, Ok(c), now)->0).1.stored(pass.novel).contains(c.number),
{
}

/// The primary's version of a chapter takes the place of a fallback's, and is exported
/// again.
pub proof fn law_the_primary_wins(
    pass: SyncView,
    lib: Library,
    i: usize,
    c: ChapterView,
    now: i64,
)
    requires
        pass.step == (Step::Replacing { i }),
        lib.stored(pass.novel).contains(c.number),
        lib.sources.contains_key(pass.sources[pass.found[pass.primary()].source].id),
        !repair::is_stub(c.paragraphs),
    ensures
        ({
            let r = pass.fetched(lib, Ok(c), now);
            let k = (pass.novel, c.number);
            &&& r is Some
            &&& (r->0).1.chapters[k].body == library::body_of(c.paragraphs)
            &&& (r->0).1.chapters[k].title == c.title
            &&& (r->0).1.chapters[k].source_id == Some(
                pass.sources[pass.found[pass.primary()].source].id,
            )
            &&& !(r->0).1.chapters[k].exported
        }),
{
}

/// A source that cannot be listed costs a warning, and the others are worked as if it were
/// not there.
pub proof fn law_a_broken_source_is_skipped(pass: SyncView, lib: Library, next: usize, e: Seq<char>)
    requires
        next < pass.sources.len(),
    ensures
        pass.listed(next, Err(e)).found == pass.found,
        pass.listed(next, Err(e)) == (SyncView {
            report: pass.listed(next, Err(e)).report,
            ..pass
        }),
        pass.listed(next, Err(e)).report.warnings.len() == pass.report.warnings.len() + 1,
{
}

/// A pass fetches just what is listed and not stored, up to its limit. Nothing is fetched
/// twice, so a second pass over unchanged lists fetches nothing.
pub proof fn law_only_missing_chapters_are_fetched(
    found: Seq<ListingView>,
    have: Set<u32>,
    limit: usize,
)
    ensures
        forall|j: int|
            0 <= j < missing(found, have, limit).len() ==> listing::all_numbers(found).contains(
                #[trigger] missing(found, have, limit)[j],
            ) && !have.contains(missing(found, have, limit)[j]),
        numbers::ascending(missing(found, have, limit)),
        limit > 0 ==> missing(found, have, limit).len() <= limit,
        limit == 0 ==> forall|n: u32| #[trigger]
            listing::all_numbers(found).contains(n) && !have.contains(n) ==> missing(
                found,
                have,
                limit,
            ).contains(n),
        listing::all_numbers(found).subset_of(have) ==> missing(found, have, limit).len() == 0,
{
    let wanted = Set::new(|n: u32| listing::all_numbers(found).contains(n) && !have.contains(n));
    numbers::lemma_listing_lists(wanted);
    let all = numbers::listing(wanted);
    let m = missing(found, have, limit);
    assert forall|j: int| 0 <= j < m.len() implies wanted.contains(#[trigger] m[j]) by {
        assert(all[j] == m[j]);
        assert(all.contains(all[j]));
    }
    assert forall|a: int, b: int| 0 <= a < b < m.len() implies #[trigger] m[a]
        < #[trigger] m[b] by {
        assert(all[a] < all[b]);
    }
    assert forall|n: u32| #[trigger] listing::all_numbers(found).contains(n) && !have.contains(
        n,
    ) implies all.contains(n) by {
        assert(wanted.contains(n));
    }
    if listing::all_numbers(found).subset_of(have) && m.len() > 0 {
        assert(wanted.contains(m[0]));
    }
}

/// A page that the primary does not have is put on record, not counted as a failure, and
/// does not keep the novel from being caught up.
pub proof fn law_a_missing_page_does_not_wedge_a_backfill(pass: SyncView, lib: Library)
    requires
        pass.state == DerivedState::Backfilling,
        exists|n: u32| #[trigger] listing::all_numbers(pass.found).contains(n),
        forall|n: u32| #[trigger]
            listing::all_numbers(pass.found).contains(n) ==> lib.stored(pass.novel).contains(n)
                || pass.gaps.contains(n),
    ensures
        pass.closing_state(lib) == DerivedState::Live,
{
}

/// A novel with a listed chapter still to fetch stays a backfill, so one that was cut short
/// is not taken for caught up.
pub proof fn law_an_unfinished_backfill_stays_one(pass: SyncView, lib: Library, n: u32)
    requires
        pass.state == DerivedState::Backfilling,
        listing::all_numbers(pass.found).contains(n),
        !lib.stored(pass.novel).contains(n),
        !pass.gaps.contains(n),
    ensures
        pass.closing_state(lib) == DerivedState::Backfilling,
{
}

/// A caught-up novel never goes back to being filled by a pass, and one that gains a
/// chapter is live.
pub proof fn law_new_chapters_make_a_novel_live(pass: SyncView, lib: Library)
    requires
        pass.state != DerivedState::Backfilling,
    ensures
        pass.closing_state(lib) != DerivedState::Backfilling,
        pass.report.newly_fetched > 0 ==> pass.closing_state(lib) == DerivedState::Live,
{
}

/// When the primary says that a page is not there, and no other source has the chapter, it
/// is recorded as a hole; nothing else in the library changes.
pub proof fn law_a_missing_page_is_recorded(
    pass: SyncView,
    lib: Library,
    i: usize,
    at: usize,
    f: FailureView,
    now: i64,
)
    requires
        pass.step == (Step::Fetching { i, at, missed: false }),
        0 <= at < pass.found.len(),
        pass.sources[pass.found[at as int].source].priority == 1,
        f.not_found,
        listing::next_listing(pass.found, pass.queue[i as int], at + 1) >= pass.found.len(),
        lib.novels.contains_key(pass.novel),
        !lib.gaps.contains_key((pass.novel, pass.queue[i as int])),
        !pass.gaps.contains(pass.queue[i as int]),
    ensures
        ({
            let n = pass.queue[i as int];
            let r = pass.fetched(lib, Err(f), now);
            &&& r is Some
            &&& (r->0).0.gaps.contains(n)
            &&& (r->0).0.report.failures == pass.report.failures
            &&& (r->0).1 == (Library { gaps: lib.gaps.insert((pass.novel, n), now), ..lib })
        }),
{
}

/// A hole closes once the primary has the chapter.
pub proof fn law_a_hole_closes_when_the_chapter_reappears(
    pass: SyncView,
    lib: Library,
    i: usize,
    at: usize,
    missed: bool,
    c: ChapterView,
    now: i64,
)
    requires
        pass.step == (Step::Fetching { i, at, missed }),
        pass.sources[pass.found[at as int].source].priority == 1,
        pass.gaps.contains(pass.queue[i as int]),
        pass.fetched(lib, Ok(c), now) is Some,
    ensures
        !(pass.fetched(lib, Ok(c), now)->0).0.gaps.contains(pass.queue[i as int]),
        !(pass.fetched(lib, Ok(c), now)->0).1.gap_numbers(pass.novel).contains(
            pass.queue[i as int],
        ),
{
}

/// How much of a pass is left: the phase, what is left of it, and what is left of the
/// chapter at hand.
pub open spec fn left(pass: SyncView) -> (int, int, int) {
    match pass.step {
        Step::Discovering { full, next } => (
            if full {
                3
            } else {
                4
            },
            pass.sources.len() - next,
            0,
        ),
        Step::Fetching { i, at, missed } => (
            2,
            pass.queue.len() - i,
            pass.found.len() - at,
        ),
        Step::Fetched { i } => (2, pass.queue.len() - i, 0),
        Step::Upgrading { i } => (1, pass.queue.len() - i, 1),
        Step::Replacing { i } => (1, pass.queue.len() - i, 0),
        Step::Done => (0, 0, 0),
    }
}

pub open spec fn is_less(a: (int, int, int), b: (int, int, int)) -> bool {
    a.0 < b.0 || (a.0 == b.0 && (a.1 < b.1 || (a.1 == b.1 && a.2 < b.2)))
}

/// Whether the positions a pass holds are within its lists.
pub open spec fn in_range(pass: SyncView) -> bool {
    &&& pass.sources.len() <= usize::MAX
    &&& pass.found.len() <= usize::MAX
    &&& pass.queue.len() <= usize::MAX
    &&& match pass.step {
        Step::Discovering { full, next } => next < pass.sources.len(),
        Step::Fetching { i, at, missed } => i < pass.queue.len() && at < pass.found.len(),
        Step::Fetched { i } => i < pass.queue.len(),
        Step::Upgrading { i } => i < pass.queue.len(),
        Step::Replacing { i } => i < pass.queue.len(),
        Step::Done => true,
    }
}

proof fn lemma_next_offered(queue: Seq<u32>, l: ListingView, from: int)
    requires
        0 <= from <= queue.len(),
    ensures
        from <= next_offered(queue, l, from) <= queue.len(),
        next_offered(queue, l, from) < queue.len() ==> l.lists(
            queue[next_offered(queue, l, from)],
        ),
        forall|j: int|
            from <= j < next_offered(queue, l, from) ==> !l.lists(#[trigger] queue[j]),
    decreases queue.len() - from,
{
    if from < queue.len() && !l.lists(queue[from]) {
        lemma_next_offered(queue, l, from + 1);
    }
}

proof fn lemma_upgrading_moves_on(pass: SyncView, i: int)
    requires
        0 <= i <= pass.queue.len() <= usize::MAX,
    ensures
        left(pass.upgrading(i)).0 <= 1,
        left(pass.upgrading(i)).0 == 1 ==> left(pass.upgrading(i)).1 <= pass.queue.len() - i,
{
    lemma_next_offered(pass.queue, pass.found[pass.primary()], i);
}

proof fn lemma_reviewing_moves_on(pass: SyncView, lib: Library)
    ensures
        left(pass.reviewing(lib)).0 <= 1,
{
}

proof fn lemma_prepared_moves_on(pass: SyncView, lib: Library)
    ensures
        left(pass.prepared(lib)).0 <= 2,
{
    let ready = SyncView {
        queue: missing(pass.found, pass.have, pass.limit),
        ..pass.compared()
    };
    if ready.queue.len() == 0 {
        lemma_reviewing_moves_on(ready, lib);
    }
}

/// Every answer, whatever it is, brings a pass closer to its end.
pub proof fn law_a_pass_ends(
    pass: SyncView,
    lib: Library,
    list: Result<Seq<RefView>, Seq<char>>,
    answer: Result<ChapterView, FailureView>,
    stop: bool,
    now: i64,
)
    requires
        in_range(pass),
    ensures
        match pass.action() {
            SyncActionView::Discover { .. } => is_less(left(pass.discovered(lib, list)), left(pass)),
            SyncActionView::Fetch { .. } => pass.fetched(lib, answer, now) is Some ==> is_less(
                left((pass.fetched(lib, answer, now)->0).0),
                left(pass),
            ),
            SyncActionView::Report(_) => is_less(left(pass.reported(lib, stop)), left(pass)),
            SyncActionView::Finish => pass.step is Done,
        },
{
    match pass.step {
        Step::Discovering { full, next } => {
            let after = pass.listed(next, list);
            if next + 1 >= pass.sources.len() {
                lemma_prepared_moves_on(after, lib);
            }
        },
        Step::Fetching { i, at, missed } => {
            listing::lemma_next_listing(pass.found, pass.queue[i as int], at + 1);
        },
        Step::Fetched { i } => {
            if !stop {
                if i + 1 < pass.queue.len() {
                } else {
                    lemma_reviewing_moves_on(pass, lib);
                }
            }
        },
        Step::Upgrading { i } => {},
        Step::Replacing { i } => {
            if pass.fetched(lib, answer, now) is Some {
                let n = pass.queue[i as int];
                let absent = match answer {
                    Ok(c) => repair::is_stub(c.paragraphs),
                    Err(f) => f.not_found,
                };
                if absent {
                    let held = pass.holed(lib, n, now)->0;
                    lemma_upgrading_moves_on(held.0, i + 1);
                } else {
                    match answer {
                        Ok(c) => lemma_upgrading_moves_on(
                            SyncView {
                                report: ReportView {
                                    upgraded: one_more(pass.report.upgraded),
                                    ..pass.report
                                },
                                ..pass
                            },
                            i + 1,
                        ),
                        Err(f) => lemma_upgrading_moves_on(
                            pass.warned(
                                "upgrade of ch."@ + text::decimal(n as nat) + " from "@
                                    + pass.sources[pass.found[pass.primary()].source].name
                                    + " failed: "@ + f.message,
                            ),
                            i + 1,
                        ),
                    }
                }
            }
        },
        Step::Done => {},
    }
}

/// Whether a chapter is dealt with: it is stored, known to have no page at the primary, or
/// reported as a failure.
pub open spec fn is_settled(pass: SyncView, lib: Library, n: u32) -> bool {
    lib.stored(pass.novel).contains(n) || pass.gaps.contains(n)
        || pass.report.failures.contains(n)
}

/// Whether everything a pass has been through is dealt with.
pub open spec fn keeps_account(pass: SyncView, lib: Library) -> bool {
    let wanted = missing(pass.found, pass.have, pass.limit);
    &&& pass.have.subset_of(lib.stored(pass.novel))
    &&& match pass.step {
        Step::Discovering { .. } => true,
        Step::Fetching { i, at, missed } => pass.queue == wanted && forall|j: int|
            0 <= j < i ==> is_settled(pass, lib, #[trigger] wanted[j]),
        Step::Fetched { i } => pass.queue == wanted && forall|j: int|
            0 <= j <= i ==> is_settled(pass, lib, #[trigger] wanted[j]),
        _ => pass.report.interrupted || forall|j: int|
            0 <= j < wanted.len() ==> is_settled(pass, lib, #[trigger] wanted[j]),
    }
}

/// Whether an answer is for the chapter that was asked for.
pub open spec fn answers(pass: SyncView, answer: Result<ChapterView, FailureView>) -> bool {
    match (pass.step, answer) {
        (Step::Fetching { i, at, missed }, Ok(c)) => c.number == pass.queue[i as int],
        _ => true,
    }
}

/// A pass begins with nothing to answer for.
pub proof fn law_a_fresh_pass_keeps_account(
    lib: Library,
    novel: i64,
    state: DerivedState,
    sources: Seq<SourceView>,
    limit: usize,
)
    ensures
        keeps_account(SyncView::planned(lib, novel, state, sources, limit), lib),
{
    let start = SyncView {
        novel,
        state,
        sources,
        limit,
        have: lib.stored(novel),
        gaps: lib.gap_numbers(novel),
        found: seq![],
        queue: seq![],
        report: ReportView::fresh(state),
        step: Step::Discovering { full: state == DerivedState::Backfilling, next: 0 },
    };
    if sources.len() == 0 {
        lemma_preparing_keeps_account(start, lib);
    }
}

proof fn lemma_preparing_keeps_account(pass: SyncView, lib: Library)
    requires
        pass.have.subset_of(lib.stored(pass.novel)),
    ensures
        keeps_account(pass.prepared(lib), lib),
{
}

/// Nothing is passed over in silence: whatever the sources answer, every chapter a pass
/// has been through is stored, on record as missing, or reported as a failure.
pub proof fn law_nothing_is_passed_over(
    pass: SyncView,
    lib: Library,
    list: Result<Seq<RefView>, Seq<char>>,
    answer: Result<ChapterView, FailureView>,
    stop: bool,
    now: i64,
)
    requires
        in_range(pass),
        keeps_account(pass, lib),
        answers(pass, answer),
    ensures
        keeps_account(pass.discovered(lib, list), lib),
        keeps_account(pass.reported(lib, stop), lib),
        pass.fetched(lib, answer, now) matches Some((after, with)) ==> keeps_account(after, with),
{
    let wanted = missing(pass.found, pass.have, pass.limit);
    match pass.step {
        Step::Discovering { full, next } => {
            lemma_preparing_keeps_account(pass.listed(next, list), lib);
        },
        Step::Fetching { i, at, missed } => {
            if let Some((after, with)) = pass.fetched(lib, answer, now) {
                assert forall|j: int| 0 <= j < i implies is_settled(
                    after,
                    with,
                    #[trigger] wanted[j],
                ) by {
                    assert(is_settled(pass, lib, wanted[j]));
                    lemma_still_settled(pass, lib, answer, now, wanted[j]);
                }
                if after.step is Fetched {
                    lemma_now_settled(pass, lib, answer, now);
                }
            }
        },
        Step::Replacing { i } => {
            if let Some((after, with)) = pass.fetched(lib, answer, now) {
                assert(with.stored(pass.novel) =~= lib.stored(pass.novel));
                if !pass.report.interrupted {
                    assert forall|j: int| 0 <= j < wanted.len() implies is_settled(
                        after,
                        with,
                        #[trigger] wanted[j],
                    ) by {
                        assert(is_settled(pass, lib, wanted[j]));
                    }
                }
            }
        },
        _ => {},
    }
}

proof fn lemma_still_settled(
    pass: SyncView,
    lib: Library,
    answer: Result<ChapterView, FailureView>,
    now: i64,
    n: u32,
)
    requires
        pass.step is Fetching,
        answers(pass, answer),
        is_settled(pass, lib, n),
        pass.fetched(lib, answer, now) is Some,
    ensures
        is_settled((pass.fetched(lib, answer, now)->0).0, (pass.fetched(lib, answer, now)->0).1, n),
{
    let (after, with) = pass.fetched(lib, answer, now)->0;
    if pass.report.failures.contains(n) {
        let k = choose|k: int| 0 <= k < pass.report.failures.len() && pass.report.failures[k] == n;
        assert(after.report.failures[k] == n);
    }
}

proof fn lemma_now_settled(
    pass: SyncView,
    lib: Library,
    answer: Result<ChapterView, FailureView>,
    now: i64,
)
    requires
        pass.step is Fetching,
        answers(pass, answer),
        pass.fetched(lib, answer, now) is Some,
        (pass.fetched(lib, answer, now)->0).0.step is Fetched,
    ensures
        is_settled(
            (pass.fetched(lib, answer, now)->0).0,
            (pass.fetched(lib, answer, now)->0).1,
            pass.queue[pass.step->Fetching_i as int],
        ),
{
    let (after, with) = pass.fetched(lib, answer, now)->0;
    let n = pass.queue[pass.step->Fetching_i as int];
    match answer {
        Ok(c) => {
            assert(with.stored(pass.novel).contains(n));
        },
        Err(f) => {
            if after.report.failures.len() > 0 {
                assert(after.report.failures.last() == n || after.gaps.contains(n));
            }
        },
    }
}

/// A pass that ran to its end without a limit has dealt with every chapter that any source
/// lists.
pub proof fn law_a_full_pass_settles_every_chapter(pass: SyncView, lib: Library, n: u32)
    requires
        keeps_account(pass, lib),
        pass.step is Done,
        !pass.report.interrupted,
        pass.limit == 0,
        listing::all_numbers(pass.found).contains(n),
    ensures
        is_settled(pass, lib, n),
{
    law_only_missing_chapters_are_fetched(pass.found, pass.have, pass.limit);
    let wanted = missing(pass.found, pass.have, pass.limit);
    if !pass.have.contains(n) {
        assert(wanted.contains(n));
        let j = choose|j: int| 0 <= j < wanted.len() && wanted[j] == n;
        assert(is_settled(pass, lib, wanted[j]));
    }
}

/// Sources are tried in their order: a chapter is asked of the first that lists it, and of
/// a later one only when those before it could not hand it over.
pub proof fn law_sources_are_tried_in_order(
    pass: SyncView,
    lib: Library,
    i: usize,
    at: usize,
    missed: bool,
    f: FailureView,
    now: i64,
)
    requires
        in_range(pass),
        pass.step == (Step::Fetching { i, at, missed }),
    ensures
        ({
            let n = pass.queue[i as int];
            let first = listing::next_listing(pass.found, n, 0);
            &&& pass.fetching(lib, i as int).step == (Step::Fetching {
                i,
                at: first as usize,
                missed: false,
            })
            &&& forall|j: int| 0 <= j < first ==> !(#[trigger] pass.found[j]).lists(n)
            &&& pass.fetched(lib, Err(f), now) matches Some((after, _)) ==> (
            after.step matches Step::Fetching { at: next, .. } ==> at < next
                && pass.found[next as int].lists(n) && forall|j: int|
                at < j < next ==> !(#[trigger] pass.found[j]).lists(n))
        }),
{
    let n = pass.queue[i as int];
    listing::lemma_next_listing(pass.found, n, 0);
    listing::lemma_next_listing(pass.found, n, at + 1);
}

/// What was pruned is fetched again when a source lists it: pruning costs nothing that the
/// next pass cannot bring back.
pub proof fn law_pruned_chapters_are_fetched_again(
    lib: Library,
    novel: i64,
    n: u32,
    found: Seq<ListingView>,
    now: i64,
    days: u32,
)
    requires
        lib.purgeable((novel, n), now, days),
        listing::all_numbers(found).contains(n),
    ensures
        missing(found, lib.purged(now, days).stored(novel), 0).contains(n),
{
    law_only_missing_chapters_are_fetched(found, lib.purged(now, days).stored(novel), 0);
}

/// With a limit, the chapters to fetch are the lowest of the listed ones that are not stored,
/// as many as the limit allows; without one they are all of them. They come in ascending order.
pub proof fn law_the_lowest_missing_come_first(
    found: Seq<ListingView>,
    have: Set<u32>,
    limit: usize,
    k: int,
    i: int,
)
    ensures
        ({
            let queue = missing(found, have, limit);
            &&& forall|a: int, b: int|
                0 <= a < b < queue.len() ==> #[trigger] queue[a] < #[trigger] queue[b]
            &&& limit > 0 ==> queue.len() <= limit
            &&& forall|a: int|
                0 <= a < queue.len() ==> !have.contains(#[trigger] queue[a]) && exists|x: int, y: int|

                    0 <= x < found.len() && 0 <= y < found[x].refs.len() && (
                    #[trigger] found[x].refs[y]).number == queue[a]
            &&& 0 <= k < found.len() && 0 <= i < found[k].refs.len() && !have.contains(
                found[k].refs[i].number,
            ) && !queue.contains(found[k].refs[i].number) ==> {
                &&& limit > 0
                &&& queue.len() == limit
                &&& forall|a: int|
                    0 <= a < queue.len() ==> #[trigger] queue[a] < found[k].refs[i].number
            }
        }),
{
    let wanted = Set::new(|n: u32| listing::all_numbers(found).contains(n) && !have.contains(n));
    let all = numbers::listing(wanted);
    let queue = missing(found, have, limit);
    numbers::lemma_listing_lists(wanted);
    assert forall|a: int| 0 <= a < queue.len() implies !have.contains(#[trigger] queue[a])
        && exists|x: int, y: int|
        0 <= x < found.len() && 0 <= y < found[x].refs.len() && (#[trigger] found[x].refs[y]).number
            == queue[a] by {
        assert(queue[a] == all[a]);
        assert(all.contains(all[a]));
        assert(wanted.contains(queue[a]));
        listing::law_listed_numbers_are_those_of_the_chapters(found, queue[a]);
    }
    if 0 <= k < found.len() && 0 <= i < found[k].refs.len() && !have.contains(
        found[k].refs[i].number,
    ) && !queue.contains(found[k].refs[i].number) {
        let n = found[k].refs[i].number;
        assert(found[k].refs[i].number == n);
        listing::law_listed_numbers_are_those_of_the_chapters(found, n);
        assert(wanted.contains(n));
        assert(all.contains(n));
        let at = choose|at: int| 0 <= at < all.len() && all[at] == n;
        assert(all[at] == n);
        assert(queue != all);
        if at < queue.len() {
            assert(queue[at] == n);
        }
        assert forall|a: int| 0 <= a < queue.len() implies #[trigger] queue[a] < n by {
            assert(queue[a] == all[a]);
        }
    }
}

/// Once the sources are listed a pass fetches what is missing, from the lowest on, each from the
/// first source that lists it.
pub proof fn law_fetching_starts_at_the_lowest_missing(pass: SyncView, lib: Library)
    requires
        missing(pass.found, pass.have, pass.limit).len() > 0,
        pass.found.len() <= usize::MAX,
    ensures
        ({
            let ready = pass.prepared(lib);
            let n = ready.queue[0];
            &&& ready.queue == missing(pass.found, pass.have, pass.limit)
            &&& ready.found == pass.found
            &&& ready.have == pass.have
            &&& ready.gaps == pass.gaps
            &&& ready.step matches Step::Fetching { i, at, missed } && i == 0 && !missed && at
                < pass.found.len() && pass.found[at as int].lists(n) && forall|j: int|
                0 <= j < at ==> !(#[trigger] pass.found[j]).lists(n)
            &&& ready.report == (ReportView { warnings: ready.report.warnings, ..pass.report })
        }),
{
    let q = missing(pass.found, pass.have, pass.limit);
    law_the_lowest_missing_come_first(pass.found, pass.have, pass.limit, 0, 0);
    listing::lemma_next_listing(pass.found, q[0], 0);
    lemma_missing_is_listed(pass.found, pass.have, pass.limit, 0);
}

proof fn lemma_missing_is_listed(found: Seq<ListingView>, have: Set<u32>, limit: usize, a: int)
    requires
        0 <= a < missing(found, have, limit).len(),
    ensures
        listing::next_listing(found, missing(found, have, limit)[a], 0) < found.len(),
        listing::all_numbers(found).contains(missing(found, have, limit)[a]),
{
    let n = missing(found, have, limit)[a];
    law_the_lowest_missing_come_first(found, have, limit, 0, 0);
    listing::law_listed_numbers_are_those_of_the_chapters(found, n);
    listing::lemma_next_listing(found, n, 0);
    let k = choose|k: int| 0 <= k < found.len() && (#[trigger] found[k]).lists(n);
    assert(found[k].lists(n));
}

/// A chapter is asked of the source that is up, under its own number and address: one that the
/// source lists with that number, the last where it lists several.
pub proof fn law_a_chapter_is_asked_for_as_listed(pass: SyncView, i: usize, at: usize, missed: bool)
    requires
        pass.step == (Step::Fetching { i, at, missed }),
        i < pass.queue.len(),
        at < pass.found.len(),
        pass.found[at as int].lists(pass.queue[i as int]),
    ensures
        pass.action() matches SyncActionView::Fetch { source, chapter } && {
            &&& source == pass.found[at as int].source
            &&& chapter.number == pass.queue[i as int]
            &&& exists|j: int|
                0 <= j < pass.found[at as int].refs.len() && #[trigger] pass.found[at as int].refs[j]
                    == chapter && forall|m: int|
                    j < m < pass.found[at as int].refs.len() ==> (
                    #[trigger] pass.found[at as int].refs[m]).number != chapter.number
        },
{
    let l = pass.found[at as int];
    listing::lemma_last_at(l.refs, pass.queue[i as int]);
    let j = listing::last_at(l.refs, pass.queue[i as int]);
    let x = choose|x: int| 0 <= x < l.refs.len() && (#[trigger] l.refs[x]).number
        == pass.queue[i as int];
    assert(l.refs[x].number == pass.queue[i as int]);
    assert(l.refs[j].number == pass.queue[i as int]);
}

/// The replacement of a chapter is asked of the primary source, under the chapter's own number
/// and address.
pub proof fn law_a_replacement_is_asked_of_the_primary(pass: SyncView, i: usize)
    requires
        pass.step == (Step::Replacing { i }),
        i < pass.queue.len(),
        pass.primary() < pass.found.len(),
        pass.found[pass.primary()].lists(pass.queue[i as int]),
    ensures
        pass.action() matches SyncActionView::Fetch { source, chapter } && {
            &&& pass.sources[source].priority == 1
            &&& chapter.number == pass.queue[i as int]
            &&& exists|k: int, j: int|
                0 <= k < pass.found.len() && pass.found[k].source == source && 0 <= j
                    < pass.found[k].refs.len() && #[trigger] pass.found[k].refs[j] == chapter
        },
{
    lemma_primary_listing(pass.found, pass.sources);
    let l = pass.found[pass.primary()];
    listing::lemma_last_at(l.refs, pass.queue[i as int]);
    let j = listing::last_at(l.refs, pass.queue[i as int]);
    let x = choose|x: int| 0 <= x < l.refs.len() && (#[trigger] l.refs[x]).number
        == pass.queue[i as int];
    assert(l.refs[x].number == pass.queue[i as int]);
    assert(pass.found[pass.primary()].refs[j].number == pass.queue[i as int]);
}

proof fn lemma_primary_listing(found: Seq<ListingView>, sources: Seq<SourceView>)
    ensures
        0 <= primary_listing(found, sources) <= found.len(),
        primary_listing(found, sources) < found.len() ==> sources[found[primary_listing(
            found,
            sources,
        )].source].priority == 1,
        forall|j: int|
            0 <= j < primary_listing(found, sources) ==> sources[(
            #[trigger] found[j]).source].priority != 1,
    decreases found.len(),
{
    if found.len() > 0 && sources[found[0].source].priority != 1 {
        let t = found.drop_first();
        lemma_primary_listing(t, sources);
        let p = primary_listing(t, sources);
        if p < t.len() {
            assert(t[p] == found[p + 1]);
        }
        assert forall|j: int| 0 <= j < p + 1 implies sources[(#[trigger] found[j]).source].priority
            != 1 by {
            if j > 0 {
                assert(t[j - 1] == found[j]);
            }
        }
    }
}

/// A novel still being filled has every source walked in full; any other has each looked at for
/// its latest chapters. The sources are asked one after the other, from the first.
pub proof fn law_every_source_is_listed_in_turn(
    lib: Library,
    novel: i64,
    state: DerivedState,
    sources: Seq<SourceView>,
    limit: usize,
    pass: SyncView,
    full: bool,
    next: usize,
    answer: Result<Seq<RefView>, Seq<char>>,
)
    requires
        sources.len() > 0,
        pass.step == (Step::Discovering { full, next }),
        next + 1 < pass.sources.len() <= usize::MAX,
    ensures
        SyncView::planned(lib, novel, state, sources, limit).action() == (SyncActionView::Discover {
            source: 0,
            full: state == DerivedState::Backfilling,
        }),
        SyncView::planned(lib, novel, state, sources, limit).report.delta_mode <==> state
            != DerivedState::Backfilling,
        SyncView::planned(lib, novel, state, sources, limit).limit == limit,
        SyncView::planned(lib, novel, state, sources, limit).novel == novel,
        SyncView::planned(lib, novel, state, sources, limit).sources == sources,
        forall|n: u32|
            SyncView::planned(lib, novel, state, sources, limit).have.contains(n)
                <==> #[trigger] lib.chapters.contains_key((novel, n)),
        forall|n: u32|
            SyncView::planned(lib, novel, state, sources, limit).gaps.contains(n)
                <==> #[trigger] lib.gaps.contains_key((novel, n)),
        pass.discovered(lib, answer).action() == (SyncActionView::Discover {
            source: next + 1,
            full,
        }),
        answer matches Ok(refs) ==> pass.discovered(lib, answer).found.len() == pass.found.len() + 1
            && pass.discovered(lib, answer).found.drop_last() == pass.found && pass.discovered(
            lib,
            answer,
        ).found.last().source == next && pass.discovered(lib, answer).found.last().refs == refs
            && pass.discovered(lib, answer).report == pass.report,
        answer is Err ==> pass.discovered(lib, answer).found == pass.found && pass.discovered(
            lib,
            answer,
        ).report.warnings.len() == pass.report.warnings.len() + 1,
{
    if let Ok(refs) = answer {
        assert(pass.discovered(lib, answer).found.drop_last() =~= pass.found);
    }
}

proof fn lemma_top(have: Set<u32>, bound: int)
    requires
        0 <= bound <= u32::MAX,
        forall|m: u32| #[trigger] have.contains(m) ==> m <= bound,
    ensures
        is_top(have, top(have)),
    decreases bound,
{
    if have.contains(bound as u32) {
        assert(is_top(have, bound as u32));
    } else if bound == 0 {
        assert forall|m: u32| !#[trigger] have.contains(m) by {
            if have.contains(m) {
                assert(m == 0);
            }
        }
        assert(is_top(have, 0));
    } else {
        assert forall|m: u32| #[trigger] have.contains(m) implies m <= bound - 1 by {
            assert(m != bound);
        }
        lemma_top(have, bound - 1);
    }
}

proof fn lemma_first_above(found: Seq<ListingView>, floor: u32, n: u32)
    requires
        listing::all_numbers(found).contains(n),
        n > floor,
    ensures
        first_above(found, floor) matches Some(f) && is_first_above(found, floor, f) && f <= n,
    decreases n,
{
    if is_first_above(found, floor, n) {
        let f = choose|f: u32| is_first_above(found, floor, f);
        assert(is_first_above(found, floor, f));
    } else {
        let m = choose|m: u32| #[trigger]
            listing::all_numbers(found).contains(m) && m > floor && m < n;
        lemma_first_above(found, floor, m);
    }
}

/// A look at the latest chapters leaves a hole where it shows chapters beyond the last stored
/// one, but not the one that follows it; then every source is walked in full. Where it shows
/// the next one, or nothing new, it does not.
pub proof fn law_a_hole_asks_for_a_full_walk(pass: SyncView, lib: Library, last: u32, n: u32)
    requires
        pass.have.contains(last) || (last == 0 && pass.have == Set::<u32>::empty()),
        forall|m: u32| #[trigger] pass.have.contains(m) ==> m <= last,
        last < u32::MAX,
    ensures
        !listing::all_numbers(pass.found).contains((last + 1) as u32) && n > last
            && listing::all_numbers(pass.found).contains(n) ==> {
            let walk = pass.surveyed(lib, false);
            &&& walk.step == (Step::Discovering { full: true, next: 0 })
            &&& walk.found.len() == 0
            &&& !walk.report.delta_mode
            &&& walk.report.warnings.len() == pass.report.warnings.len() + 1
        },
        listing::all_numbers(pass.found).contains((last + 1) as u32) ==> pass.surveyed(lib, false)
            == pass.prepared(lib),
        (forall|m: u32| #[trigger] listing::all_numbers(pass.found).contains(m) ==> m <= last)
            ==> pass.surveyed(lib, false) == pass.prepared(lib),
        pass.surveyed(lib, true) == pass.prepared(lib),
{
    lemma_top(pass.have, u32::MAX as int);
    let t = top(pass.have);
    assert(is_top(pass.have, t));
    if pass.have.contains(last) {
        assert(t == last) by {
            if !pass.have.contains(t) {
                assert(!pass.have.contains(last));
            }
        }
    } else {
        assert(!pass.have.contains(t));
    }
    let next = (last + 1) as u32;
    if listing::all_numbers(pass.found).contains(next) {
        lemma_first_above(pass.found, last, next);
    } else if n > last && listing::all_numbers(pass.found).contains(n) {
        lemma_first_above(pass.found, last, n);
    }
    if let Some(f) = first_above(pass.found, last) {
        assert(is_first_above(pass.found, last, f));
    }
}

/// A fetched chapter counts once: as newly fetched, and as from a fallback where it did not come
/// from the first listing. One whose number is taken counts for nothing. Either way it is stored
/// as it came, under the source it came from, and reported next.
pub proof fn law_a_landed_chapter_is_stored_and_counted(
    pass: SyncView,
    lib: Library,
    i: usize,
    at: usize,
    missed: bool,
    c: ChapterView,
    now: i64,
)
    requires
        i < pass.queue.len(),
        at < pass.found.len(),
        0 <= pass.found[at as int].source < pass.sources.len(),
        lib.novels.contains_key(pass.novel),
        lib.sources.contains_key(pass.sources[pass.found[at as int].source].id),
        pass.report.newly_fetched < u32::MAX,
        pass.report.from_fallback < u32::MAX,
        pass.step == (Step::Fetching { i, at, missed }),
    ensures
        pass.fetched(lib, Ok(c), now) matches Some((after, with)) && {
            let k = (pass.novel, c.number);
            let taken = lib.chapters.contains_key(k);
            let source = pass.sources[pass.found[at as int].source];
            &&& with.chapters.contains_key(k)
            &&& taken ==> with.chapters == lib.chapters
            &&& !taken ==> {
                &&& with.chapters.remove(k) == lib.chapters
                &&& with.chapters[k].title == c.title
                &&& with.chapters[k].body == text::join(c.paragraphs, seq!['\n', '\n'])
                &&& with.chapters[k].source_id == Some(source.id)
                &&& with.chapters[k].fetched_at == now
                &&& !with.chapters[k].exported
            }
            &&& after.report.newly_fetched == pass.report.newly_fetched + (if taken {
                0int
            } else {
                1
            })
            &&& after.report.from_fallback == pass.report.from_fallback + (if !taken && at > 0 {
                1int
            } else {
                0
            })
            &&& after.report.warnings == pass.report.warnings
            &&& after.report.failures == pass.report.failures
            &&& after.report.upgraded == pass.report.upgraded
            &&& after.step == (Step::Fetched { i })
            &&& after.queue == pass.queue
            &&& source.priority == 1 ==> !after.gaps.contains(pass.queue[i as int])
            &&& source.priority != 1 && missed ==> after.gaps.contains(pass.queue[i as int])
            &&& source.priority != 1 && !missed ==> after.gaps == pass.gaps && with.gaps == lib.gaps
        },
{
    let source = pass.sources[pass.found[at as int].source];
    if !lib.chapters.contains_key((pass.novel, c.number)) {
        crate::laws::law_a_stored_chapter_is_on_record(lib, pass.novel, source.id, c, now);
    }
}

/// A failed fetch goes on to the next source that lists the chapter. Behind the last it is a hole
/// where the primary has no such page, and otherwise one failure of that number. The library
/// keeps its chapters either way.
pub proof fn law_a_failed_fetch_tries_the_next_source(
    pass: SyncView,
    lib: Library,
    i: usize,
    at: usize,
    missed: bool,
    f: FailureView,
    now: i64,
    j: int,
)
    requires
        i < pass.queue.len(),
        at < pass.found.len() <= usize::MAX,
        lib.novels.contains_key(pass.novel),
        pass.step == (Step::Fetching { i, at, missed }),
    ensures
        pass.fetched(lib, Err(f), now) matches Some((after, with)) && {
            let n = pass.queue[i as int];
            let source = pass.sources[pass.found[at as int].source];
            let gone = missed || (source.priority == 1 && f.not_found);
            &&& with.chapters == lib.chapters
            &&& at < j < pass.found.len() && pass.found[j].lists(n) ==> {
                &&& after.step matches Step::Fetching { i: i2, at: at2, missed: m2 } && i2 == i && at
                    < at2 <= j && m2 == gone && pass.found[at2 as int].lists(n)
                &&& after.report.failures == pass.report.failures
                &&& with == lib
            }
            &&& (forall|x: int| at < x < pass.found.len() ==> !(#[trigger] pass.found[x]).lists(n))
                ==> {
                &&& after.step == (Step::Fetched { i })
                &&& gone ==> after.gaps.contains(n) && after.report.failures
                    == pass.report.failures
                &&& gone && !pass.gaps.contains(n) ==> with.gaps.contains_key((pass.novel, n))
                &&& !gone ==> after.report.failures == pass.report.failures.push(n) && with == lib
                    && after.gaps == pass.gaps
            }
            &&& after.report.newly_fetched == pass.report.newly_fetched
            &&& after.report.upgraded == pass.report.upgraded
            &&& after.report.warnings.len() == pass.report.warnings.len() + (if pass.gaps.contains(
                n,
            ) {
                0int
            } else {
                1
            })
        },
{
    let n = pass.queue[i as int];
    listing::lemma_next_listing(pass.found, n, at + 1);
    let next = listing::next_listing(pass.found, n, at + 1);
    if at < j < pass.found.len() && pass.found[j].lists(n) {
        assert(next <= j);
    }
    if next < pass.found.len() {
        assert(pass.found[next].lists(n));
    }
}

/// A pass that is told to stop is over at once, says that it was interrupted, and keeps its
/// account as it stands; one that goes on takes up the next chapter of its queue.
pub proof fn law_stopping_ends_a_pass_at_once(pass: SyncView, lib: Library, i: usize)
    requires
        pass.found.len() <= usize::MAX,
        i < pass.queue.len() <= usize::MAX,
        pass.step == (Step::Fetched { i }) || pass.step == (Step::Upgrading { i }),
    ensures
        pass.reported(lib, true).step == Step::Done,
        pass.reported(lib, true).report == (ReportView { interrupted: true, ..pass.report }),
        pass.reported(lib, true).gaps == pass.gaps,
        pass.reported(lib, true).found == pass.found,
        pass.step == (Step::Upgrading { i }) ==> pass.reported(lib, false).step
            == (Step::Replacing { i }),
        pass.step == (Step::Fetched { i }) && i + 1 < pass.queue.len() ==> {
            let after = pass.reported(lib, false);
            &&& after.queue == pass.queue
            &&& after.report == pass.report
            &&& after.step matches Step::Fetching { i: i2, at, missed } && i2 == i + 1 && !missed
                && at <= pass.found.len() && forall|j: int|
                0 <= j < at ==> !(#[trigger] pass.found[j]).lists(pass.queue[i + 1])
        },
{
    if i + 1 < pass.queue.len() {
        listing::lemma_next_listing(pass.found, pass.queue[i + 1], 0);
    }
}

/// Once everything missing was fetched, each chapter that another source supplied and the primary
/// lists is replaced, in ascending order, unless it is known that the primary has no page for it.
pub proof fn law_every_fallback_chapter_is_taken_up(pass: SyncView, lib: Library, p: int, n: u32)
    requires
        0 <= p < pass.found.len(),
        pass.sources[pass.found[p].source].priority == 1,
        forall|j: int|
            0 <= j < p ==> pass.sources[(#[trigger] pass.found[j]).source].priority != 1,
    ensures
        ({
            let after = pass.reviewing(lib);
            let primary = pass.sources[pass.found[p].source].id;
            let wanted = |m: u32|
                lib.chapters.contains_key((pass.novel, m)) && lib.chapters[(pass.novel, m)].source_id
                    != Some(primary) && !pass.gaps.contains(m);
            &&& after.queue.contains(n) <==> wanted(n)
            &&& forall|a: int, b: int|
                0 <= a < b < after.queue.len() ==> #[trigger] after.queue[a]
                    < #[trigger] after.queue[b]
            &&& after.report == pass.report
            &&& match after.step {
                Step::Upgrading { i } => i < after.queue.len() && pass.found[p].lists(
                    after.queue[i as int],
                ) && (wanted(n) && pass.found[p].lists(n) ==> after.queue[i as int] <= n),
                Step::Done => !(wanted(n) && pass.found[p].lists(n)),
                _ => false,
            }
        }),
{
    lemma_primary_listing(pass.found, pass.sources);
    let at = pass.primary();
    if at < p {
        assert(pass.sources[pass.found[at].source].priority == 1);
    } else if at > p {
        assert(pass.sources[pass.found[p].source].priority != 1);
    }
    let source = pass.sources[pass.found[p].source];
    let set = upgradable(lib, pass.novel, source.id, pass.gaps);
    let queue = numbers::listing(set);
    numbers::lemma_listing_lists(set);
    numbers::lemma_list_len(queue, set);
    lemma_next_offered(queue, pass.found[p], 0);
    assert(queue.contains(n) <==> set.contains(n));
    if set.contains(n) && pass.found[p].lists(n) {
        let x = choose|x: int| 0 <= x < queue.len() && queue[x] == n;
        assert(queue[x] == n);
        assert(pass.found[p].lists(queue[x]));
        let j = next_offered(queue, pass.found[p], 0);
        assert(j <= x);
    }
}

/// The primary's version of a chapter takes the place of the stored one, counts as an upgrade,
/// and is the primary's from then on. A placeholder or a page that is not there replaces nothing
/// and is recorded as a hole; any other failure changes nothing but the warnings.
pub proof fn law_an_upgrade_replaces_the_text(
    pass: SyncView,
    lib: Library,
    i: usize,
    c: ChapterView,
    f: FailureView,
    now: i64,
)
    requires
        pass.step == (Step::Replacing { i }),
        i < pass.queue.len(),
        0 <= pass.primary() < pass.found.len(),
        lib.novels.contains_key(pass.novel),
        lib.sources.contains_key(pass.sources[pass.found[pass.primary()].source].id),
        lib.chapters.contains_key((pass.novel, c.number)),
        pass.report.upgraded < u32::MAX,
    ensures
        !repair::is_stub(c.paragraphs) ==> (pass.fetched(lib, Ok(c), now) matches Some(
            (after, with),
        ) && {
            let k = (pass.novel, c.number);
            &&& with.chapters[k].title == c.title
            &&& with.chapters[k].body == text::join(c.paragraphs, seq!['\n', '\n'])
            &&& with.chapters[k].source_id == Some(
                pass.sources[pass.found[pass.primary()].source].id,
            )
            &&& !with.chapters[k].exported
            &&& after.report.upgraded == pass.report.upgraded + 1
            &&& after.report.newly_fetched == pass.report.newly_fetched
            &&& after.report.warnings == pass.report.warnings
            &&& after.gaps == pass.gaps
        }),
        repair::is_stub(c.paragraphs) ==> (pass.fetched(lib, Ok(c), now) matches Some(
            (after, with),
        ) && {
            &&& with.chapters == lib.chapters
            &&& after.gaps.contains(pass.queue[i as int])
            &&& after.report == pass.report
        }),
        pass.fetched(lib, Err(f), now) matches Some((after, with)) && {
            &&& with.chapters == lib.chapters
            &&& f.not_found ==> after.gaps.contains(pass.queue[i as int]) && after.report
                == pass.report
            &&& !f.not_found ==> with == lib && after.gaps == pass.gaps
                && after.report.warnings.len() == pass.report.warnings.len() + 1
            &&& after.report.upgraded == pass.report.upgraded
        },
{
    let source = pass.sources[pass.found[pass.primary()].source];
    crate::laws::law_a_replaced_chapter_is_on_record(lib, pass.novel, source.id, c);
}

/// At the end every source that was listed has its highest chapter on record, and the holes that
/// nothing filled are reported in ascending order. The counts are those of the pass.
pub proof fn law_a_pass_ends_with_its_account(
    pass: SyncView,
    lib: Library,
    now: i64,
    n: u32,
)
    ensures
        ({
            let report = pass.closing_report(lib, now);
            &&& report.gaps.contains(n) <==> pass.gaps.contains(n) && !lib.chapters.contains_key(
                (pass.novel, n),
            )
            &&& forall|a: int, b: int|
                0 <= a < b < report.gaps.len() ==> #[trigger] report.gaps[a]
                    < #[trigger] report.gaps[b]
            &&& report.newly_fetched == pass.report.newly_fetched
            &&& report.from_fallback == pass.report.from_fallback
            &&& report.upgraded == pass.report.upgraded
            &&& report.delta_mode == pass.report.delta_mode
            &&& report.warnings == pass.report.warnings
            &&& report.failures == pass.report.failures
            &&& report.interrupted == pass.report.interrupted
            &&& pass.closing(lib, now).chapters == lib.chapters
            &&& pass.closing(lib, now).gaps == lib.gaps
            &&& lib.novels.contains_key(pass.novel) && lib.novels[pass.novel].derived_state
                == pass.state ==> pass.closing(lib, now).novels[pass.novel].derived_state
                == report.new_state
        }),
{
    let after = noted(lib, pass.found, pass.sources, now);
    lemma_noted(lib, pass.found, pass.sources, now);
    let set = Set::new(|m: u32| pass.gaps.contains(m) && !after.stored(pass.novel).contains(m));
    numbers::lemma_listing_lists(set);
    assert(set.contains(n) <==> pass.gaps.contains(n) && !lib.chapters.contains_key(
        (pass.novel, n),
    ));
    assert(numbers::listing(set).contains(n) <==> set.contains(n));
}

proof fn lemma_noted(
    lib: Library,
    found: Seq<ListingView>,
    sources: Seq<SourceView>,
    now: i64,
)
    ensures
        noted(lib, found, sources, now).chapters == lib.chapters,
        noted(lib, found, sources, now).gaps == lib.gaps,
        noted(lib, found, sources, now).novels == lib.novels,
        noted(lib, found, sources, now).sources.dom() == lib.sources.dom(),
    decreases found.len(),
{
    if found.len() > 0 {
        lemma_noted(lib, found.drop_last(), sources, now);
        let before = noted(lib, found.drop_last(), sources, now);
        assert(noted(lib, found, sources, now).sources.dom() =~= before.sources.dom());
    }
}

/// Each source that was listed with chapters has its highest one and the time on record, and a
/// source that was not listed keeps what it had.
pub proof fn law_progress_is_noted_for_each_source(
    lib: Library,
    found: Seq<ListingView>,
    sources: Seq<SourceView>,
    now: i64,
    k: int,
    s: i64,
)
    requires
        0 <= k < found.len(),
        found[k].refs.len() > 0,
        lib.sources.contains_key(sources[found[k].source].id),
        forall|j: int|
            k < j < found.len() ==> sources[(#[trigger] found[j]).source].id
                != sources[found[k].source].id,
    ensures
        ({
            let after = noted(lib, found, sources, now).sources[sources[found[k].source].id];
            &&& after.last_synced_at == Some(now)
            &&& after.last_seen_chapter matches Some(n) && {
                &&& exists|i: int|
                    0 <= i < found[k].refs.len() && (#[trigger] found[k].refs[i]).number == n
                &&& forall|i: int|
                    0 <= i < found[k].refs.len() ==> (#[trigger] found[k].refs[i]).number <= n
            }
        }),
        (forall|j: int| 0 <= j < found.len() ==> sources[(#[trigger] found[j]).source].id != s)
            ==> noted(lib, found, sources, now).sources[s] == lib.sources[s],
    decreases found.len(),
{
    let before = found.drop_last();
    lemma_noted(lib, before, sources, now);
    lemma_noted_keeps(lib, found, sources, now, s);
    if k == found.len() - 1 {
        assert forall|i: int| 0 <= i < found[k].refs.len() implies (
        #[trigger] found[k].refs[i]).number <= found[k].highest()->0 by {
            listing::law_the_highest_is_listed_and_none_is_above(found[k], i);
        }
        listing::law_the_highest_is_listed_and_none_is_above(found[k], 0);
    } else {
        assert(before[k] == found[k]);
        assert forall|j: int| k < j < before.len() implies sources[(
        #[trigger] before[j]).source].id != sources[before[k].source].id by {
            assert(before[j] == found[j]);
        }
        law_progress_is_noted_for_each_source(lib, before, sources, now, k, s);
        let last = found[found.len() - 1];
        assert(sources[last.source].id != sources[found[k].source].id);
    }
}

proof fn lemma_noted_keeps(
    lib: Library,
    found: Seq<ListingView>,
    sources: Seq<SourceView>,
    now: i64,
    s: i64,
)
    ensures
        (forall|j: int| 0 <= j < found.len() ==> sources[(#[trigger] found[j]).source].id != s)
            ==> noted(lib, found, sources, now).sources[s] == lib.sources[s],
    decreases found.len(),
{
    if found.len() > 0 {
        let before = found.drop_last();
        lemma_noted_keeps(lib, before, sources, now, s);
        if forall|j: int| 0 <= j < found.len() ==> sources[(#[trigger] found[j]).source].id != s {
            assert forall|j: int| 0 <= j < before.len() implies sources[(
            #[trigger] before[j]).source].id != s by {
                assert(before[j] == found[j]);
            }
            assert(sources[found[found.len() - 1].source].id != s);
        }
    }
}

/// A novel being filled is live once every listed chapter is stored or known to have no page, and
/// until then it stays one being filled. Any other novel is live once it has gained a chapter,
/// and otherwise stays what it was.
pub proof fn law_the_state_follows_what_is_left(pass: SyncView, lib: Library, n: u32)
    requires
        listing::all_numbers(pass.found).contains(n),
    ensures
        pass.state == DerivedState::Backfilling && !lib.chapters.contains_key((pass.novel, n))
            && !pass.gaps.contains(n) ==> pass.closing_state(lib) == DerivedState::Backfilling,
        pass.state == DerivedState::Backfilling && (forall|m: u32| #[trigger]
            listing::all_numbers(pass.found).contains(m) ==> lib.chapters.contains_key(
                (pass.novel, m),
            ) || pass.gaps.contains(m)) ==> pass.closing_state(lib) == DerivedState::Live,
        pass.state != DerivedState::Backfilling && pass.report.newly_fetched > 0
            ==> pass.closing_state(lib) == DerivedState::Live,
        pass.state != DerivedState::Backfilling && pass.report.newly_fetched == 0
            ==> pass.closing_state(lib) == pass.state,
{
}

/// The warning that sources differ is given where two of them reach different chapters, and only
/// there.
pub proof fn law_different_reaches_are_warned_of(pass: SyncView, i: int, j: int)
    requires
        0 <= i < pass.found.len(),
        0 <= j < pass.found.len(),
    ensures
        pass.found[i].highest() != pass.found[j].highest() && pass.found[i].highest() is Some
            && pass.found[j].highest() is Some ==> pass.compared().report.warnings.len()
            == pass.report.warnings.len() + 1,
        (forall|x: int|
            0 <= x < pass.found.len() ==> (#[trigger] pass.found[x]).highest()
                == pass.found[0].highest()) ==> pass.compared() == pass,
        pass.compared().found == pass.found,
        pass.compared().queue == pass.queue,
{
    if pass.found[i].highest() != pass.found[j].highest() && pass.found[i].highest() is Some
        && pass.found[j].highest() is Some {
        assert(height(pass.found[i]) != height(pass.found[j]));
        assert(i != j);
    }
    if forall|x: int|
        0 <= x < pass.found.len() ==> (#[trigger] pass.found[x]).highest()
            == pass.found[0].highest() {
        assert forall|x: int| 0 <= x < pass.found.len() implies #[trigger] height(pass.found[x])
            == height(pass.found[0]) by {
            assert(pass.found[x].highest() == pass.found[0].highest());
        }
    }
}

/// A report and a request are seen as they are.
pub proof fn law_reports_and_requests_are_seen_whole(
    r: SyncReport,
    source: usize,
    full: bool,
    c: ChapterRef,
    p: SyncProgress,
)
    ensures
        r@.newly_fetched == r.newly_fetched,
        r@.from_fallback == r.from_fallback,
        r@.upgraded == r.upgraded,
        r@.new_state == r.new_state,
        r@.delta_mode == r.delta_mode,
        r@.warnings == text::texts(r.warnings@),
        r@.failures == r.failures@,
        r@.gaps == r.gaps@,
        r@.interrupted == r.interrupted,
        (SyncAction::Discover { source, full })@ == (SyncActionView::Discover {
            source: source as int,
            full,
        }),
        (SyncAction::Fetch { source, chapter: c })@ == (SyncActionView::Fetch {
            source: source as int,
            chapter: c@,
        }),
        SyncAction::Report(p)@ == SyncActionView::Report(p),
        SyncAction::Finish@ == SyncActionView::Finish,
{
}

/// A pass starts with an empty report: nothing fetched, nothing failed, not interrupted.
pub proof fn law_a_report_starts_empty(state: DerivedState, w: Seq<char>)
    ensures
        ({
            let r = ReportView::fresh(state);
            &&& r.newly_fetched == 0
            &&& r.from_fallback == 0
            &&& r.upgraded == 0
            &&& r.new_state == state
            &&& r.warnings.len() == 0
            &&& r.failures.len() == 0
            &&& r.gaps.len() == 0
            &&& !r.interrupted
            &&& r.warned(w).warnings == seq![w]
        }),
{
    assert(ReportView::fresh(state).warned(w).warnings =~= seq![w]);
}

/// Progress is told by the chapter that is behind, out of all that are queued.
pub proof fn law_progress_counts_up(pass: SyncView, i: usize)
    requires
        i < pass.queue.len() <= usize::MAX,
    ensures
        pass.step == (Step::Fetched { i }) ==> pass.action() == SyncActionView::Report(
            SyncProgress::Fetching { done: (i + 1) as usize, total: pass.queue.len() as usize },
        ),
        pass.step == (Step::Upgrading { i }) ==> pass.action() == SyncActionView::Report(
            SyncProgress::Upgrading { done: (i + 1) as usize, total: pass.queue.len() as usize },
        ),
        pass.step == Step::Done ==> pass.action() == SyncActionView::Finish,
{
}

/// After a replacement the pass goes on to the next queued chapter that the primary lists, and is
/// over where there is none.
pub proof fn law_replacements_go_on_in_order(pass: SyncView, i: int, j: int)
    requires
        0 <= i <= pass.queue.len() <= usize::MAX,
    ensures
        ({
            let after = pass.upgrading(i);
            let l = pass.found[pass.primary()];
            &&& after.queue == pass.queue
            &&& after.report == pass.report
            &&& match after.step {
                Step::Upgrading { i: k } => i <= k < pass.queue.len() && l.lists(
                    pass.queue[k as int],
                ) && (i <= j < k ==> !l.lists(pass.queue[j])),
                Step::Done => i <= j < pass.queue.len() ==> !l.lists(pass.queue[j]),
                _ => false,
            }
        }),
{
    lemma_next_offered(pass.queue, pass.found[pass.primary()], i);
}

} // verus!
