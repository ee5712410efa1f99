//! Re-downloading chapters that are stored already, for a site that has corrected them.

use vstd::prelude::*;

use crate::fetch::{Failure, FailureView};
use crate::job::{Action, ActionView};
use crate::job;
use crate::library::Library;
use crate::library;
use crate::listing::{Listing, ListingView};
use crate::listing;
use crate::model::{Chapter, ChapterRef, ChapterView, DerivedState, RefView};
use crate::numbers;
use crate::repair;
use crate::source;
use crate::store::{SourceView, Store, StoredSource};
use crate::store;
use crate::table::Key;
use crate::text;

verus! {

/// What a re-download did.
#[derive(Debug)]
pub struct RefetchReport {
    pub replaced: Vec<u32>,
    pub unchanged: Vec<u32>,
    pub added: Vec<u32>,
    pub skipped: Vec<(u32, String)>,
}

/// A [`RefetchReport`] as plain values.
#[verifier::ext_equal]
pub struct RefetchReportView {
    pub replaced: Seq<u32>,
    pub unchanged: Seq<u32>,
    pub added: Seq<u32>,
    pub skipped: Seq<(u32, Seq<char>)>,
}

impl View for RefetchReport {
    type V = RefetchReportView;

    open spec fn view(&self) -> RefetchReportView {
        RefetchReportView {
            replaced: self.replaced@,
            unchanged: self.unchanged@,
            added: self.added@,
            skipped: repair::reasons(self.skipped@),
        }
    }
}

impl RefetchReportView {
    pub open spec fn empty() -> RefetchReportView {
        RefetchReportView { replaced: seq![], unchanged: seq![], added: seq![], skipped: seq![] }
    }

    pub open spec fn skipping(self, n: u32, why: Seq<char>) -> RefetchReportView {
        RefetchReportView { skipped: self.skipped.push((n, why)), ..self }
    }
}

impl Default for RefetchReport {
    fn default() -> (r: Self)
        ensures
            r@ == RefetchReportView::empty(),
    {
        let r = RefetchReport {
            replaced: Vec::new(),
            unchanged: Vec::new(),
            added: Vec::new(),
            skipped: Vec::new(),
        };
        assert(r@ =~= RefetchReportView::empty());
        r
    }
}

impl RefetchReport {
    /// Whether the library's text changed.
    pub fn changed(&self) -> (r: bool)
        ensures
            r == (self@.replaced.len() > 0 || self@.added.len() > 0),
    {
        self.replaced.len() > 0 || self.added.len() > 0
    }

    fn skip(&mut self, n: u32, why: String)
        ensures
            final(self)@ == old(self)@.skipping(n, why@),
    {
        let ghost before = self@;
        self.skipped.push((n, why));
        assert(self@ =~= before.skipping(n, why@));
    }
}

/// Whether two texts agree, paragraph by paragraph.
pub fn same_paragraphs(a: &[String], b: &[String]) -> (r: bool)
    ensures
        r == (text::texts(a@) == text::texts(b@)),
{
    let ghost x = text::texts(a@);
    let ghost y = text::texts(b@);
    if a.len() != b.len() {
        assert(x.len() != y.len());
        return false;
    }
    let mut i: usize = 0;
    while i < a.len()
        invariant
            i <= a@.len(),
            a@.len() == b@.len(),
            x == text::texts(a@),
            y == text::texts(b@),
            forall|j: int| 0 <= j < i ==> #[trigger] x[j] == y[j],
        decreases a@.len() - i,
    {
        if !text::same(a[i].as_str(), b[i].as_str()) {
            assert(x[i as int] != y[i as int]);
            return false;
        }
        i += 1;
    }
    assert(x =~= y);
    true
}

/// Whether two chapters carry the same title and text.
pub open spec fn text_agrees(a: ChapterView, b: ChapterView) -> bool {
    a.title == b.title && a.paragraphs == b.paragraphs
}

pub fn same_text(a: &Chapter, b: &Chapter) -> (r: bool)
    ensures
        r == text_agrees(a@, b@),
{
    text::same(a.title.as_str(), b.title.as_str()) && same_paragraphs(&a.paragraphs, &b.paragraphs)
}

// ---------------------------------------------------------------------------
// The pass
// ---------------------------------------------------------------------------

/// Where a re-download stands.
#[derive(Debug, Clone, Copy)]
pub enum Step {
    /// Waiting for the chapter list of a source.
    Discovering { next: usize },
    /// About to take up a chapter.
    Starting { i: usize },
    /// Waiting for a chapter from the source of a listing.
    Fetching { i: usize, at: usize },
    Done,
}

/// A re-download as plain values.
#[verifier::ext_equal]
pub struct RefetchView {
    pub novel: i64,
    pub dry_run: bool,
    pub sources: Seq<SourceView>,
    /// The chapters asked for, ascending; `None` for all that are stored or listed.
    pub wanted: Option<Seq<u32>>,
    pub found: Seq<ListingView>,
    /// Which sources could not be listed, and why.
    pub failures: Seq<Seq<char>>,
    pub targets: Seq<u32>,
    /// The chapters that are neither stored nor to be had.
    pub absent: Seq<u32>,
    /// Why the chapter at hand has not come yet, if a source was tried.
    pub why: Option<Seq<char>>,
    pub report: RefetchReportView,
    pub step: Step,
}

/// The report with a line for each source that could not be listed.
pub open spec fn with_failures(report: RefetchReportView, failures: Seq<Seq<char>>) -> RefetchReportView
    decreases failures.len(),
{
    if failures.len() == 0 {
        report
    } else {
        with_failures(report, failures.drop_last()).skipping(
            0,
            "discovery failed for "@ + failures.last(),
        )
    }
}

/// The chapters that are stored or listed.
pub open spec fn known_numbers(lib: Library, novel: i64, found: Seq<ListingView>) -> Set<u32> {
    Set::new(
        |n: u32| lib.stored(novel).contains(n) || listing::all_numbers(found).contains(n),
    )
}

/// The error where no source could be listed.
pub open spec fn no_list(failures: Seq<Seq<char>>) -> Seq<char> {
    "could not read the chapter list from any source ("@ + text::join(failures, "; "@) + ")"@
}

impl RefetchView {
    pub open spec fn planned(
        novel: i64,
        sources: Seq<SourceView>,
        wanted: Option<Seq<u32>>,
        dry_run: bool,
    ) -> RefetchView {
        RefetchView {
            novel,
            dry_run,
            sources,
            wanted,
            found: seq![],
            failures: seq![],
            targets: seq![],
            absent: seq![],
            why: None,
            report: RefetchReportView::empty(),
            step: Step::Discovering { next: 0 },
        }
    }

    pub open spec fn action(self) -> ActionView {
        match self.step {
            Step::Discovering { next } => ActionView::Discover { source: next as int },
            Step::Starting { i } => ActionView::Announce {
                number: self.targets[i as int],
                position: i + 1,
                total: self.targets.len() as int,
            },
            Step::Fetching { i, at } => {
                let l = self.found[at as int];
                ActionView::Fetch {
                    source: l.source,
                    chapter: l.refs[listing::first_at(l.refs, self.targets[i as int])],
                }
            },
            Step::Done => ActionView::Finish,
        }
    }

    /// With one more source listed, or one more that could not be.
    pub open spec fn listed(self, next: usize, answer: Result<Seq<RefView>, Seq<char>>) -> RefetchView {
        match answer {
            Ok(refs) => RefetchView {
                found: self.found.push(ListingView { source: next as int, refs }),
                ..self
            },
            Err(e) => RefetchView {
                failures: self.failures.push(self.sources[next as int].name + ": "@ + e),
                ..self
            },
        }
    }

    /// Ready to take up the chapters, once every source has answered.
    pub open spec fn ready(self, lib: Library) -> RefetchView {
        let targets = match self.wanted {
            Some(w) => w,
            None => numbers::listing(known_numbers(lib, self.novel, self.found)),
        };
        RefetchView {
            report: with_failures(self.report, self.failures),
            targets,
            step: if targets.len() > 0 {
                Step::Starting { i: 0 }
            } else {
                Step::Done
            },
            ..self
        }
    }

    /// After a source's answer to the request for its chapter list. `None` where no
    /// source could be listed.
    pub open spec fn discovered(self, lib: Library, answer: Result<Seq<RefView>, Seq<char>>) -> Option<
        RefetchView,
    > {
        match self.step {
            Step::Discovering { next } => {
                let after = self.listed(next, answer);
                if next + 1 < self.sources.len() {
                    Some(
                        RefetchView { step: Step::Discovering { next: (next + 1) as usize }, ..after },
                    )
                } else if after.found.len() == 0 {
                    None
                } else {
                    Some(after.ready(lib))
                }
            },
            _ => Some(self),
        }
    }

    /// On to the chapter behind the `i`-th.
    pub open spec fn onward(self, i: usize) -> RefetchView {
        RefetchView {
            step: if i + 1 < self.targets.len() {
                Step::Starting { i: (i + 1) as usize }
            } else {
                Step::Done
            },
            ..self
        }
    }

    /// Try the `i`-th chapter at the next source, from the `from`-th listing on, that has
    /// it. When there is none it is skipped for the last reason, if there is one.
    pub open spec fn trying(self, lib: Library, i: usize, from: int, why: Option<Seq<char>>) -> RefetchView {
        let number = self.targets[i as int];
        let at = listing::next_listing(self.found, number, from);
        if at < self.found.len() {
            RefetchView { why, step: Step::Fetching { i, at: at as usize }, ..self }
        } else {
            RefetchView {
                why,
                report: match why {
                    Some(w) => self.report.skipping(number, w),
                    None => self.report,
                },
                absent: if lib.stored(self.novel).contains(number) {
                    self.absent
                } else {
                    self.absent.push(number)
                },
                ..self
            }.onward(i)
        }
    }

    /// After the chapter was announced.
    pub open spec fn announced(self, lib: Library) -> RefetchView {
        match self.step {
            Step::Starting { i } => self.trying(lib, i, 0, None),
            _ => self,
        }
    }

    /// With the `i`-th chapter taken from a source: added, replaced, or unchanged. `None`
    /// where the library has no such novel or source.
    pub open spec fn taken(
        self,
        lib: Library,
        i: usize,
        source: SourceView,
        fresh: ChapterView,
        now: i64,
    ) -> Option<(RefetchView, Library)> {
        let number = self.targets[i as int];
        if !lib.stored(self.novel).contains(number) {
            let after = RefetchView {
                report: RefetchReportView { added: self.report.added.push(number), ..self.report },
                ..self
            }.onward(i);
            if self.dry_run {
                Some((after, lib))
            } else if lib.stored(self.novel).contains(fresh.number) || (lib.novels.contains_key(
                self.novel,
            ) && lib.sources.contains_key(source.id)) {
                Some((after, lib.with_chapter(self.novel, source.id, fresh, now)))
            } else {
                None
            }
        } else if text_agrees(lib.chapter(self.novel, number), fresh) {
            Some(
                (
                    RefetchView {
                        report: RefetchReportView {
                            unchanged: self.report.unchanged.push(number),
                            ..self.report
                        },
                        ..self
                    }.onward(i),
                    lib,
                ),
            )
        } else {
            let after = RefetchView {
                report: RefetchReportView {
                    replaced: self.report.replaced.push(number),
                    ..self.report
                },
                ..self
            }.onward(i);
            if self.dry_run {
                Some((after, lib))
            } else if lib.stored(self.novel).contains(fresh.number) && !lib.sources.contains_key(
                source.id,
            ) {
                None
            } else {
                Some((after, lib.with_content(self.novel, source.id, fresh)))
            }
        }
    }

    /// After a source's answer to the request for a chapter, and what becomes of the
    /// library. `None` where the library has no such novel or source.
    pub open spec fn fetched(
        self,
        lib: Library,
        answer: Result<ChapterView, FailureView>,
        now: i64,
    ) -> Option<(RefetchView, Library)> {
        match self.step {
            Step::Fetching { i, at } => {
                let source = self.sources[self.found[at as int].source];
                match answer {
                    Err(f) => Some(
                        (self.trying(lib, i, at + 1, Some(source.name + ": "@ + f.message)), lib),
                    ),
                    Ok(fresh) => if repair::is_stub(fresh.paragraphs) {
                        Some(
                            (
                                self.trying(
                                    lib,
                                    i,
                                    at + 1,
                                    Some(source.name + " served a login placeholder"@),
                                ),
                                lib,
                            ),
                        )
                    } else {
                        self.taken(lib, i, source, fresh, now)
                    },
                }
            },
            _ => Some((self, lib)),
        }
    }

    /// Whether a chapter that is not stored is listed by some source all the same.
    pub open spec fn recoverable(self) -> bool {
        exists|i: int|
            0 <= i < self.absent.len() && listing::all_numbers(self.found).contains(
                #[trigger] self.absent[i],
            )
    }

    /// The library at the end of the pass: a novel with chapters that can still be had is
    /// to be filled again.
    pub open spec fn closing(self, lib: Library, now: i64) -> Library {
        if self.recoverable() && !self.dry_run {
            lib.with_state(self.novel, DerivedState::Backfilling, now)
        } else {
            lib
        }
    }
}

/// A re-download of a novel's chapters. It says what it needs next, takes in the answers,
/// and ends with a report.
pub struct RefetchJob {
    novel_id: i64,
    dry_run: bool,
    sources: Vec<StoredSource>,
    wanted: Option<Vec<u32>>,
    found: Vec<Listing>,
    failures: Vec<String>,
    targets: Vec<u32>,
    absent: Vec<u32>,
    why: Option<String>,
    report: RefetchReport,
    step: Step,
}

pub open spec fn wanted_view(wanted: Option<Vec<u32>>) -> Option<Seq<u32>> {
    match wanted {
        Some(v) => Some(v@),
        None => None,
    }
}

impl View for RefetchJob {
    type V = RefetchView;

    closed spec fn view(&self) -> RefetchView {
        RefetchView {
            novel: self.novel_id,
            dry_run: self.dry_run,
            sources: store::source_views(self.sources@),
            wanted: wanted_view(self.wanted),
            found: listing::listing_views(self.found@),
            failures: text::texts(self.failures@),
            targets: self.targets@,
            absent: self.absent@,
            why: text::opt(self.why),
            report: self.report@,
            step: self.step,
        }
    }
}

impl RefetchJob {
    closed spec fn sources_exist(&self) -> bool {
        forall|j: int|
            0 <= j < self.found@.len() ==> (#[trigger] self.found@[j]).source < self.sources@.len()
    }

    pub closed spec fn wf(&self) -> bool {
        &&& self.sources_exist()
        &&& match self.step {
            Step::Discovering { next } => next < self.sources@.len(),
            Step::Starting { i } => i < self.targets@.len(),
            Step::Fetching { i, at } => i < self.targets@.len() && at < self.found@.len()
                && self.found@[at as int]@.lists(self.targets@[i as int]),
            Step::Done => true,
        }
    }

    /// Begin a re-download of the chapters in `wanted` (ascending), or of all that are
    /// stored or listed. `dry_run` reports without writing.
    pub fn start(
        novel_id: i64,
        sources: Vec<StoredSource>,
        wanted: Option<Vec<u32>>,
        dry_run: bool,
    ) -> (r: Result<RefetchJob, String>)
        ensures
            match r {
                Ok(job) => job.wf() && job@ == RefetchView::planned(
                    novel_id,
                    store::source_views(sources@),
                    wanted_view(wanted),
                    dry_run,
                ),
                Err(e) => e@ == "no usable source to re-download from"@,
            },
            r is Err == (sources@.len() == 0),
    {
        if sources.len() == 0 {
            return Err("no usable source to re-download from".to_string());
        }
        let job = RefetchJob {
            novel_id,
            dry_run,
            sources,
            wanted,
            found: Vec::new(),
            failures: Vec::new(),
            targets: Vec::new(),
            absent: Vec::new(),
            why: None,
            report: RefetchReport::default(),
            step: Step::Discovering { next: 0 },
        };
        assert(job@ =~= RefetchView::planned(
            novel_id,
            store::source_views(sources@),
            wanted_view(wanted),
            dry_run,
        ));
        Ok(job)
    }

    /// What the pass needs next.
    pub fn next(&self) -> (r: Action)
        requires
            self.wf(),
        ensures
            r@ == self@.action(),
    {
        match self.step {
            Step::Discovering { next } => Action::Discover { source: next },
            Step::Starting { i } => {
                let total: usize = self.targets.len();
                Action::Announce { number: self.targets[i], position: i + 1, total }
            },
            Step::Fetching { i, at } => {
                let n: u32 = self.targets[i];
                assert(self@.found[at as int] == self.found@[at as int]@);
                match self.found[at].first(n) {
                    Some(c) => Action::Fetch { source: self.found[at].source, chapter: c.clone() },
                    None => Action::Finish,
                }
            },
            Step::Done => Action::Finish,
        }
    }

    fn known(&self, store: &Store) -> (r: Vec<u32>)
        requires
            store.wf(),
        ensures
            r@ == numbers::listing(known_numbers(store@, self@.novel, self@.found)),
    {
        let mut all = listing::target_numbers(&self.found);
        let stored = store.stored_list(self.novel_id);
        let ghost target = listing::all_numbers(self@.found);
        let mut i: usize = 0;
        while i < stored.len()
            invariant
                i <= stored@.len(),
                numbers::ascending(all@),
                forall|n: u32| #[trigger]
                    all@.contains(n) <==> (target.contains(n) || stored@.take(i as int).contains(
                        n,
                    )),
            decreases stored@.len() - i,
        {
            let n: u32 = stored[i];
            let ghost before = all@;
            numbers::insert_sorted(&mut all, n);
            proof {
                let t = stored@.take(i as int);
                let u = stored@.take(i + 1);
                assert(u =~= t.push(n));
                assert forall|m: u32| #[trigger] all@.contains(m) <==> (target.contains(m)
                    || u.contains(m)) by {
                    assert(before.contains(m) <==> (target.contains(m) || t.contains(m)));
                    if t.contains(m) {
                        let k = choose|k: int| 0 <= k < t.len() && t[k] == m;
                        assert(u[k] == m);
                    }
                    if u.contains(m) && m != n {
                        let k = choose|k: int| 0 <= k < u.len() && u[k] == m;
                        assert(t[k] == m);
                    }
                    assert(u[i as int] == n);
                }
            }
            i += 1;
        }
        proof {
            assert(stored@.take(stored@.len() as int) =~= stored@);
            let known = known_numbers(store@, self@.novel, self@.found);
            assert forall|n: u32| #[trigger] all@.contains(n) <==> known.contains(n) by {
                assert(stored@.contains(n) <==> store@.stored(self@.novel).contains(n));
            }
            numbers::lemma_listing(all@, known);
        }
        all
    }

    fn list_failures(&mut self)
        requires
            old(self).sources_exist(),
        ensures
            final(self)@ == (RefetchView {
                report: with_failures(old(self)@.report, old(self)@.failures),
                ..old(self)@
            }),
            final(self).sources_exist(),
            final(self).found@ == old(self).found@,
    {
        let ghost before = *self;
        let ghost failures = self@.failures;
        let mut i: usize = 0;
        assert(failures.take(0) =~= Seq::<Seq<char>>::empty());
        while i < self.failures.len()
            invariant
                i <= self.failures@.len(),
                before.sources_exist(),
                failures == before@.failures,
                *self == (RefetchJob { report: self.report, ..before }),
                self.report@ == with_failures(before@.report, failures.take(i as int)),
            decreases self.failures@.len() - i,
        {
            proof {
                let t = failures.take(i + 1);
                assert(t.drop_last() =~= failures.take(i as int));
                assert(t.last() == self.failures@[i as int]@);
            }
            let why = text::concat("discovery failed for ", self.failures[i].as_str());
            self.report.skip(0, why);
            i += 1;
        }
        assert(failures.take(failures.len() as int) =~= failures);
        assert(self@ =~= (RefetchView {
            report: with_failures(before@.report, failures),
            ..before@
        }));
    }

    /// Take in a source's chapter list, or why it could not be had. Fails once every
    /// source has, if none could be listed.
    pub fn on_discovered(&mut self, store: &Store, answer: Result<Vec<ChapterRef>, Failure>) -> (r:
        Result<(), String>)
        requires
            old(self).wf(),
            store.wf(),
        ensures
            match old(self)@.discovered(store@, job::list_answer(answer)) {
                Some(after) => r is Ok && final(self).wf() && final(self)@ == after,
                None => r matches Err(e) && (old(self)@.step matches Step::Discovering { next }
                    && e@ == no_list(
                    old(self)@.listed(next, job::list_answer(answer)).failures,
                )),
            },
    {
        let ghost before = self@;
        let next: usize = match self.step {
            Step::Discovering { next } => next,
            _ => return Ok(()),
        };
        match answer {
            Ok(refs) => {
                let ghost l = ListingView { source: next as int, refs: source::ref_views(refs@) };
                self.found.push(Listing { source: next, refs });
                assert(self@.found =~= before.found.push(l));
            },
            Err(f) => {
                let mut v = text::to_chars(self.sources[next].name.as_str());
                text::push_str(&mut v, ": ");
                text::push_str(&mut v, f.message.as_str());
                let why = text::to_text(&v);
                self.failures.push(why);
                assert(self@.failures =~= before.failures.push(why@));
            },
        }
        let ghost listed = before.listed(next, job::list_answer(answer));
        assert(self@ =~= listed);
        let count: usize = self.sources.len();
        let more: usize = next + 1;
        if more < count {
            self.step = Step::Discovering { next: more };
            return Ok(());
        }
        if self.found.len() == 0 {
            let mut v = text::to_chars("could not read the chapter list from any source (");
            let why = text::join_texts(&self.failures, "; ");
            text::push_str(&mut v, why.as_str());
            text::push_str(&mut v, ")");
            return Err(text::to_text(&v));
        }
        self.list_failures();
        let targets = match &self.wanted {
            Some(w) => copy_numbers(w),
            None => self.known(store),
        };
        self.step = if targets.len() > 0 {
            Step::Starting { i: 0 }
        } else {
            Step::Done
        };
        self.targets = targets;
        assert(self@ =~= listed.ready(store@));
        Ok(())
    }

    fn go_on(&mut self, i: usize)
        requires
            i < old(self).targets@.len(),
            old(self).sources_exist(),
        ensures
            final(self).wf(),
            final(self)@ == old(self)@.onward(i),
    {
        let count: usize = self.targets.len();
        let more: usize = i + 1;
        self.step = if more < count {
            Step::Starting { i: more }
        } else {
            Step::Done
        };
    }

    fn try_next(&mut self, store: &Store, i: usize, from: usize, why: Option<String>)
        requires
            store.wf(),
            i < old(self).targets@.len(),
            from <= old(self).found@.len(),
            old(self).sources_exist(),
        ensures
            final(self).wf(),
            final(self)@ == old(self)@.trying(store@, i, from as int, text::opt(why)),
    {
        let ghost before = self@;
        let number: u32 = self.targets[i];
        let at: usize = listing::find_listing(&self.found, number, from);
        self.why = text::copy_opt(&why);
        if at < self.found.len() {
            self.step = Step::Fetching { i, at };
        } else {
            if let Some(w) = why {
                self.report.skip(number, w);
            }
            if store.load_chapter(self.novel_id, number).is_none() {
                self.absent.push(number);
            }
            assert(self@ =~= (RefetchView {
                why: text::opt(why),
                report: match text::opt(why) {
                    Some(w) => before.report.skipping(number, w),
                    None => before.report,
                },
                absent: if store@.stored(before.novel).contains(number) {
                    before.absent
                } else {
                    before.absent.push(number)
                },
                ..before
            }));
            self.go_on(i);
        }
        assert(self@ =~= before.trying(store@, i, from as int, text::opt(why)));
    }

    /// The chapter has been announced.
    pub fn on_announced(&mut self, store: &Store)
        requires
            old(self).wf(),
            store.wf(),
        ensures
            final(self).wf(),
            final(self)@ == old(self)@.announced(store@),
    {
        if let Step::Starting { i } = self.step {
            self.try_next(store, i, 0, None);
        }
    }

    fn take_chapter(
        &mut self,
        store: &mut Store,
        i: usize,
        id: i64,
        fresh: &Chapter,
        source: Ghost<SourceView>,
        now: i64,
    ) -> (r: Result<(), String>)
        requires
            old(self).wf(),
            i < old(self).targets@.len(),
            old(store).wf(),
            source@.id == id,
        ensures
            final(self).wf(),
            final(store).wf(),
            match old(self)@.taken(old(store)@, i, source@, fresh@, now) {
                Some((after, lib)) => r is Ok && final(self)@ == after && final(store)@ == lib,
                None => (r matches Err(e) && e@ == library::broken_reference()) && final(self)@
                    == old(self)@ && final(store)@ == old(store)@,
            },
    {
        let ghost before = self@;
        let number: u32 = self.targets[i];
        match store.load_chapter(self.novel_id, number) {
            None => {
                if !self.dry_run {
                    if let Err(e) = store.insert_chapter_at(self.novel_id, id, fresh, now) {
                        return Err(e);
                    }
                }
                self.report.added.push(number);
                assert(self@ =~= (RefetchView {
                    report: RefetchReportView {
                        added: before.report.added.push(number),
                        ..before.report
                    },
                    ..before
                }));
            },
            Some(stored) => {
                if same_text(&stored, fresh) {
                    self.report.unchanged.push(number);
                    assert(self@ =~= (RefetchView {
                        report: RefetchReportView {
                            unchanged: before.report.unchanged.push(number),
                            ..before.report
                        },
                        ..before
                    }));
                } else {
                    if !self.dry_run {
                        if let Err(e) = store.update_chapter_content(self.novel_id, id, fresh) {
                            return Err(e);
                        }
                    }
                    self.report.replaced.push(number);
                    assert(self@ =~= (RefetchView {
                        report: RefetchReportView {
                            replaced: before.report.replaced.push(number),
                            ..before.report
                        },
                        ..before
                    }));
                }
            },
        }
        self.go_on(i);
        Ok(())
    }

    /// Take in a chapter, or why it could not be had.
    pub fn on_fetched(
        &mut self,
        store: &mut Store,
        answer: Result<Chapter, Failure>,
        now: i64,
    ) -> (r: Result<(), String>)
        requires
            old(self).wf(),
            old(store).wf(),
        ensures
            final(self).wf(),
            final(store).wf(),
            match old(self)@.fetched(old(store)@, job::chapter_answer(answer), now) {
                Some((after, lib)) => r is Ok && final(self)@ == after && final(store)@ == lib,
                None => (r matches Err(e) && e@ == library::broken_reference()) && final(self)@
                    == old(self)@ && final(store)@ == old(store)@,
            },
    {
        if let Step::Fetching { i, at } = self.step {
            let count: usize = self.found.len();
            assert(at < count);
            let k: usize = self.found[at].source;
            assert(self@.found[at as int] == self.found@[at as int]@);
            assert(self@.sources[k as int] == self.sources@[k as int]@);
            match answer {
                Err(f) => {
                    let mut v = text::to_chars(self.sources[k].name.as_str());
                    text::push_str(&mut v, ": ");
                    text::push_str(&mut v, f.message.as_str());
                    let why = text::to_text(&v);
                    self.try_next(store, i, at + 1, Some(why));
                },
                Ok(fresh) => {
                    if repair::looks_like_gate_stub(&fresh.paragraphs) {
                        let why = text::concat(
                            self.sources[k].name.as_str(),
                            " served a login placeholder",
                        );
                        self.try_next(store, i, at + 1, Some(why));
                    } else {
                        let id: i64 = self.sources[k].id;
                        let ghost source = self@.sources[k as int];
                        return self.take_chapter(store, i, id, &fresh, Ghost(source), now);
                    }
                },
            }
        }
        Ok(())
    }

    fn can_recover(&self) -> (r: bool)
        ensures
            r == self@.recoverable(),
    {
        let ghost target = listing::all_numbers(self@.found);
        let listed = listing::target_numbers(&self.found);
        let mut i: usize = 0;
        while i < self.absent.len()
            invariant
                i <= self.absent@.len(),
                target == listing::all_numbers(self@.found),
                numbers::lists(listed@, target),
                forall|j: int| 0 <= j < i ==> !target.contains(#[trigger] self@.absent[j]),
            decreases self.absent@.len() - i,
        {
            let n: u32 = self.absent[i];
            assert(self@.absent[i as int] == n);
            assert(listed@.contains(n) <==> target.contains(n));
            if numbers::in_list(&listed, n) {
                return true;
            }
            i += 1;
        }
        false
    }

    /// Close the pass and hand over its report.
    pub fn finish(self, store: &mut Store, now: i64) -> (r: RefetchReport)
        requires
            old(store).wf(),
        ensures
            r@ == self@.report,
            final(store).wf(),
            final(store)@ == self@.closing(old(store)@, now),
    {
        if !self.dry_run && self.can_recover() {
            store.set_derived_state_at(self.novel_id, DerivedState::Backfilling, now);
        }
        self.report
    }
}

fn copy_numbers(v: &Vec<u32>) -> (r: Vec<u32>)
    ensures
        r@ == v@,
{
    let mut out: Vec<u32> = Vec::new();
    let mut i: usize = 0;
    while i < v.len()
        invariant
            i <= v@.len(),
            out@ == v@.take(i as int),
        decreases v@.len() - i,
    {
        out.push(v[i]);
        assert(out@ =~= v@.take(i + 1));
        i += 1;
    }
    assert(v@.take(v@.len() as int) =~= v@);
    out
}

/// A dry run writes nothing.
pub proof fn law_a_dry_refetch_writes_nothing(
    pass: RefetchView,
    lib: Library,
    answer: Result<ChapterView, FailureView>,
    now: i64,
)
    requires
        pass.dry_run,
    ensures
        pass.fetched(lib, answer, now) matches Some((after, unchanged)) && unchanged == lib,
        pass.closing(lib, now) == lib,
{
}

/// Whatever a source answers, no stored chapter is lost, and the only one that can change
/// or be added is the one that came in, which is no placeholder.
pub proof fn law_refetch_loses_nothing(
    pass: RefetchView,
    lib: Library,
    answer: Result<ChapterView, FailureView>,
    now: i64,
    k: Key,
)
    requires
        pass.fetched(lib, answer, now) is Some,
    ensures
        ({
            let after = (pass.fetched(lib, answer, now)->0).1;
            &&& lib.chapters.contains_key(k) ==> after.chapters.contains_key(k)
            &&& after.chapters.contains_key(k) && !(lib.chapters.contains_key(k)
                && after.chapters[k] == lib.chapters[k]) ==> ((answer matches Ok(fresh)) && k == (
                pass.novel,
                answer->Ok_0.number,
            ) && !repair::is_stub(answer->Ok_0.paragraphs))
        }),
{
}

/// Text that the site has not changed is not written again, so the chapter stays exported.
pub proof fn law_unchanged_text_is_left_alone(
    pass: RefetchView,
    lib: Library,
    fresh: ChapterView,
    now: i64,
    i: usize,
    at: usize,
)
    requires
        pass.step == (Step::Fetching { i, at }),
        lib.stored(pass.novel).contains(pass.targets[i as int]),
        text_agrees(lib.chapter(pass.novel, pass.targets[i as int]), fresh),
    ensures
        pass.fetched(lib, Ok(fresh), now) matches Some((after, unchanged)) && unchanged == lib,
{
}

/// A re-download takes up the chapters asked for, or else every chapter that is stored or listed,
/// in ascending order.
pub proof fn law_every_wanted_chapter_is_taken_up(
    pass: RefetchView,
    lib: Library,
    w: Seq<u32>,
    n: u32,
)
    ensures
        pass.wanted == Some(w) ==> pass.ready(lib).targets == w,
        pass.wanted is None ==> {
            let t = pass.ready(lib).targets;
            &&& t.contains(n) <==> lib.chapters.contains_key((pass.novel, n))
                || listing::all_numbers(pass.found).contains(n)
            &&& forall|i: int, j: int|
                0 <= i < j < t.len() ==> #[trigger] t[i] < #[trigger] t[j]
        },
        pass.ready(lib).targets.len() > 0 ==> pass.ready(lib).action() == (ActionView::Announce {
            number: pass.ready(lib).targets[0],
            position: 1,
            total: pass.ready(lib).targets.len() as int,
        }),
        pass.ready(lib).targets.len() == 0 ==> pass.ready(lib).action() == ActionView::Finish,
        pass.ready(lib).report.skipped.len() == pass.report.skipped.len() + pass.failures.len(),
        pass.ready(lib).report.added == pass.report.added,
        pass.ready(lib).report.replaced == pass.report.replaced,
{
    if pass.wanted is None {
        let set = known_numbers(lib, pass.novel, pass.found);
        numbers::lemma_listing_lists(set);
        assert(numbers::listing(set).contains(n) <==> set.contains(n));
    }
    lemma_with_failures(pass.report, pass.failures);
}

proof fn lemma_with_failures(report: RefetchReportView, failures: Seq<Seq<char>>)
    ensures
        with_failures(report, failures).skipped.len() == report.skipped.len() + failures.len(),
        with_failures(report, failures).added == report.added,
        with_failures(report, failures).replaced == report.replaced,
        with_failures(report, failures).unchanged == report.unchanged,
    decreases failures.len(),
{
    if failures.len() > 0 {
        lemma_with_failures(report, failures.drop_last());
    }
}

/// A re-download lists every source in turn, asks for each chapter at the first source that lists it
/// and under the address that source gives, and fails where no source could be listed.
pub proof fn law_a_refetch_asks_as_listed(
    novel: i64,
    sources: Seq<SourceView>,
    wanted: Option<Seq<u32>>,
    dry_run: bool,
    pass: RefetchView,
    lib: Library,
    refs: Seq<RefView>,
    e: Seq<char>,
    next: usize,
    i: usize,
    at: usize,
)
    requires
        pass.found.len() <= usize::MAX,
        pass.sources.len() <= usize::MAX,
    ensures
        RefetchView::planned(novel, sources, wanted, dry_run).action() == (ActionView::Discover {
            source: 0,
        }),
        RefetchView::planned(novel, sources, wanted, dry_run).wanted == wanted,
        RefetchView::planned(novel, sources, wanted, dry_run).dry_run == dry_run,
        RefetchView::planned(novel, sources, wanted, dry_run).novel == novel,
        RefetchView::planned(novel, sources, wanted, dry_run).sources == sources,
        pass.step == (Step::Discovering { next }) && next + 1 < pass.sources.len() ==> (
        pass.discovered(lib, Ok(refs)) matches Some(a) && a.action() == (ActionView::Discover {
            source: next + 1,
        }) && a.found == pass.found.push(ListingView { source: next as int, refs })),
        pass.step == (Step::Discovering { next }) && next + 1 < pass.sources.len() ==> (
        pass.discovered(lib, Err(e)) matches Some(a) && a.action() == (ActionView::Discover {
            source: next + 1,
        }) && a.found == pass.found && a.failures.len() == pass.failures.len() + 1),
        pass.step == (Step::Discovering { next }) && next + 1 >= pass.sources.len()
            && pass.found.len() == 0 ==> pass.discovered(lib, Err(e)) is None && pass.discovered(
            lib,
            Ok(refs),
        ) is Some,
        pass.step == (Step::Starting { i }) && i < pass.targets.len() ==> {
            let n = pass.targets[i as int];
            match pass.announced(lib).step {
                Step::Fetching { i: i2, at: at2 } => i2 == i && at2 < pass.found.len()
                    && pass.found[at2 as int].lists(n) && forall|j: int|
                    0 <= j < at2 ==> !(#[trigger] pass.found[j]).lists(n),
                _ => forall|j: int|
                    0 <= j < pass.found.len() ==> !(#[trigger] pass.found[j]).lists(n),
            }
        },
        pass.step == (Step::Fetching { i, at }) && at < pass.found.len() && i < pass.targets.len()
            && pass.found[at as int].lists(pass.targets[i as int]) ==> (
        pass.action() matches ActionView::Fetch { source, chapter } && source
            == pass.found[at as int].source && chapter.number == pass.targets[i as int]
            && pass.found[at as int].refs.contains(chapter)),
{
    if pass.step == (Step::Starting { i }) && i < pass.targets.len() {
        listing::lemma_next_listing(pass.found, pass.targets[i as int], 0);
    }
    if pass.step == (Step::Fetching { i, at }) && at < pass.found.len() && i < pass.targets.len()
        && pass.found[at as int].lists(pass.targets[i as int]) {
        let l = pass.found[at as int];
        let n = pass.targets[i as int];
        listing::lemma_first_at(l.refs, n);
        let x = choose|x: int| 0 <= x < l.refs.len() && (#[trigger] l.refs[x]).number == n;
        assert(l.refs[x].number == n);
        let f = listing::first_at(l.refs, n);
        assert(l.refs.contains(l.refs[f]));
    }
}

/// A fetched chapter is added where its number was not stored, replaces the stored one where its
/// title or text differs, and otherwise leaves it; each is reported under its own heading. A dry run
/// reports the same and writes nothing.
pub proof fn law_a_fetched_chapter_is_added_replaced_or_left(
    pass: RefetchView,
    lib: Library,
    i: usize,
    at: usize,
    fresh: ChapterView,
    now: i64,
)
    requires
        pass.step == (Step::Fetching { i, at }),
        i < pass.targets.len(),
        at < pass.found.len(),
        fresh.number == pass.targets[i as int],
        !repair::is_stub(fresh.paragraphs),
        lib.novels.contains_key(pass.novel),
        lib.sources.contains_key(pass.sources[pass.found[at as int].source].id),
    ensures
        pass.fetched(lib, Ok(fresh), now) matches Some((after, with)) && {
            let n = pass.targets[i as int];
            let k = (pass.novel, n);
            let id = pass.sources[pass.found[at as int].source].id;
            let stored = lib.chapters.contains_key(k);
            let same = lib.chapter(pass.novel, n).title == fresh.title && lib.chapter(
                pass.novel,
                n,
            ).paragraphs == fresh.paragraphs;
            &&& !stored ==> after.report.added == pass.report.added.push(n)
                && after.report.replaced == pass.report.replaced && after.report.unchanged
                == pass.report.unchanged
            &&& stored && same ==> after.report.unchanged == pass.report.unchanged.push(n)
                && after.report.added == pass.report.added && after.report.replaced
                == pass.report.replaced && with == lib
            &&& stored && !same ==> after.report.replaced == pass.report.replaced.push(n)
                && after.report.added == pass.report.added && after.report.unchanged
                == pass.report.unchanged
            &&& after.report.skipped == pass.report.skipped
            &&& pass.dry_run ==> with == lib
            &&& !pass.dry_run && !(stored && same) ==> {
                &&& with.chapters.contains_key(k)
                &&& with.chapters[k].title == fresh.title
                &&& with.chapters[k].body == text::join(fresh.paragraphs, seq!['\n', '\n'])
                &&& with.chapters[k].source_id == Some(id)
                &&& !with.chapters[k].exported
            }
        },
{
    let id = pass.sources[pass.found[at as int].source].id;
    crate::laws::law_a_replaced_chapter_is_on_record(lib, pass.novel, id, fresh);
    if !lib.chapters.contains_key((pass.novel, fresh.number)) {
        crate::laws::law_a_stored_chapter_is_on_record(lib, pass.novel, id, fresh, now);
    }
}

/// A source that fails, or serves a placeholder, gives way to the next one that lists the chapter;
/// behind the last the chapter is reported as skipped, and nothing is written.
pub proof fn law_a_failed_source_gives_way(
    pass: RefetchView,
    lib: Library,
    i: usize,
    at: usize,
    f: FailureView,
    fresh: ChapterView,
    now: i64,
)
    requires
        pass.step == (Step::Fetching { i, at }),
        i < pass.targets.len(),
        at < pass.found.len() <= usize::MAX,
        repair::is_stub(fresh.paragraphs),
    ensures
        ({
            let n = pass.targets[i as int];
            let next = listing::next_listing(pass.found, n, at + 1);
            &&& pass.fetched(lib, Err(f), now) matches Some((after, with)) && with == lib && {
                &&& next < pass.found.len() ==> after.step == (Step::Fetching {
                    i,
                    at: next as usize,
                })
                &&& next >= pass.found.len() ==> after.report.skipped.len()
                    == pass.report.skipped.len() + 1 && after.report.skipped.last().0 == n
                &&& next >= pass.found.len() && !lib.chapters.contains_key((pass.novel, n))
                    ==> after.absent == pass.absent.push(n)
            }
            &&& pass.fetched(lib, Ok(fresh), now) matches Some((after, with)) && with == lib && {
                &&& next < pass.found.len() ==> after.step == (Step::Fetching {
                    i,
                    at: next as usize,
                })
                &&& next >= pass.found.len() ==> after.report.skipped.len()
                    == pass.report.skipped.len() + 1 && after.report.skipped.last().0 == n
            }
        }),
{
}

/// A novel that lacks a chapter which some source lists is to be filled again, unless the run was a
/// dry one; nothing else of the library changes at the end.
pub proof fn law_a_recoverable_chapter_reopens_the_novel(
    pass: RefetchView,
    lib: Library,
    now: i64,
    i: int,
)
    requires
        lib.novels.contains_key(pass.novel),
    ensures
        0 <= i < pass.absent.len() && listing::all_numbers(pass.found).contains(pass.absent[i])
            && !pass.dry_run ==> pass.closing(lib, now).novels[pass.novel].derived_state
            == DerivedState::Backfilling,
        pass.dry_run ==> pass.closing(lib, now) == lib,
        (forall|j: int|
            0 <= j < pass.absent.len() ==> !listing::all_numbers(pass.found).contains(
                #[trigger] pass.absent[j],
            )) ==> pass.closing(lib, now) == lib,
        pass.closing(lib, now).chapters == lib.chapters,
        pass.closing(lib, now).sources == lib.sources,
{
}

/// Behind each chapter the next one is taken up, and behind the last the pass is over; what was
/// gathered stays.
pub proof fn law_chapters_are_taken_up_in_turn(pass: RefetchView, i: usize)
    requires
        i < pass.targets.len() <= usize::MAX,
    ensures
        i + 1 < pass.targets.len() ==> pass.onward(i).action() == (ActionView::Announce {
            number: pass.targets[i + 1],
            position: i + 2,
            total: pass.targets.len() as int,
        }),
        i + 1 == pass.targets.len() ==> pass.onward(i).action() == ActionView::Finish,
        pass.onward(i).report == pass.report,
        pass.onward(i).targets == pass.targets,
        pass.onward(i).found == pass.found,
        pass.onward(i).absent == pass.absent,
{
}

} // verus!
