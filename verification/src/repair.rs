//! Re-fetching chapters that were stored as something other than the chapter.
//!
//! A site that gates part of its catalogue can serve a short "log in to keep
//! reading" placeholder with an ordinary 200, so the fetch succeeds and the
//! placeholder is stored as the chapter's text. Sync can never fix that on its own: a
//! chapter already present is never revisited, however wrong it is.
//!
//! Detection keys on the placeholder's wording, **not** on length alone. Real chapters
//! can be legitimately short (an author's note between arcs is a couple of hundred
//! characters of genuine content), and deleting one of those to "repair" it would be a
//! straight loss. Length only narrows the scan.
//!
//! Every replacement is also checked before it lands: the incoming text must not itself
//! be a placeholder, and must be longer than what is already stored. Repairing from a
//! source that is *also* gated would otherwise overwrite one stub with another, and
//! re-running it against a site having a bad day would overwrite a real chapter with a
//! stub.

use vstd::prelude::*;

use crate::fetch::{Failure, FailureView};
use crate::job::{Action, ActionView};
use crate::job;
use crate::library::Library;
use crate::library;
use crate::listing::{Listing, ListingView};
use crate::listing;
use crate::model::{Chapter, ChapterRef, ChapterView, RefView};
use crate::numbers;
use crate::source;
use crate::store::{SourceView, Store, StoredSource};
use crate::store;
use crate::table::Key;
use crate::text;

verus! {

/// Wordings that mark a gating placeholder rather than prose.
pub open spec fn gate_phrases() -> Seq<Seq<char>> {
    seq![
        "requires a free account"@,
        "log in to continue"@,
        "log in to keep reading"@,
        "sign in to continue"@,
        "sign up to continue"@,
        "create a free account"@,
        "subscribe to continue reading"@,
    ]
}

/// Only bodies shorter than this are even considered. A placeholder is a sentence or
/// two; this is generous enough to cover a wordier one while keeping the scan off the
/// whole table.
pub const STUB_MAX_CHARS: usize = 2000;

/// The text of a chapter as one line.
pub open spec fn running_text(paragraphs: Seq<Seq<char>>) -> Seq<char> {
    text::join(paragraphs, " "@)
}

pub open spec fn holds(s: Seq<char>, needle: Seq<char>) -> bool {
    text::find_from(s, needle, 0) is Some
}

/// Whether a lower-case text holds one of the wordings.
pub open spec fn says_gate(lowered: Seq<char>) -> bool {
    exists|i: int| 0 <= i < gate_phrases().len() && holds(lowered, #[trigger] gate_phrases()[i])
}

/// Whether a body is a gating placeholder rather than the chapter.
pub open spec fn is_stub(paragraphs: Seq<Seq<char>>) -> bool {
    &&& running_text(paragraphs).len() < STUB_MAX_CHARS
    &&& says_gate(text::lowercased_text(running_text(paragraphs)))
}

fn has_text(s: &Vec<char>, needle: &str) -> (r: bool)
    ensures
        r == holds(s@, needle@),
{
    let n = text::to_chars(needle);
    text::find(s, &n, 0).is_some()
}

/// Whether a text that is in lower case already holds one of the wordings that mark a
/// gating placeholder.
pub fn names_a_gate(lowered: &str) -> (r: bool)
    ensures
        r == says_gate(lowered@),
{
    let s = text::to_chars(lowered);
    let r = has_text(&s, "requires a free account") || has_text(&s, "log in to continue")
        || has_text(&s, "log in to keep reading") || has_text(&s, "sign in to continue")
        || has_text(&s, "sign up to continue") || has_text(&s, "create a free account")
        || has_text(&s, "subscribe to continue reading");
    proof {
        let p = gate_phrases();
        assert(p[0] == "requires a free account"@);
        assert(p[1] == "log in to continue"@);
        assert(p[2] == "log in to keep reading"@);
        assert(p[3] == "sign in to continue"@);
        assert(p[4] == "sign up to continue"@);
        assert(p[5] == "create a free account"@);
        assert(p[6] == "subscribe to continue reading"@);
    }
    r
}

/// Whether a stored body is a gating placeholder rather than the chapter.
pub fn looks_like_gate_stub(paragraphs: &[String]) -> (r: bool)
    ensures
        r == is_stub(text::texts(paragraphs@)),
{
    let body = text::join_texts(paragraphs, " ");
    let chars = text::to_chars(body.as_str());
    if chars.len() >= STUB_MAX_CHARS {
        return false;
    }
    let lowered = text::str_lowercase(body.as_str());
    names_a_gate(lowered.as_str())
}

/// A long chapter is never taken for a placeholder, whatever it says.
pub proof fn law_a_long_chapter_is_never_a_stub(paragraphs: Seq<Seq<char>>)
    requires
        running_text(paragraphs).len() >= STUB_MAX_CHARS,
    ensures
        !is_stub(paragraphs),
{
}

/// What a repair pass did.
#[derive(Debug)]
pub struct RepairReport {
    /// Chapter numbers whose text was replaced (or would be, on a dry run).
    pub repaired: Vec<u32>,
    /// Chapters left alone, with why.
    pub skipped: Vec<(u32, String)>,
}

pub open spec fn reasons(v: Seq<(u32, String)>) -> Seq<(u32, Seq<char>)> {
    v.map_values(|p: (u32, String)| (p.0, p.1@))
}

impl Default for RepairReport {
    fn default() -> (r: Self)
        ensures
            r.repaired@.len() == 0,
            r.skipped@.len() == 0,
    {
        RepairReport { repaired: Vec::new(), skipped: Vec::new() }
    }
}

impl RepairReport {
    /// Whether the pass found nothing to do and nothing to say.
    pub fn is_empty(&self) -> (r: bool)
        ensures
            r == (self.repaired@.len() == 0 && self.skipped@.len() == 0),
    {
        self.repaired.len() == 0 && self.skipped.len() == 0
    }
}

/// Why a replacement is refused, if it is.
pub open spec fn refusal(stored: ChapterView, fresh: ChapterView) -> Option<Seq<char>> {
    let old = running_text(stored.paragraphs).len();
    let new = running_text(fresh.paragraphs).len();
    if is_stub(fresh.paragraphs) {
        Some("the source served the same kind of placeholder"@)
    } else if new <= old {
        Some(
            "replacement is no longer than what is stored ("@ + text::decimal(new) + " vs "@
                + text::decimal(old) + " chars)"@,
        )
    } else {
        None
    }
}

/// Refuse a replacement that isn't an improvement.
pub fn acceptable_replacement(stored: &Chapter, fresh: &Chapter) -> (r: Result<(), String>)
    ensures
        match refusal(stored@, fresh@) {
            None => r is Ok,
            Some(why) => r matches Err(e) && e@ == why,
        },
{
    if looks_like_gate_stub(&fresh.paragraphs) {
        return Err("the source served the same kind of placeholder".to_string());
    }
    let before = text::to_chars(text::join_texts(&stored.paragraphs, " ").as_str());
    let after = text::to_chars(text::join_texts(&fresh.paragraphs, " ").as_str());
    if after.len() <= before.len() {
        let mut v = text::to_chars("replacement is no longer than what is stored (");
        let n = text::decimal_chars(after.len() as u64);
        text::push_all(&mut v, &n);
        text::push_str(&mut v, " vs ");
        let n = text::decimal_chars(before.len() as u64);
        text::push_all(&mut v, &n);
        text::push_str(&mut v, " chars)");
        return Err(text::to_text(&v));
    }
    Ok(())
}

/// A replacement that is accepted is no placeholder, and longer than what was stored.
pub proof fn law_replacements_are_improvements(stored: ChapterView, fresh: ChapterView)
    requires
        refusal(stored, fresh) is None,
    ensures
        !is_stub(fresh.paragraphs),
        running_text(fresh.paragraphs).len() > running_text(stored.paragraphs).len(),
{
}

// ---------------------------------------------------------------------------
// The pass
// ---------------------------------------------------------------------------

/// Where a repair pass stands.
#[derive(Debug, Clone, Copy)]
pub enum Step {
    /// Waiting for the chapter list of a source.
    Discovering { next: usize },
    /// About to take up a chapter.
    Starting { i: usize },
    /// Waiting for a chapter from the source of a listing.
    Fetching { i: usize, at: usize },
    Done,
}

/// A repair pass as plain values.
#[verifier::ext_equal]
pub struct RepairView {
    pub novel: i64,
    pub dry_run: bool,
    pub sources: Seq<SourceView>,
    /// The chapters to replace, as they are stored.
    pub targets: Seq<ChapterView>,
    pub found: Seq<ListingView>,
    pub repaired: Seq<u32>,
    pub skipped: Seq<(u32, Seq<char>)>,
    /// Why the chapter at hand has not been replaced yet.
    pub why: Seq<char>,
    pub step: Step,
}

/// The placeholders among a novel's stored chapters.
pub open spec fn stored_stubs(lib: Library, novel: i64) -> Set<u32> {
    Set::new(
        |n: u32|
            store::short_chapter(lib, novel, n, STUB_MAX_CHARS) && is_stub(
                lib.chapter(novel, n).paragraphs,
            ),
    )
}

/// The stored chapters a pass takes up: the one that was named, or else every
/// placeholder, by number.
pub open spec fn repair_targets(lib: Library, novel: i64, only: Option<u32>) -> Seq<ChapterView> {
    match only {
        Some(n) => if lib.stored(novel).contains(n) {
            seq![lib.chapter(novel, n)]
        } else {
            seq![]
        },
        None => numbers::listing(stored_stubs(lib, novel)).map_values(
            |n: u32| lib.chapter(novel, n),
        ),
    }
}

impl RepairView {
    /// A pass at its start. A chapter that was named but is not stored is skipped.
    pub open spec fn planned(
        lib: Library,
        novel: i64,
        sources: Seq<SourceView>,
        only: Option<u32>,
        dry_run: bool,
    ) -> RepairView {
        let targets = repair_targets(lib, novel, only);
        RepairView {
            novel,
            dry_run,
            sources,
            targets,
            found: seq![],
            repaired: seq![],
            skipped: match only {
                Some(n) => if lib.stored(novel).contains(n) {
                    seq![]
                } else {
                    seq![(n, "not stored for this novel"@)]
                },
                None => seq![],
            },
            why: seq![],
            step: if targets.len() == 0 {
                Step::Done
            } else {
                Step::Discovering { next: 0 }
            },
        }
    }

    pub open spec fn action(self) -> ActionView {
        match self.step {
            Step::Discovering { next } => ActionView::Discover { source: next as int },
            Step::Starting { i } => ActionView::Announce {
                number: self.targets[i as int].number,
                position: i + 1,
                total: self.targets.len() as int,
            },
            Step::Fetching { i, at } => {
                let l = self.found[at as int];
                ActionView::Fetch {
                    source: l.source,
                    chapter: l.refs[listing::first_at(l.refs, self.targets[i as int].number)],
                }
            },
            Step::Done => ActionView::Finish,
        }
    }

    /// After a source's answer to the request for its chapter list.
    pub open spec fn discovered(self, answer: Result<Seq<RefView>, Seq<char>>) -> RepairView {
        match self.step {
            Step::Discovering { next } => {
                let step = if next + 1 < self.sources.len() {
                    Step::Discovering { next: (next + 1) as usize }
                } else {
                    Step::Starting { i: 0 }
                };
                match answer {
                    Ok(refs) => RepairView {
                        found: self.found.push(ListingView { source: next as int, refs }),
                        step,
                        ..self
                    },
                    Err(e) => RepairView {
                        skipped: self.skipped.push(
                            (
                                0u32,
                                "discovery failed for "@ + self.sources[next as int].name + ": "@
                                    + e,
                            ),
                        ),
                        step,
                        ..self
                    },
                }
            },
            _ => self,
        }
    }

    /// On to the chapter behind the `i`-th.
    pub open spec fn onward(self, i: usize) -> RepairView {
        RepairView {
            step: if i + 1 < self.targets.len() {
                Step::Starting { i: (i + 1) as usize }
            } else {
                Step::Done
            },
            ..self
        }
    }

    /// Try the `i`-th chapter at the next source, from the `from`-th listing on, that has
    /// it. When there is none, it is skipped for the last reason.
    pub open spec fn trying(self, i: usize, from: int, why: Seq<char>) -> RepairView {
        let number = self.targets[i as int].number;
        let at = listing::next_listing(self.found, number, from);
        if at < self.found.len() {
            RepairView { why, step: Step::Fetching { i, at: at as usize }, ..self }
        } else {
            RepairView { why, skipped: self.skipped.push((number, why)), ..self }.onward(i)
        }
    }

    /// After the chapter was announced.
    pub open spec fn announced(self) -> RepairView {
        match self.step {
            Step::Starting { i } => self.trying(i, 0, "no source lists this chapter"@),
            _ => self,
        }
    }

    /// After a source's answer to the request for a chapter, and what becomes of the
    /// library. `None` where the library has no such source.
    pub open spec fn fetched(self, lib: Library, answer: Result<ChapterView, FailureView>) -> Option<
        (RepairView, Library),
    > {
        match self.step {
            Step::Fetching { i, at } => {
                let source = self.sources[self.found[at as int].source];
                let stored = self.targets[i as int];
                match answer {
                    Err(f) => Some(
                        (self.trying(i, at + 1, source.name + ": "@ + f.message), lib),
                    ),
                    Ok(fresh) => match refusal(stored, fresh) {
                        Some(why) => Some((self.trying(i, at + 1, why), lib)),
                        None => {
                            let after = RepairView {
                                repaired: self.repaired.push(stored.number),
                                ..self
                            }.onward(i);
                            if self.dry_run {
                                Some((after, lib))
                            } else if lib.stored(self.novel).contains(fresh.number)
                                && !lib.sources.contains_key(source.id) {
                                None
                            } else {
                                Some((after, lib.with_content(self.novel, source.id, fresh)))
                            }
                        },
                    },
                }
            },
            _ => Some((self, lib)),
        }
    }
}

/// A repair pass: re-fetches and replaces a novel's placeholder chapters. It says what it
/// needs next, takes in the answers, and ends with a report.
pub struct RepairJob {
    novel_id: i64,
    dry_run: bool,
    sources: Vec<StoredSource>,
    targets: Vec<Chapter>,
    found: Vec<Listing>,
    report: RepairReport,
    why: String,
    step: Step,
}

impl View for RepairJob {
    type V = RepairView;

    closed spec fn view(&self) -> RepairView {
        RepairView {
            novel: self.novel_id,
            dry_run: self.dry_run,
            sources: store::source_views(self.sources@),
            targets: crate::epub::chapter_views(self.targets@),
            found: listing::listing_views(self.found@),
            repaired: self.report.repaired@,
            skipped: reasons(self.report.skipped@),
            why: self.why@,
            step: self.step,
        }
    }
}

fn pick_stubs(store: &Store, novel_id: i64) -> (r: Vec<Chapter>)
    requires
        store.wf(),
    ensures
        crate::epub::chapter_views(r@) == repair_targets(store@, novel_id, None),
{
    let short = store.chapters_shorter_than(novel_id, STUB_MAX_CHARS);
    let ghost lib = store@;
    let ghost all = store::chapter_numbers(short@);
    let mut out: Vec<Chapter> = Vec::new();
    let mut i: usize = 0;
    while i < short.len()
        invariant
            i <= short@.len(),
            all == store::chapter_numbers(short@),
            numbers::ascending(all),
            forall|j: int|
                0 <= j < short@.len() ==> (#[trigger] short@[j])@ == lib.chapter(
                    novel_id,
                    short@[j].number,
                ),
            numbers::ascending(store::chapter_numbers(out@)),
            forall|n: u32| #[trigger]
                store::chapter_numbers(out@).contains(n) <==> (all.take(i as int).contains(n)
                    && is_stub(lib.chapter(novel_id, n).paragraphs)),
            forall|j: int|
                0 <= j < out@.len() ==> (#[trigger] out@[j])@ == lib.chapter(
                    novel_id,
                    out@[j].number,
                ),
        decreases short@.len() - i,
    {
        let ghost before = store::chapter_numbers(out@);
        let ghost n = short@[i as int].number;
        assert(all[i as int] == n);
        let taken = looks_like_gate_stub(&short[i].paragraphs);
        assert(short@[i as int]@ == lib.chapter(novel_id, n));
        assert(taken == is_stub(lib.chapter(novel_id, n).paragraphs));
        if taken {
            let c = short[i].clone();
            assert(c@.number == n);
            out.push(c);
        }
        proof {
            let after = store::chapter_numbers(out@);
            assert(after =~= if taken {
                before.push(n)
            } else {
                before
            });
            store::lemma_filter_step(all, i as int, before, after, n, taken);
        }
        i += 1;
    }
    proof {
        assert(all.take(all.len() as int) =~= all);
        let picked = store::chapter_numbers(out@);
        assert forall|n: u32| #[trigger] picked.contains(n) <==> stored_stubs(
            lib,
            novel_id,
        ).contains(n) by {
            assert(all.contains(n) <==> Set::new(
                |n: u32| store::short_chapter(lib, novel_id, n, STUB_MAX_CHARS),
            ).contains(n));
        }
        numbers::lemma_listing(picked, stored_stubs(lib, novel_id));
        assert(crate::epub::chapter_views(out@) =~= repair_targets(lib, novel_id, None));
    }
    out
}

impl RepairJob {
    pub closed spec fn wf(&self) -> bool {
        &&& forall|j: int|
            0 <= j < self.found@.len() ==> (#[trigger] self.found@[j]).source < self.sources@.len()
        &&& match self.step {
            Step::Discovering { next } => next < self.sources@.len() && self.targets@.len() > 0,
            Step::Starting { i } => i < self.targets@.len(),
            Step::Fetching { i, at } => i < self.targets@.len() && at < self.found@.len()
                && self.found@[at as int]@.lists(self.targets@[i as int].number),
            Step::Done => true,
        }
    }

    /// Begin a pass. `only` repairs one specific chapter regardless of how its stored
    /// text looks, for a bad chapter whose wording isn't recognised; the safety checks on
    /// the *incoming* text still apply. `dry_run` reports without writing.
    pub fn start(
        store: &Store,
        novel_id: i64,
        sources: Vec<StoredSource>,
        only: Option<u32>,
        dry_run: bool,
    ) -> (r: Result<RepairJob, String>)
        requires
            store.wf(),
        ensures
            match r {
                Ok(job) => job.wf() && job@ == RepairView::planned(
                    store@,
                    novel_id,
                    store::source_views(sources@),
                    only,
                    dry_run,
                ),
                Err(e) => e@ == "no usable source to re-fetch from"@,
            },
            r is Err == (repair_targets(store@, novel_id, only).len() > 0 && sources@.len() == 0),
    {
        let mut report = RepairReport::default();
        let targets = match only {
            Some(n) => match store.load_chapter(novel_id, n) {
                Some(c) => {
                    let mut v: Vec<Chapter> = Vec::new();
                    v.push(c);
                    assert(crate::epub::chapter_views(v@) =~= repair_targets(
                        store@,
                        novel_id,
                        only,
                    ));
                    v
                },
                None => {
                    report.skipped.push((n, "not stored for this novel".to_string()));
                    Vec::new()
                },
            },
            None => pick_stubs(store, novel_id),
        };
        assert(crate::epub::chapter_views(targets@) =~= repair_targets(store@, novel_id, only));
        let step = if targets.len() == 0 {
            Step::Done
        } else {
            if sources.len() == 0 {
                return Err("no usable source to re-fetch from".to_string());
            }
            Step::Discovering { next: 0 }
        };
        let job = RepairJob {
            novel_id,
            dry_run,
            sources,
            targets,
            found: Vec::new(),
            report,
            why: String::new(),
            step,
        };
        proof {
            let plan = RepairView::planned(
                store@,
                novel_id,
                store::source_views(sources@),
                only,
                dry_run,
            );
            assert(job@.skipped =~= plan.skipped);
            assert(job@.found =~= plan.found);
            assert(job@.repaired =~= plan.repaired);
            assert(job@ =~= plan);
        }
        Ok(job)
    }

    /// What the pass needs next.
    pub fn next(&self) -> (r: Action)
        requires
            self.wf(),
        ensures
            r@ == self@.action(),
    {
        match self.step {
            Step::Discovering { next } => Action::Discover { source: next },
            Step::Starting { i } => {
                let total: usize = self.targets.len();
                Action::Announce { number: self.targets[i].number, position: i + 1, total }
            },
            Step::Fetching { i, at } => {
                let n: u32 = self.targets[i].number;
                assert(self@.found[at as int] == self.found@[at as int]@);
                match self.found[at].first(n) {
                    Some(c) => Action::Fetch { source: self.found[at].source, chapter: c.clone() },
                    None => Action::Finish,
                }
            },
            Step::Done => Action::Finish,
        }
    }

    /// Take in a source's chapter list, or why it could not be had.
    pub fn on_discovered(&mut self, answer: Result<Vec<ChapterRef>, Failure>)
        requires
            old(self).wf(),
        ensures
            final(self).wf(),
            final(self)@ == old(self)@.discovered(job::list_answer(answer)),
    {
        let ghost before = self@;
        if let Step::Discovering { next } = self.step {
            match answer {
                Ok(refs) => {
                    let ghost l = ListingView {
                        source: next as int,
                        refs: source::ref_views(refs@),
                    };
                    self.found.push(Listing { source: next, refs });
                    assert(self@.found =~= before.found.push(l));
                },
                Err(f) => {
                    let mut v = text::to_chars("discovery failed for ");
                    text::push_str(&mut v, self.sources[next].name.as_str());
                    text::push_str(&mut v, ": ");
                    text::push_str(&mut v, f.message.as_str());
                    let why = text::to_text(&v);
                    self.report.skipped.push((0, why));
                    assert(self@.skipped =~= before.skipped.push((0u32, why@)));
                },
            }
            let count: usize = self.sources.len();
            let more: usize = next + 1;
            self.step = if more < count {
                Step::Discovering { next: more }
            } else {
                Step::Starting { i: 0 }
            };
            assert(self@ =~= before.discovered(job::list_answer(answer)));
        }
    }

    fn go_on(&mut self, i: usize)
        requires
            i < old(self).targets@.len(),
            forall|j: int|
                0 <= j < old(self).found@.len() ==> (#[trigger] old(self).found@[j]).source < old(
                    self,
                ).sources@.len(),
        ensures
            final(self).wf(),
            final(self)@ == old(self)@.onward(i),
    {
        let count: usize = self.targets.len();
        let more: usize = i + 1;
        self.step = if more < count {
            Step::Starting { i: more }
        } else {
            Step::Done
        };
    }

    fn try_next(&mut self, i: usize, from: usize, why: String)
        requires
            i < old(self).targets@.len(),
            from <= old(self).found@.len(),
            forall|j: int|
                0 <= j < old(self).found@.len() ==> (#[trigger] old(self).found@[j]).source < old(
                    self,
                ).sources@.len(),
        ensures
            final(self).wf(),
            final(self)@ == old(self)@.trying(i, from as int, why@),
    {
        let ghost before = self@;
        let number: u32 = self.targets[i].number;
        assert(before.targets[i as int].number == number);
        let at: usize = listing::find_listing(&self.found, number, from);
        self.why = why.clone();
        if at < self.found.len() {
            self.step = Step::Fetching { i, at };
        } else {
            self.report.skipped.push((number, why));
            assert(self@.skipped =~= before.skipped.push((number, why@)));
            self.go_on(i);
        }
        assert(self@ =~= before.trying(i, from as int, why@));
    }

    /// The chapter has been announced.
    pub fn on_announced(&mut self)
        requires
            old(self).wf(),
        ensures
            final(self).wf(),
            final(self)@ == old(self)@.announced(),
    {
        if let Step::Starting { i } = self.step {
            self.try_next(i, 0, "no source lists this chapter".to_string());
        }
    }

    /// Take in a chapter, or why it could not be had.
    pub fn on_fetched(&mut self, store: &mut Store, answer: Result<Chapter, Failure>) -> (r: Result<
        (),
        String,
    >)
        requires
            old(self).wf(),
            old(store).wf(),
        ensures
            final(self).wf(),
            final(store).wf(),
            match old(self)@.fetched(old(store)@, job::chapter_answer(answer)) {
                Some((after, lib)) => r is Ok && final(self)@ == after && final(store)@ == lib,
                None => (r matches Err(e) && e@ == library::broken_reference()) && final(self)@
                    == old(self)@ && final(store)@ == old(store)@,
            },
    {
        if let Step::Fetching { i, at } = self.step {
            let count: usize = self.found.len();
            let k: usize = self.found[at].source;
            assert(at < count);
            assert(self@.found[at as int] == self.found@[at as int]@);
            assert(self@.sources[k as int] == self.sources@[k as int]@);
            assert(self@.targets[i as int] == self.targets@[i as int]@);
            match answer {
                Err(f) => {
                    let mut v = text::to_chars(self.sources[k].name.as_str());
                    text::push_str(&mut v, ": ");
                    text::push_str(&mut v, f.message.as_str());
                    let why = text::to_text(&v);
                    self.try_next(i, at + 1, why);
                },
                Ok(fresh) => {
                    match acceptable_replacement(&self.targets[i], &fresh) {
                        Err(why) => {
                            self.try_next(i, at + 1, why);
                        },
                        Ok(_) => {
                            if !self.dry_run {
                                let id: i64 = self.sources[k].id;
                                if let Err(e) = store.update_chapter_content(
                                    self.novel_id,
                                    id,
                                    &fresh,
                                ) {
                                    return Err(e);
                                }
                            }
                            let number: u32 = self.targets[i].number;
                            let ghost before = self@;
                            self.report.repaired.push(number);
                            assert(self@ =~= (RepairView {
                                repaired: before.repaired.push(number),
                                ..before
                            }));
                            self.go_on(i);
                        },
                    }
                },
            }
        }
        Ok(())
    }

    /// The report so far.
    pub fn report(&self) -> (r: &RepairReport)
        ensures
            r.repaired@ == self@.repaired,
            reasons(r.skipped@) == self@.skipped,
    {
        &self.report
    }

    /// The report of the pass.
    pub fn finish(self) -> (r: RepairReport)
        ensures
            r.repaired@ == self@.repaired,
            reasons(r.skipped@) == self@.skipped,
    {
        self.report
    }
}

/// Whatever a source answers, no chapter is lost, and the only one whose text can change
/// is the one that came in: it is no placeholder, and longer than the stored text it was
/// fetched for. Nothing but chapters changes.
pub proof fn law_repair_only_improves(
    pass: RepairView,
    lib: Library,
    answer: Result<ChapterView, FailureView>,
    k: Key,
)
    requires
        pass.fetched(lib, answer) is Some,
        lib.chapters.contains_key(k),
    ensures
        ({
            let after = (pass.fetched(lib, answer)->0).1;
            &&& after == (Library { chapters: after.chapters, ..lib })
            &&& after.chapters.dom() == lib.chapters.dom()
            &&& after.chapters[k] == lib.chapters[k] || ((answer matches Ok(fresh)) && k == (
                pass.novel,
                answer->Ok_0.number,
            ) && !is_stub(answer->Ok_0.paragraphs) && (pass.step matches Step::Fetching { i, at }
                && running_text(answer->Ok_0.paragraphs).len() > running_text(
                pass.targets[i as int].paragraphs,
            ).len()))
        }),
{
    let after = (pass.fetched(lib, answer)->0).1;
    assert(after.chapters.dom() =~= lib.chapters.dom());
}

/// A dry run writes nothing.
pub proof fn law_a_dry_repair_writes_nothing(
    pass: RepairView,
    lib: Library,
    answer: Result<ChapterView, FailureView>,
)
    requires
        pass.dry_run,
    ensures
        pass.fetched(lib, answer) is Some,
        (pass.fetched(lib, answer)->0).1 == lib,
{
}

/// A refused replacement is not the end of it: the next source that lists the chapter is
/// tried, and the library stays as it is.
pub proof fn law_repair_falls_through(
    pass: RepairView,
    lib: Library,
    fresh: ChapterView,
    i: usize,
    at: usize,
    later: int,
)
    requires
        pass.step == (Step::Fetching { i, at }),
        refusal(pass.targets[i as int], fresh) is Some,
        at < later < pass.found.len(),
        pass.found.len() <= usize::MAX,
        pass.found[later].lists(pass.targets[i as int].number),
    ensures
        pass.fetched(lib, Ok(fresh)) matches Some((after, unchanged)) && unchanged == lib && (
        after.step matches Step::Fetching { i: j, at: next } && j == i && at < next <= later),
{
    let number = pass.targets[i as int].number;
    listing::lemma_next_listing(pass.found, number, at + 1);
}

/// A placeholder is a short text that holds one of the known wordings, in any case; a text without
/// any of them never is one.
pub proof fn law_a_placeholder_says_so(paragraphs: Seq<Seq<char>>, i: int)
    ensures
        ({
            let t = text::join(paragraphs, " "@);
            let l = text::lowercased_text(t);
            &&& t.len() < 2000 && text::occurs_at(l, "requires a free account"@, i) ==> is_stub(
                paragraphs,
            )
            &&& t.len() < 2000 && text::occurs_at(l, "log in to continue"@, i) ==> is_stub(
                paragraphs,
            )
            &&& t.len() < 2000 && text::occurs_at(l, "log in to keep reading"@, i) ==> is_stub(
                paragraphs,
            )
            &&& t.len() < 2000 && text::occurs_at(l, "sign in to continue"@, i) ==> is_stub(
                paragraphs,
            )
            &&& t.len() < 2000 && text::occurs_at(l, "sign up to continue"@, i) ==> is_stub(
                paragraphs,
            )
            &&& t.len() < 2000 && text::occurs_at(l, "create a free account"@, i) ==> is_stub(
                paragraphs,
            )
            &&& t.len() < 2000 && text::occurs_at(l, "subscribe to continue reading"@, i)
                ==> is_stub(paragraphs)
            &&& is_stub(paragraphs) ==> t.len() < 2000 && exists|k: int, j: int|
                0 <= k < gate_phrases().len() && #[trigger] text::occurs_at(
                    l,
                    gate_phrases()[k],
                    j,
                )
        }),
{
    let t = text::join(paragraphs, " "@);
    let l = text::lowercased_text(t);
    let g = gate_phrases();
    assert forall|k: int| 0 <= k < g.len() && text::occurs_at(
        l,
        #[trigger] g[k],
        i,
    ) implies says_gate(l) by {
        text::lemma_find_from(l, g[k], 0);
        assert(holds(l, g[k]));
    }
    assert(g[0] == "requires a free account"@ && g[1] == "log in to continue"@ && g[2]
        == "log in to keep reading"@ && g[3] == "sign in to continue"@ && g[4]
        == "sign up to continue"@ && g[5] == "create a free account"@ && g[6]
        == "subscribe to continue reading"@);
    if is_stub(paragraphs) {
        let k = choose|k: int| 0 <= k < g.len() && holds(l, #[trigger] g[k]);
        text::lemma_find_from(l, g[k], 0);
        let j = text::find_from(l, g[k], 0)->0;
        assert(text::occurs_at(l, gate_phrases()[k], j));
    }
}

/// A replacement is taken exactly where it is no placeholder and longer than what is stored.
pub proof fn law_a_longer_text_is_taken(stored: ChapterView, fresh: ChapterView)
    ensures
        refusal(stored, fresh) is None <==> !is_stub(fresh.paragraphs) && text::join(
            fresh.paragraphs,
            " "@,
        ).len() > text::join(stored.paragraphs, " "@).len(),
{
}

/// A repair takes up every stored placeholder, in ascending order, or the one chapter that was
/// named, as it is stored.
pub proof fn law_every_placeholder_is_taken_up(
    lib: Library,
    novel: i64,
    sources: Seq<SourceView>,
    dry_run: bool,
    n: u32,
)
    ensures
        ({
            let pass = RepairView::planned(lib, novel, sources, None, dry_run);
            let one = RepairView::planned(lib, novel, sources, Some(n), dry_run);
            &&& store::short_chapter(lib, novel, n, 2000) && is_stub(
                lib.chapter(novel, n).paragraphs,
            ) ==> exists|i: int|
                0 <= i < pass.targets.len() && #[trigger] pass.targets[i] == lib.chapter(novel, n)
            &&& forall|i: int|
                0 <= i < pass.targets.len() ==> is_stub((#[trigger] pass.targets[i]).paragraphs)
                    && lib.chapters.contains_key((novel, pass.targets[i].number))
            &&& forall|i: int, j: int|
                0 <= i < j < pass.targets.len() ==> (#[trigger] pass.targets[i]).number < (
                #[trigger] pass.targets[j]).number
            &&& lib.chapters.contains_key((novel, n)) ==> one.targets == seq![
                lib.chapter(novel, n),
            ]
            &&& !lib.chapters.contains_key((novel, n)) ==> one.targets.len() == 0
                && one.skipped.len() == 1 && one.skipped[0].0 == n && one.action()
                == ActionView::Finish
            &&& lib.chapters.contains_key((novel, n)) ==> one.action() == (ActionView::Discover {
                source: 0,
            })
            &&& one.dry_run == dry_run && one.novel == novel && one.sources == sources
            &&& pass.dry_run == dry_run && pass.novel == novel && pass.sources == sources
        }),
{
    let set = stored_stubs(lib, novel);
    let ns = numbers::listing(set);
    numbers::lemma_listing_lists(set);
    let pass = RepairView::planned(lib, novel, sources, None, dry_run);
    assert forall|i: int| 0 <= i < pass.targets.len() implies is_stub(
        (#[trigger] pass.targets[i]).paragraphs,
    ) && lib.chapters.contains_key((novel, pass.targets[i].number)) by {
        assert(ns.contains(ns[i]));
        assert(set.contains(ns[i]));
    }
    if store::short_chapter(lib, novel, n, 2000) && is_stub(lib.chapter(novel, n).paragraphs) {
        assert(set.contains(n));
        assert(ns.contains(n));
        let i = choose|i: int| 0 <= i < ns.len() && ns[i] == n;
        assert(pass.targets[i] == lib.chapter(novel, n));
    }
}

/// A repair lists every source in turn, and then takes up the chapters from the first on, each at
/// the first source that lists it and under the address that source gives.
pub proof fn law_a_repair_asks_as_listed(
    pass: RepairView,
    refs: Seq<RefView>,
    e: Seq<char>,
    next: usize,
    i: usize,
    at: usize,
)
    requires
        pass.found.len() <= usize::MAX,
        pass.sources.len() <= usize::MAX,
    ensures
        pass.step == (Step::Discovering { next }) && next + 1 < pass.sources.len()
            ==> pass.discovered(Ok(refs)).action() == (ActionView::Discover { source: next + 1 })
            && pass.discovered(Err(e)).action() == (ActionView::Discover { source: next + 1 }),
        pass.step == (Step::Discovering { next }) ==> pass.discovered(Ok(refs)).found
            == pass.found.push(ListingView { source: next as int, refs }) && pass.discovered(
            Err(e),
        ).found == pass.found && pass.discovered(Err(e)).skipped.len() == pass.skipped.len() + 1,
        pass.step == (Step::Discovering { next }) && next + 1 >= pass.sources.len()
            && pass.targets.len() > 0 ==> pass.discovered(Ok(refs)).action() == (
        ActionView::Announce {
            number: pass.targets[0].number,
            position: 1,
            total: pass.targets.len() as int,
        }),
        pass.step == (Step::Starting { i }) && i < pass.targets.len() ==> {
            let n = pass.targets[i as int].number;
            match pass.announced().step {
                Step::Fetching { i: i2, at: at2 } => i2 == i && at2 < pass.found.len()
                    && pass.found[at2 as int].lists(n) && forall|j: int|
                    0 <= j < at2 ==> !(#[trigger] pass.found[j]).lists(n),
                _ => (forall|j: int|
                    0 <= j < pass.found.len() ==> !(#[trigger] pass.found[j]).lists(n))
                    && pass.announced().skipped.len() == pass.skipped.len() + 1
                    && pass.announced().skipped.last().0 == n,
            }
        },
        pass.step == (Step::Fetching { i, at }) && at < pass.found.len() && i < pass.targets.len()
            && pass.found[at as int].lists(pass.targets[i as int].number) ==> (
        pass.action() matches ActionView::Fetch { source, chapter } && source
            == pass.found[at as int].source && chapter.number == pass.targets[i as int].number
            && pass.found[at as int].refs.contains(chapter)),
{
    if pass.step == (Step::Starting { i }) && i < pass.targets.len() {
        listing::lemma_next_listing(pass.found, pass.targets[i as int].number, 0);
    }
    if pass.step == (Step::Fetching { i, at }) && at < pass.found.len() && i < pass.targets.len()
        && pass.found[at as int].lists(pass.targets[i as int].number) {
        let l = pass.found[at as int];
        let n = pass.targets[i as int].number;
        listing::lemma_first_at(l.refs, n);
        let x = choose|x: int| 0 <= x < l.refs.len() && (#[trigger] l.refs[x]).number == n;
        assert(l.refs[x].number == n);
        let f = listing::first_at(l.refs, n);
        assert(l.refs.contains(l.refs[f]));
    }
}

/// A longer text that is no placeholder takes the place of the stored one and is reported as
/// repaired, and the pass goes on to the next chapter.
pub proof fn law_a_repaired_chapter_is_stored(
    pass: RepairView,
    lib: Library,
    i: usize,
    at: usize,
    fresh: ChapterView,
)
    requires
        pass.step == (Step::Fetching { i, at }),
        i < pass.targets.len() <= usize::MAX,
        at < pass.found.len(),
        refusal(pass.targets[i as int], fresh) is None,
        lib.chapters.contains_key((pass.novel, fresh.number)),
        lib.sources.contains_key(pass.sources[pass.found[at as int].source].id),
    ensures
        pass.fetched(lib, Ok(fresh)) matches Some((after, with)) && {
            let k = (pass.novel, fresh.number);
            &&& after.repaired == pass.repaired.push(pass.targets[i as int].number)
            &&& after.skipped == pass.skipped
            &&& pass.dry_run ==> with == lib
            &&& !pass.dry_run ==> {
                &&& with.chapters[k].title == fresh.title
                &&& with.chapters[k].body == text::join(fresh.paragraphs, seq!['\n', '\n'])
                &&& with.chapters[k].source_id == Some(
                    pass.sources[pass.found[at as int].source].id,
                )
            }
            &&& i + 1 < pass.targets.len() ==> after.step == (Step::Starting {
                i: (i + 1) as usize,
            })
            &&& i + 1 >= pass.targets.len() ==> after.step == Step::Done
        },
{
    let source = pass.sources[pass.found[at as int].source];
    crate::laws::law_a_replaced_chapter_is_on_record(lib, pass.novel, source.id, fresh);
}

/// Behind each chapter the next one is taken up, and behind the last the pass is over. A source that
/// fails, or whose text is refused, gives way to the next that lists the chapter; behind the last
/// the chapter is reported as skipped and nothing is written.
pub proof fn law_placeholders_are_taken_up_in_turn(
    pass: RepairView,
    lib: Library,
    i: usize,
    at: usize,
    f: FailureView,
)
    requires
        i < pass.targets.len() <= usize::MAX,
        at < pass.found.len() <= usize::MAX,
        pass.step == (Step::Fetching { i, at }),
    ensures
        i + 1 < pass.targets.len() ==> pass.onward(i).action() == (ActionView::Announce {
            number: pass.targets[i + 1].number,
            position: i + 2,
            total: pass.targets.len() as int,
        }),
        i + 1 == pass.targets.len() ==> pass.onward(i).action() == ActionView::Finish,
        ({
            let n = pass.targets[i as int].number;
            let next = listing::next_listing(pass.found, n, at + 1);
            &&& pass.fetched(lib, Err(f)) matches Some((after, with)) && with == lib && {
                &&& after.repaired == pass.repaired
                &&& next < pass.found.len() ==> after.step == (Step::Fetching {
                    i,
                    at: next as usize,
                }) && after.skipped == pass.skipped
                &&& next >= pass.found.len() ==> after.skipped.len() == pass.skipped.len() + 1
                    && after.skipped.last().0 == n
            }
        }),
{
}

/// A text that holds none of the seven wordings is no placeholder.
pub proof fn law_ordinary_text_is_no_placeholder(paragraphs: Seq<Seq<char>>)
    requires
        ({
            let l = text::lowercased_text(text::join(paragraphs, " "@));
            forall|i: int|
                #![trigger text::occurs_at(l, "log in to continue"@, i)]
                !text::occurs_at(l, "requires a free account"@, i) && !text::occurs_at(
                    l,
                    "log in to continue"@,
                    i,
                ) && !text::occurs_at(l, "log in to keep reading"@, i) && !text::occurs_at(
                    l,
                    "sign in to continue"@,
                    i,
                ) && !text::occurs_at(l, "sign up to continue"@, i) && !text::occurs_at(
                    l,
                    "create a free account"@,
                    i,
                ) && !text::occurs_at(l, "subscribe to continue reading"@, i)
        }),
    ensures
        !is_stub(paragraphs),
{
    let l = text::lowercased_text(text::join(paragraphs, " "@));
    let g = gate_phrases();
    assert(g[0] == "requires a free account"@ && g[1] == "log in to continue"@ && g[2]
        == "log in to keep reading"@ && g[3] == "sign in to continue"@ && g[4]
        == "sign up to continue"@ && g[5] == "create a free account"@ && g[6]
        == "subscribe to continue reading"@);
    if says_gate(l) {
        let k = choose|k: int| 0 <= k < g.len() && holds(l, #[trigger] g[k]);
        text::lemma_find_from(l, g[k], 0);
        let j = text::find_from(l, g[k], 0)->0;
        assert(text::occurs_at(l, g[k], j));
        assert(!text::occurs_at(l, "log in to continue"@, j));
        assert(k == 0 || k == 1 || k == 2 || k == 3 || k == 4 || k == 5 || k == 6);
    }
}

/// The reasons for what was skipped are seen as they are.
pub proof fn law_reasons_are_seen_whole(v: Seq<(u32, String)>, i: int)
    requires
        0 <= i < v.len(),
    ensures
        reasons(v).len() == v.len(),
        reasons(v)[i] == (v[i].0, v[i].1@),
{
}

} // verus!
