//! Moving Light Novel World subscriptions to chikari.moe.
//!
//! Light Novel World's library has moved there, and the site is shutting down. Each
//! source on it is pointed at the novel's page on chikari, found by its slug or else by
//! its title; the stored chapters stay with the source, so nothing is downloaded again. A
//! novel that did not make the move keeps its source, and another of its sources takes
//! the lead if it has one.

use vstd::prelude::*;

use crate::chikari;
use crate::fetch::{Failure, FailureView};
use crate::library::{Library, SourceRec};
use crate::lightnovelworld;
use crate::model::{MetaView, NovelMeta};
use crate::source;
use crate::store::{SourceView, Store, StoredSource};
use crate::store;
use crate::table::Key;
use crate::text;
use crate::util;
use crate::web;

verus! {

/// The setting that says the migration is done.
pub const MIGRATION_KEY: &'static str = "migration.lightnovelworld_to_chikari";

/// What became of one source.
#[derive(Debug)]
pub enum MigrationOutcome {
    Moved { novel_id: i64, title: String, from: String, to: String, via_title_search: bool },
    NotOnChikari { novel_id: i64, title: String, promoted: Option<String> },
    Undetermined { novel_id: i64, title: String, reason: String },
}

/// A [`MigrationOutcome`] as plain values.
#[verifier::ext_equal]
pub enum OutcomeView {
    Moved {
        novel_id: i64,
        title: Seq<char>,
        from: Seq<char>,
        to: Seq<char>,
        via_title_search: bool,
    },
    NotOnChikari { novel_id: i64, title: Seq<char>, promoted: Option<Seq<char>> },
    Undetermined { novel_id: i64, title: Seq<char>, reason: Seq<char> },
}

impl View for MigrationOutcome {
    type V = OutcomeView;

    open spec fn view(&self) -> OutcomeView {
        match *self {
            MigrationOutcome::Moved { novel_id, title, from, to, via_title_search } =>
                OutcomeView::Moved {
                novel_id,
                title: title@,
                from: from@,
                to: to@,
                via_title_search,
            },
            MigrationOutcome::NotOnChikari { novel_id, title, promoted } =>
                OutcomeView::NotOnChikari { novel_id, title: title@, promoted: text::opt(promoted) },
            MigrationOutcome::Undetermined { novel_id, title, reason } =>
                OutcomeView::Undetermined { novel_id, title: title@, reason: reason@ },
        }
    }
}

pub open spec fn outcome_views(v: Seq<MigrationOutcome>) -> Seq<OutcomeView> {
    v.map_values(|o: MigrationOutcome| o@)
}

/// What a migration did. It is complete when every source has been decided on.
#[derive(Debug)]
pub struct MigrationReport {
    pub outcomes: Vec<MigrationOutcome>,
    pub complete: bool,
}

pub open spec fn is_move(o: OutcomeView) -> bool {
    o is Moved
}

impl MigrationReport {
    /// The sources that were moved.
    pub fn moved(&self) -> (r: Vec<&MigrationOutcome>)
        ensures
            r@.map_values(|o: &MigrationOutcome| o@) == outcome_views(self.outcomes@).filter(
                |o: OutcomeView| is_move(o),
            ),
    {
        let ghost all = outcome_views(self.outcomes@);
        let ghost p = |o: OutcomeView| is_move(o);
        let mut out: Vec<&MigrationOutcome> = Vec::new();
        let mut i: usize = 0;
        assert(all.take(0).filter(p) =~= Seq::<OutcomeView>::empty()) by {
            reveal(Seq::filter);
        }
        while i < self.outcomes.len()
            invariant
                i <= self.outcomes@.len(),
                all == outcome_views(self.outcomes@),
                p == (|o: OutcomeView| is_move(o)),
                out@.map_values(|o: &MigrationOutcome| o@) == all.take(i as int).filter(p),
            decreases self.outcomes@.len() - i,
        {
            let ghost before = out@;
            proof {
                let t = all.take(i + 1);
                assert(t.drop_last() =~= all.take(i as int));
                assert(t.last() == self.outcomes@[i as int]@);
                reveal(Seq::filter);
            }
            let hit = match &self.outcomes[i] {
                MigrationOutcome::Moved { .. } => true,
                _ => false,
            };
            if hit {
                out.push(&self.outcomes[i]);
                assert(out@.map_values(|o: &MigrationOutcome| o@) =~= before.map_values(
                    |o: &MigrationOutcome| o@,
                ).push(self.outcomes@[i as int]@));
            }
            i += 1;
        }
        assert(all.take(all.len() as int) =~= all);
        out
    }

    pub fn is_empty(&self) -> (r: bool)
        ensures
            r == (self.outcomes@.len() == 0),
    {
        self.outcomes.len() == 0
    }
}

/// A source on the site that is going away.
#[derive(Debug)]
pub struct Stale {
    pub novel_id: i64,
    pub title: String,
    pub source: StoredSource,
}

/// A [`Stale`] source as plain values.
#[verifier::ext_equal]
pub struct StaleView {
    pub novel_id: i64,
    pub title: Seq<char>,
    pub source: SourceView,
}

impl View for Stale {
    type V = StaleView;

    open spec fn view(&self) -> StaleView {
        StaleView { novel_id: self.novel_id, title: self.title@, source: self.source@ }
    }
}

pub open spec fn stale_views(v: Seq<Stale>) -> Seq<StaleView> {
    v.map_values(|s: Stale| s@)
}

pub open spec fn on_old_site(url: Seq<char>) -> bool {
    source::has_host_www(url, "lightnovelworld.org"@)
}

/// Whether `v` lists the sources on the old site, all of them, by novel and priority.
pub open spec fn lists_stale(lib: Library, v: Seq<StaleView>) -> bool {
    &&& forall|i: int|
        0 <= i < v.len() ==> {
            let s = #[trigger] v[i];
            &&& lib.sources.contains_key(s.source.id)
            &&& s.source == store::source_view(lib, s.source.id)
            &&& s.novel_id == lib.sources[s.source.id].novel_id
            &&& s.title == lib.novels[s.novel_id].title
            &&& on_old_site(s.source.url)
        }
    &&& forall|i: int, j: int|
        0 <= i < j < v.len() ==> (#[trigger] v[i]).novel_id < (#[trigger] v[j]).novel_id || (
        v[i].novel_id == v[j].novel_id && store::ranks_before(v[i].source, v[j].source))
    &&& forall|s: i64| #[trigger]
        lib.sources.contains_key(s) && on_old_site(lib.sources[s].url) ==> exists|i: int|
            0 <= i < v.len() && (#[trigger] v[i]).source.id == s
}

/// The position of the source that takes the lead: the first by priority that is not the
/// dead one, nor on the old site.
pub open spec fn heir(order: Seq<SourceView>, dead: i64) -> int
    decreases order.len(),
{
    if order.len() > 0 && (order[0].id == dead || on_old_site(order[0].url)) {
        1 + heir(order.drop_first(), dead)
    } else {
        0
    }
}

/// A novel that is left behind: another source takes the lead from the dead one, if the
/// dead one has it and there is another. The name of the new primary, and the library.
pub open spec fn left_behind(lib: Library, novel: i64, dead: i64) -> (Option<Seq<char>>, Library) {
    let order = store::source_order(lib, novel);
    if !lib.novels.contains_key(novel) || order.len() == 0 || order[store::primary_index(
        order,
    )].id != dead || heir(order, dead) >= order.len() {
        (None, lib)
    } else {
        let alt = order[heir(order, dead)];
        match store::promotion(lib, novel, alt.id) {
            Some(after) => (Some(alt.name), after),
            None => (None, lib),
        }
    }
}

/// Let another source take the lead of a novel that is left behind.
pub fn promote_surviving_source(store: &mut Store, novel_id: i64, dead_source_id: i64) -> (r: Option<
    String,
>)
    requires
        old(store).wf(),
    ensures
        final(store).wf(),
        (text::opt(r), final(store)@) == left_behind(old(store)@, novel_id, dead_source_id),
{
    let ghost lib = store@;
    let novel = match store.load_novel_by_id(novel_id) {
        Some(n) => n,
        None => return None,
    };
    let ghost order = store::source_views(novel.sources@);
    proof {
        store::lemma_source_order(lib, novel_id, order);
    }
    match novel.primary_source() {
        Some(p) => if p.id != dead_source_id {
            return None;
        },
        None => return None,
    }
    let mut i: usize = 0;
    assert(order.skip(0) =~= order);
    while i < novel.sources.len() && (novel.sources[i].id == dead_source_id
        || lightnovelworld::is_lightnovelworld_url(novel.sources[i].url.as_str()))
        invariant
            i <= novel.sources@.len(),
            order == store::source_views(novel.sources@),
            heir(order, dead_source_id) == i + heir(order.skip(i as int), dead_source_id),
        decreases novel.sources@.len() - i,
    {
        let ghost rest = order.skip(i as int);
        assert(rest[0] == novel.sources@[i as int]@);
        assert(rest.drop_first() =~= order.skip(i + 1));
        i += 1;
    }
    proof {
        let rest = order.skip(i as int);
        if i < novel.sources.len() {
            assert(rest[0] == novel.sources@[i as int]@);
        }
        assert(heir(order, dead_source_id) == i);
    }
    if i >= novel.sources.len() {
        return None;
    }
    assert(order[i as int] == novel.sources@[i as int]@);
    let alt: i64 = novel.sources[i].id;
    match store.promote_source(novel_id, alt) {
        Ok(_) => Some(novel.sources[i].name.clone()),
        Err(_) => None,
    }
}

// ---------------------------------------------------------------------------
// The pass
// ---------------------------------------------------------------------------

/// Where a migration stands.
#[derive(Debug, Clone, Copy)]
pub enum Step {
    /// Waiting for chikari's page of the same slug.
    Asking { i: usize },
    /// Waiting for chikari's answer to a search for the title.
    Searching { i: usize },
    Done,
}

/// What a migration needs next.
#[derive(Debug)]
pub enum MigrationAction {
    /// Read a novel's page on chikari.
    FetchNovel { url: String },
    /// Search chikari for a novel of this title.
    FindSlug { title: String },
    /// Nothing: the migration is over.
    Finish,
}

/// A [`MigrationAction`] as plain values.
#[verifier::ext_equal]
pub enum MigrationActionView {
    FetchNovel { url: Seq<char> },
    FindSlug { title: Seq<char> },
    Finish,
}

impl View for MigrationAction {
    type V = MigrationActionView;

    open spec fn view(&self) -> MigrationActionView {
        match *self {
            MigrationAction::FetchNovel { url } => MigrationActionView::FetchNovel { url: url@ },
            MigrationAction::FindSlug { title } => MigrationActionView::FindSlug { title: title@ },
            MigrationAction::Finish => MigrationActionView::Finish,
        }
    }
}

/// A migration as plain values.
#[verifier::ext_equal]
pub struct MigrationView {
    pub todo: Seq<StaleView>,
    pub outcomes: Seq<OutcomeView>,
    pub complete: bool,
    /// The slug of the novel at hand.
    pub slug: Seq<char>,
    pub step: Step,
}

/// What a novel's page on chikari was answered with, as plain values.
pub open spec fn page_answer(r: Result<NovelMeta, Failure>) -> Result<MetaView, FailureView> {
    match r {
        Ok(m) => Ok(m@),
        Err(f) => Err(f@),
    }
}

/// What a search was answered with, as plain values.
pub open spec fn search_answer(r: Result<Option<String>, Failure>) -> Result<
    Option<Seq<char>>,
    Seq<char>,
> {
    match r {
        Ok(slug) => Ok(text::opt(slug)),
        Err(f) => Err(f@.message),
    }
}

impl MigrationView {
    pub open spec fn planned(todo: Seq<StaleView>) -> MigrationView {
        MigrationView {
            todo,
            outcomes: seq![],
            complete: true,
            slug: seq![],
            step: Step::Done,
        }.taking(0)
    }

    /// With one more source decided on, or put off.
    pub open spec fn decided(self, o: OutcomeView) -> MigrationView {
        MigrationView {
            outcomes: self.outcomes.push(o),
            complete: self.complete && !(o is Undetermined),
            ..self
        }
    }

    pub open spec fn undetermined(self, i: int, reason: Seq<char>) -> MigrationView {
        self.decided(
            OutcomeView::Undetermined {
                novel_id: self.todo[i].novel_id,
                title: self.todo[i].title,
                reason,
            },
        )
    }

    /// Take up the `i`-th source. One whose URL names no novel is put off.
    pub open spec fn taking(self, i: int) -> MigrationView
        decreases self.todo.len() - i,
    {
        if i < 0 || i >= self.todo.len() {
            MigrationView { step: Step::Done, ..self }
        } else {
            let url = self.todo[i].source.url;
            match lightnovelworld::slug_in(web::path_segments_of(url)) {
                Some(slug) => MigrationView { slug, step: Step::Asking { i: i as usize }, ..self },
                None => self.undetermined(i, "no novel slug in "@ + url).taking(i + 1),
            }
        }
    }

    pub open spec fn action(self) -> MigrationActionView {
        match self.step {
            Step::Asking { i } => MigrationActionView::FetchNovel {
                url: chikari::novel_page(self.slug),
            },
            Step::Searching { i } => MigrationActionView::FindSlug {
                title: self.todo[i as int].title,
            },
            Step::Done => MigrationActionView::Finish,
        }
    }

    /// With the `i`-th source pointed at the novel's page on chikari, unless another
    /// source has that page already.
    pub open spec fn moving(self, lib: Library, i: usize, slug: Seq<char>, via_title_search: bool) -> (
        MigrationView,
        Library,
    ) {
        let s = self.todo[i as int];
        let to = chikari::novel_page(slug);
        match store::repoint_refusal(lib, s.source.id, to) {
            Some(reason) => (self.undetermined(i as int, reason).taking(i + 1), lib),
            None => (
                self.decided(
                    OutcomeView::Moved {
                        novel_id: s.novel_id,
                        title: s.title,
                        from: s.source.url,
                        to,
                        via_title_search,
                    },
                ).taking(i + 1),
                lib.set_source(
                    s.source.id,
                    SourceRec { name: "chikari"@, url: to, ..lib.sources[s.source.id] },
                ),
            ),
        }
    }

    /// After chikari's answer for the page of the same slug. A page of another title is
    /// another novel; then, as where there is no such page, the title is searched for.
    pub open spec fn paged(self, lib: Library, answer: Result<MetaView, FailureView>) -> (
        MigrationView,
        Library,
    ) {
        match self.step {
            Step::Asking { i } => match answer {
                Ok(meta) => if util::normalized(meta.title) == util::normalized(
                    self.todo[i as int].title,
                ) {
                    self.moving(lib, i, self.slug, false)
                } else {
                    (MigrationView { step: Step::Searching { i }, ..self }, lib)
                },
                Err(f) => if f.not_found {
                    (MigrationView { step: Step::Searching { i }, ..self }, lib)
                } else {
                    (self.undetermined(i as int, f.message).taking(i + 1), lib)
                },
            },
            _ => (self, lib),
        }
    }

    /// After chikari's answer to the search. A novel that is not there is left behind.
    pub open spec fn searched(self, lib: Library, answer: Result<Option<Seq<char>>, Seq<char>>) -> (
        MigrationView,
        Library,
    ) {
        match self.step {
            Step::Searching { i } => match answer {
                Ok(Some(slug)) => self.moving(lib, i, slug, true),
                Ok(None) => {
                    let s = self.todo[i as int];
                    let (promoted, after) = left_behind(lib, s.novel_id, s.source.id);
                    (
                        self.decided(
                            OutcomeView::NotOnChikari {
                                novel_id: s.novel_id,
                                title: s.title,
                                promoted,
                            },
                        ).taking(i + 1),
                        after,
                    )
                },
                Err(e) => (self.undetermined(i as int, e).taking(i + 1), lib),
            },
            _ => (self, lib),
        }
    }
}

/// What a migration is answered with.
pub enum Reply {
    Page(Result<MetaView, FailureView>),
    Search(Result<Option<Seq<char>>, Seq<char>>),
}

impl MigrationView {
    /// After one answer.
    pub open spec fn answered(self, lib: Library, reply: Reply) -> (MigrationView, Library) {
        match reply {
            Reply::Page(answer) => self.paged(lib, answer),
            Reply::Search(answer) => self.searched(lib, answer),
        }
    }

    /// After a run of answers.
    pub open spec fn after_all(self, lib: Library, replies: Seq<Reply>) -> (MigrationView, Library)
        decreases replies.len(),
    {
        if replies.len() == 0 {
            (self, lib)
        } else {
            let (pass, l) = self.after_all(lib, replies.drop_last());
            pass.answered(l, replies.last())
        }
    }

    /// How many of its sources are behind it.
    pub open spec fn dealt_with(self) -> int {
        match self.step {
            Step::Asking { i } => i as int,
            Step::Searching { i } => i as int,
            Step::Done => self.todo.len() as int,
        }
    }

    /// How many answers it can still take.
    pub open spec fn answers_left(self) -> int {
        match self.step {
            Step::Asking { i } => 2 * (self.todo.len() - i),
            Step::Searching { i } => 2 * (self.todo.len() - i) - 1,
            Step::Done => 0,
        }
    }

    /// Whether the reply is one to what it asked for.
    pub open spec fn awaits(self, reply: Reply) -> bool {
        match self.step {
            Step::Asking { .. } => reply is Page,
            Step::Searching { .. } => reply is Search,
            Step::Done => false,
        }
    }

    /// Whether the report so far has one outcome for each source behind it, in their
    /// order, and is complete just when none of them is undetermined.
    pub open spec fn keeps_account(self) -> bool {
        &&& 0 <= self.dealt_with() <= self.todo.len()
        &&& !(self.step is Done) ==> self.dealt_with() < self.todo.len()
        &&& self.outcomes.len() == self.dealt_with()
        &&& forall|i: int|
            0 <= i < self.outcomes.len() ==> concerns(#[trigger] self.outcomes[i], self.todo[i])
        &&& self.complete == none_undetermined(self.outcomes)
    }
}

/// Whether an outcome is about a source.
pub open spec fn concerns(o: OutcomeView, s: StaleView) -> bool {
    match o {
        OutcomeView::Moved { novel_id, title, from, .. } => novel_id == s.novel_id && title
            == s.title && from == s.source.url,
        OutcomeView::NotOnChikari { novel_id, title, .. } => novel_id == s.novel_id && title
            == s.title,
        OutcomeView::Undetermined { novel_id, title, .. } => novel_id == s.novel_id && title
            == s.title,
    }
}

pub open spec fn none_undetermined(outcomes: Seq<OutcomeView>) -> bool {
    forall|i: int| 0 <= i < outcomes.len() ==> !((#[trigger] outcomes[i]) is Undetermined)
}

/// A migration. It says what it needs next, takes in the answers, and ends with a report.
pub struct MigrationJob {
    todo: Vec<Stale>,
    report: MigrationReport,
    slug: String,
    step: Step,
}

impl View for MigrationJob {
    type V = MigrationView;

    closed spec fn view(&self) -> MigrationView {
        MigrationView {
            todo: stale_views(self.todo@),
            outcomes: outcome_views(self.report.outcomes@),
            complete: self.report.complete,
            slug: self.slug@,
            step: self.step,
        }
    }
}

fn find_stale(store: &Store) -> (r: Vec<Stale>)
    requires
        store.wf(),
    ensures
        lists_stale(store@, stale_views(r@)),
{
    let ghost lib = store@;
    let all = store.all_sources();
    let mut out: Vec<Stale> = Vec::new();
    let ghost mut from: Seq<int> = seq![];
    let mut i: usize = 0;
    while i < all.len()
        invariant
            i <= all@.len(),
            out@.len() == from.len(),
            forall|a: int, b: int| 0 <= a < b < from.len() ==> #[trigger] from[a] < #[trigger] from[b],
            forall|a: int|
                0 <= a < from.len() ==> 0 <= #[trigger] from[a] < i && out@[a]@ == (StaleView {
                    novel_id: all@[from[a]].0,
                    title: all@[from[a]].1@,
                    source: all@[from[a]].2@,
                }) && on_old_site(all@[from[a]].2.url@),
            forall|k: int|
                0 <= k < i && on_old_site((#[trigger] all@[k]).2.url@) ==> exists|a: int|
                    0 <= a < from.len() && #[trigger] from[a] == k,
        decreases all@.len() - i,
    {
        let ghost before = from;
        let ghost prev = out@;
        let stale = lightnovelworld::is_lightnovelworld_url(all[i].2.url.as_str());
        if stale {
            out.push(
                Stale {
                    novel_id: all[i].0,
                    title: all[i].1.clone(),
                    source: all[i].2.clone(),
                },
            );
            proof {
                from = from.push(i as int);
            }
        }
        proof {
            assert forall|k: int| 0 <= k < i + 1 && on_old_site(
                (#[trigger] all@[k]).2.url@,
            ) implies exists|a: int| 0 <= a < from.len() && #[trigger] from[a] == k by {
                if k < i {
                    let a = choose|a: int| 0 <= a < before.len() && #[trigger] before[a] == k;
                    assert(from[a] == k);
                } else {
                    assert(from[from.len() - 1] == k);
                }
            }
        }
        i += 1;
    }
    proof {
        let v = stale_views(out@);
        assert forall|a: int| 0 <= a < v.len() implies {
            let s = #[trigger] v[a];
            &&& lib.sources.contains_key(s.source.id)
            &&& s.source == store::source_view(lib, s.source.id)
            &&& s.novel_id == lib.sources[s.source.id].novel_id
            &&& s.title == lib.novels[s.novel_id].title
            &&& on_old_site(s.source.url)
        } by {
            assert(v[a] == out@[a]@);
            let k = from[a];
            assert(lib.sources.contains_key(all@[k].2.id));
        }
        assert forall|a: int, b: int| 0 <= a < b < v.len() implies (#[trigger] v[a]).novel_id < (
        #[trigger] v[b]).novel_id || (v[a].novel_id == v[b].novel_id && store::ranks_before(
            v[a].source,
            v[b].source,
        )) by {
            assert(v[a] == out@[a]@ && v[b] == out@[b]@);
            assert(from[a] < from[b]);
            let x = all@[from[a]];
            let y = all@[from[b]];
            assert(x.0 < y.0 || (x.0 == y.0 && store::ranks_before(x.2@, y.2@)));
        }
        assert forall|s: i64| #[trigger]
            lib.sources.contains_key(s) && on_old_site(lib.sources[s].url) implies exists|a: int|
            0 <= a < v.len() && (#[trigger] v[a]).source.id == s by {
            let k = choose|k: int| 0 <= k < all@.len() && (#[trigger] all@[k]).2.id == s;
            assert(all@[k].2@ == store::source_view(lib, s));
            assert(on_old_site(all@[k].2.url@));
            let a = choose|a: int| 0 <= a < from.len() && #[trigger] from[a] == k;
            assert(v[a] == out@[a]@);
        }
    }
    out
}

impl MigrationJob {
    pub closed spec fn wf(&self) -> bool {
        match self.step {
            Step::Asking { i } => i < self.todo@.len(),
            Step::Searching { i } => i < self.todo@.len(),
            Step::Done => true,
        }
    }

    /// Begin a migration of every source on the old site.
    pub fn start(store: &Store) -> (r: MigrationJob)
        requires
            store.wf(),
        ensures
            r.wf(),
            exists|todo: Seq<StaleView>| #[trigger]
                lists_stale(store@, todo) && r@ == MigrationView::planned(todo),
    {
        let todo = find_stale(store);
        let ghost views = stale_views(todo@);
        let mut job = MigrationJob {
            todo,
            report: MigrationReport { outcomes: Vec::new(), complete: true },
            slug: String::new(),
            step: Step::Done,
        };
        assert(job@ =~= (MigrationView {
            todo: views,
            outcomes: seq![],
            complete: true,
            slug: seq![],
            step: Step::Done,
        }));
        job.take_up(0);
        assert(job@ == MigrationView::planned(views));
        job
    }

    /// What the migration needs next.
    pub fn next(&self) -> (r: MigrationAction)
        requires
            self.wf(),
        ensures
            r@ == self@.action(),
    {
        match self.step {
            Step::Asking { i } => MigrationAction::FetchNovel {
                url: chikari::novel_url(self.slug.as_str()),
            },
            Step::Searching { i } => {
                assert(self@.todo[i as int] == self.todo@[i as int]@);
                MigrationAction::FindSlug { title: self.todo[i].title.clone() }
            },
            Step::Done => MigrationAction::Finish,
        }
    }

    fn decide(&mut self, o: MigrationOutcome)
        ensures
            final(self).todo@ == old(self).todo@,
            final(self)@ == old(self)@.decided(o@),
    {
        let ghost before = self@;
        let put_off = match &o {
            MigrationOutcome::Undetermined { .. } => true,
            _ => false,
        };
        if put_off {
            self.report.complete = false;
        }
        self.report.outcomes.push(o);
        assert(self@.outcomes =~= before.outcomes.push(o@));
        assert(self@ =~= before.decided(o@));
    }

    fn put_off(&mut self, i: usize, reason: String)
        requires
            i < old(self).todo@.len(),
        ensures
            final(self).todo@ == old(self).todo@,
            final(self)@ == old(self)@.undetermined(i as int, reason@),
    {
        assert(self@.todo[i as int] == self.todo@[i as int]@);
        let o = MigrationOutcome::Undetermined {
            novel_id: self.todo[i].novel_id,
            title: self.todo[i].title.clone(),
            reason,
        };
        self.decide(o);
    }

    fn take_up(&mut self, from: usize)
        requires
            from <= old(self).todo@.len(),
        ensures
            final(self).wf(),
            final(self)@ == old(self)@.taking(from as int),
    {
        let ghost start = self@;
        let mut i: usize = from;
        while i < self.todo.len()
            invariant
                i <= self.todo@.len(),
                start == old(self)@,
                start.taking(from as int) == self@.taking(i as int),
            decreases self.todo@.len() - i,
        {
            assert(self@.todo[i as int] == self.todo@[i as int]@);
            match lightnovelworld::slug_from_url(self.todo[i].source.url.as_str()) {
                Some(slug) => {
                    let ghost before = self@;
                    self.slug = slug;
                    self.step = Step::Asking { i };
                    assert(self@ =~= before.taking(i as int));
                    return;
                },
                None => {
                    let reason = text::concat(
                        "no novel slug in ",
                        self.todo[i].source.url.as_str(),
                    );
                    self.put_off(i, reason);
                },
            }
            i += 1;
        }
        let ghost before = self@;
        self.step = Step::Done;
        assert(self@ =~= before.taking(i as int));
    }

    fn move_to(&mut self, store: &mut Store, i: usize, slug: String, via_title_search: bool)
        requires
            i < old(self).todo@.len(),
            old(store).wf(),
        ensures
            final(self).wf(),
            final(store).wf(),
            (final(self)@, final(store)@) == old(self)@.moving(
                old(store)@,
                i,
                slug@,
                via_title_search,
            ),
    {
        let count: usize = self.todo.len();
        assert(self@.todo[i as int] == self.todo@[i as int]@);
        let to = chikari::novel_url(slug.as_str());
        match store.repoint_source(self.todo[i].source.id, "chikari", to.as_str()) {
            Err(e) => {
                self.put_off(i, e);
            },
            Ok(_) => {
                let o = MigrationOutcome::Moved {
                    novel_id: self.todo[i].novel_id,
                    title: self.todo[i].title.clone(),
                    from: self.todo[i].source.url.clone(),
                    to,
                    via_title_search,
                };
                self.decide(o);
            },
        }
        assert(i < count);
        self.take_up(i + 1);
    }

    /// Take in chikari's page of the same slug, or why it could not be had.
    pub fn on_novel(&mut self, store: &mut Store, answer: Result<NovelMeta, Failure>)
        requires
            old(self).wf(),
            old(store).wf(),
        ensures
            final(self).wf(),
            final(store).wf(),
            (final(self)@, final(store)@) == old(self)@.paged(old(store)@, page_answer(answer)),
    {
        if let Step::Asking { i } = self.step {
            let count: usize = self.todo.len();
            assert(i < count);
            assert(self@.todo[i as int] == self.todo@[i as int]@);
            match answer {
                Ok(meta) => {
                    let theirs = util::normalize_title(meta.title.as_str());
                    let ours = util::normalize_title(self.todo[i].title.as_str());
                    if text::same(theirs.as_str(), ours.as_str()) {
                        let slug = self.slug.clone();
                        self.move_to(store, i, slug, false);
                    } else {
                        self.step = Step::Searching { i };
                    }
                },
                Err(f) => {
                    if f.not_found {
                        self.step = Step::Searching { i };
                    } else {
                        self.put_off(i, f.message);
                        self.take_up(i + 1);
                    }
                },
            }
        }
    }

    /// Take in chikari's answer to the search: the slug of the novel, if it is there, or
    /// why the search failed.
    pub fn on_search(&mut self, store: &mut Store, answer: Result<Option<String>, Failure>)
        requires
            old(self).wf(),
            old(store).wf(),
        ensures
            final(self).wf(),
            final(store).wf(),
            (final(self)@, final(store)@) == old(self)@.searched(
                old(store)@,
                search_answer(answer),
            ),
    {
        if let Step::Searching { i } = self.step {
            let count: usize = self.todo.len();
            assert(i < count);
            assert(self@.todo[i as int] == self.todo@[i as int]@);
            match answer {
                Ok(Some(slug)) => {
                    self.move_to(store, i, slug, true);
                },
                Ok(None) => {
                    let promoted = promote_surviving_source(
                        store,
                        self.todo[i].novel_id,
                        self.todo[i].source.id,
                    );
                    let o = MigrationOutcome::NotOnChikari {
                        novel_id: self.todo[i].novel_id,
                        title: self.todo[i].title.clone(),
                        promoted,
                    };
                    self.decide(o);
                    self.take_up(i + 1);
                },
                Err(f) => {
                    self.put_off(i, f.message);
                    self.take_up(i + 1);
                },
            }
        }
    }

    /// The report of the migration.
    pub fn finish(self) -> (r: MigrationReport)
        ensures
            outcome_views(r.outcomes@) == self@.outcomes,
            r.complete == self@.complete,
    {
        self.report
    }
}

/// Whether the migration still has to run.
pub fn is_pending(store: &Store) -> (r: bool)
    requires
        store.wf(),
    ensures
        r == !store@.meta.contains_key(MIGRATION_KEY@),
{
    store.meta_get(MIGRATION_KEY).is_none()
}

/// Put on record that a migration is done, once every source has been decided on.
pub fn record(store: &mut Store, report: &MigrationReport)
    requires
        old(store).wf(),
    ensures
        final(store).wf(),
        final(store)@ == (if report.complete {
            Library { meta: old(store)@.meta.insert(MIGRATION_KEY@, "done"@), ..old(store)@ }
        } else {
            old(store)@
        }),
{
    if report.complete {
        store.meta_set(MIGRATION_KEY, "done");
    }
}

// ---------------------------------------------------------------------------
// Laws
// ---------------------------------------------------------------------------

/// A source that is moved keeps its id, its novel and its rank, and no chapter, gap or
/// novel is touched.
pub proof fn law_moving_keeps_everything_else(
    pass: MigrationView,
    lib: Library,
    i: usize,
    slug: Seq<char>,
    via_title_search: bool,
    s: i64,
)
    requires
        lib.sources.contains_key(s),
    ensures
        ({
            let after = pass.moving(lib, i, slug, via_title_search).1;
            &&& after == (Library { sources: after.sources, ..lib })
            &&& after.sources.dom() == lib.sources.dom()
            &&& after.sources[s] == (SourceRec {
                name: after.sources[s].name,
                url: after.sources[s].url,
                ..lib.sources[s]
            })
            &&& s != pass.todo[i as int].source.id ==> after.sources[s] == lib.sources[s]
        }),
{
    let after = pass.moving(lib, i, slug, via_title_search).1;
    let id = pass.todo[i as int].source.id;
    if store::repoint_refusal(lib, id, chikari::novel_page(slug)) is None {
        assert(after.sources.dom() =~= lib.sources.dom());
    }
}

/// A page that cannot be reached decides nothing: the source stays, and the migration is
/// not complete, so it runs again.
pub proof fn law_an_unreachable_site_decides_nothing(
    pass: MigrationView,
    lib: Library,
    i: usize,
    f: FailureView,
)
    requires
        pass.step == (Step::Asking { i }),
        i < pass.todo.len(),
        !f.not_found,
    ensures
        pass.paged(lib, Err(f)).1 == lib,
        !pass.paged(lib, Err(f)).0.complete,
{
    lemma_taking_stays_incomplete(pass.undetermined(i as int, f.message), i + 1);
}

proof fn lemma_taking_stays_incomplete(pass: MigrationView, i: int)
    requires
        !pass.complete,
    ensures
        !pass.taking(i).complete,
    decreases pass.todo.len() - i,
{
    if 0 <= i < pass.todo.len() {
        let url = pass.todo[i].source.url;
        if lightnovelworld::slug_in(web::path_segments_of(url)) is None {
            lemma_taking_stays_incomplete(
                pass.undetermined(i, "no novel slug in "@ + url),
                i + 1,
            );
        }
    }
}

/// A page of the same slug but another title never takes the source over: the title is
/// searched for instead.
pub proof fn law_a_slug_collision_moves_nothing(
    pass: MigrationView,
    lib: Library,
    i: usize,
    meta: MetaView,
)
    requires
        pass.step == (Step::Asking { i }),
        util::normalized(meta.title) != util::normalized(pass.todo[i as int].title),
    ensures
        pass.paged(lib, Ok(meta)).1 == lib,
        pass.paged(lib, Ok(meta)).0.step == (Step::Searching { i }),
{
}

/// A dead source that is not the primary gives nothing up: a working primary is not
/// disturbed.
pub proof fn law_a_dead_fallback_disturbs_nothing(lib: Library, novel: i64, dead: i64)
    requires
        ({
            let order = store::source_order(lib, novel);
            order.len() > 0 && order[store::primary_index(order)].id != dead
        }),
    ensures
        left_behind(lib, novel, dead) == (None::<Seq<char>>, lib),
{
}

/// A novel that is left behind keeps its chapters, whatever source takes the lead.
pub proof fn law_a_novel_left_behind_keeps_its_chapters(lib: Library, novel: i64, dead: i64, k: Key)
    requires
        lib.chapters.contains_key(k),
    ensures
        ({
            let after = left_behind(lib, novel, dead).1;
            &&& after.chapters.contains_key(k)
            &&& after.chapters[k].title == lib.chapters[k].title
            &&& after.chapters[k].body == lib.chapters[k].body
        }),
{
}

proof fn lemma_decided(pass: MigrationView, o: OutcomeView)
    requires
        pass.outcomes.len() < pass.todo.len(),
        forall|i: int|
            0 <= i < pass.outcomes.len() ==> concerns(#[trigger] pass.outcomes[i], pass.todo[i]),
        pass.complete == none_undetermined(pass.outcomes),
        concerns(o, pass.todo[pass.outcomes.len() as int]),
    ensures
        ({
            let after = pass.decided(o);
            &&& forall|i: int|
                0 <= i < after.outcomes.len() ==> concerns(
                    #[trigger] after.outcomes[i],
                    after.todo[i],
                )
            &&& after.complete == none_undetermined(after.outcomes)
        }),
{
    let after = pass.decided(o);
    assert forall|i: int| 0 <= i < after.outcomes.len() implies concerns(
        #[trigger] after.outcomes[i],
        after.todo[i],
    ) by {
        if i < pass.outcomes.len() {
            assert(after.outcomes[i] == pass.outcomes[i]);
        }
    }
    if none_undetermined(after.outcomes) {
        assert forall|i: int| 0 <= i < pass.outcomes.len() implies !((
        #[trigger] pass.outcomes[i]) is Undetermined) by {
            assert(after.outcomes[i] == pass.outcomes[i]);
        }
        assert(after.outcomes[pass.outcomes.len() as int] == o);
    }
}

proof fn lemma_taking_keeps_account(pass: MigrationView, i: int)
    requires
        pass.todo.len() <= usize::MAX,
        i == pass.outcomes.len(),
        i <= pass.todo.len(),
        forall|j: int|
            0 <= j < pass.outcomes.len() ==> concerns(#[trigger] pass.outcomes[j], pass.todo[j]),
        pass.complete == none_undetermined(pass.outcomes),
    ensures
        pass.taking(i).keeps_account(),
        pass.taking(i).todo == pass.todo,
        pass.taking(i).answers_left() <= 2 * (pass.todo.len() - i),
    decreases pass.todo.len() - i,
{
    if i < pass.todo.len() {
        let url = pass.todo[i].source.url;
        if lightnovelworld::slug_in(web::path_segments_of(url)) is None {
            let reason = "no novel slug in "@ + url;
            let o = OutcomeView::Undetermined {
                novel_id: pass.todo[i].novel_id,
                title: pass.todo[i].title,
                reason,
            };
            lemma_decided(pass, o);
            lemma_taking_keeps_account(pass.decided(o), i + 1);
        }
    }
}

proof fn lemma_decided_keeps_account(pass: MigrationView, i: int, o: OutcomeView)
    requires
        pass.todo.len() <= usize::MAX,
        pass.keeps_account(),
        !(pass.step is Done),
        i == pass.dealt_with(),
        concerns(o, pass.todo[i]),
    ensures
        pass.decided(o).taking(i + 1).keeps_account(),
        pass.decided(o).taking(i + 1).todo == pass.todo,
        pass.decided(o).taking(i + 1).answers_left() < pass.answers_left(),
{
    lemma_decided(pass, o);
    lemma_taking_keeps_account(pass.decided(o), i + 1);
}

proof fn lemma_moving_keeps_account(
    pass: MigrationView,
    lib: Library,
    i: usize,
    slug: Seq<char>,
    via_title_search: bool,
)
    requires
        pass.todo.len() <= usize::MAX,
        pass.keeps_account(),
        !(pass.step is Done),
        i == pass.dealt_with(),
    ensures
        ({
            let after = pass.moving(lib, i, slug, via_title_search).0;
            &&& after.keeps_account()
            &&& after.todo == pass.todo
            &&& after.answers_left() < pass.answers_left()
        }),
{
    let s = pass.todo[i as int];
    let to = chikari::novel_page(slug);
    match store::repoint_refusal(lib, s.source.id, to) {
        Some(reason) => {
            lemma_decided_keeps_account(
                pass,
                i as int,
                OutcomeView::Undetermined { novel_id: s.novel_id, title: s.title, reason },
            );
        },
        None => {
            lemma_decided_keeps_account(
                pass,
                i as int,
                OutcomeView::Moved {
                    novel_id: s.novel_id,
                    title: s.title,
                    from: s.source.url,
                    to,
                    via_title_search,
                },
            );
        },
    }
}

proof fn lemma_answered(pass: MigrationView, lib: Library, reply: Reply)
    requires
        pass.todo.len() <= usize::MAX,
        pass.keeps_account(),
    ensures
        pass.answered(lib, reply).0.keeps_account(),
        pass.answered(lib, reply).0.todo == pass.todo,
        pass.awaits(reply) ==> pass.answered(lib, reply).0.answers_left() < pass.answers_left(),
{
    match (pass.step, reply) {
        (Step::Asking { i }, Reply::Page(answer)) => match answer {
            Ok(meta) => {
                if util::normalized(meta.title) == util::normalized(pass.todo[i as int].title) {
                    lemma_moving_keeps_account(pass, lib, i, pass.slug, false);
                }
            },
            Err(f) => {
                if !f.not_found {
                    let o = OutcomeView::Undetermined {
                        novel_id: pass.todo[i as int].novel_id,
                        title: pass.todo[i as int].title,
                        reason: f.message,
                    };
                    lemma_decided_keeps_account(pass, i as int, o);
                }
            },
        },
        (Step::Searching { i }, Reply::Search(answer)) => {
            let s = pass.todo[i as int];
            match answer {
                Ok(Some(slug)) => {
                    lemma_moving_keeps_account(pass, lib, i, slug, true);
                },
                Ok(None) => {
                    let o = OutcomeView::NotOnChikari {
                        novel_id: s.novel_id,
                        title: s.title,
                        promoted: left_behind(lib, s.novel_id, s.source.id).0,
                    };
                    lemma_decided_keeps_account(pass, i as int, o);
                },
                Err(e) => {
                    let o = OutcomeView::Undetermined {
                        novel_id: s.novel_id,
                        title: s.title,
                        reason: e,
                    };
                    lemma_decided_keeps_account(pass, i as int, o);
                },
            }
        },
        _ => {},
    }
}

/// Whatever is answered, a migration keeps account of its sources. Once it asks for
/// nothing more, its report has one outcome for each of them, in their order, and is
/// complete just when none of them is undetermined.
pub proof fn law_every_source_is_accounted_for(
    todo: Seq<StaleView>,
    lib: Library,
    replies: Seq<Reply>,
)
    requires
        todo.len() <= usize::MAX,
    ensures
        ({
            let pass = MigrationView::planned(todo).after_all(lib, replies).0;
            &&& pass.keeps_account()
            &&& pass.todo == todo
            &&& pass.action() is Finish ==> {
                &&& pass.outcomes.len() == todo.len()
                &&& forall|i: int|
                    0 <= i < todo.len() ==> concerns(#[trigger] pass.outcomes[i], todo[i])
                &&& pass.complete == none_undetermined(pass.outcomes)
            }
        }),
    decreases replies.len(),
{
    if replies.len() == 0 {
        let start = MigrationView {
            todo,
            outcomes: seq![],
            complete: true,
            slug: seq![],
            step: Step::Done,
        };
        lemma_taking_keeps_account(start, 0);
    } else {
        law_every_source_is_accounted_for(todo, lib, replies.drop_last());
        let (pass, l) = MigrationView::planned(todo).after_all(lib, replies.drop_last());
        lemma_answered(pass, l, replies.last());
    }
}

/// A migration ends: every answer to what it asked for leaves fewer to come.
pub proof fn law_a_migration_ends(pass: MigrationView, lib: Library, reply: Reply)
    requires
        pass.todo.len() <= usize::MAX,
        pass.keeps_account(),
        pass.awaits(reply),
    ensures
        0 <= pass.answered(lib, reply).0.answers_left() < pass.answers_left(),
{
    lemma_answered(pass, lib, reply);
}

/// Whatever is answered, a migration loses no chapter and changes none of its text, and
/// no gap and no setting.
pub proof fn law_a_migration_keeps_every_chapter(
    pass: MigrationView,
    lib: Library,
    replies: Seq<Reply>,
    k: Key,
)
    requires
        lib.chapters.contains_key(k),
    ensures
        ({
            let after = pass.after_all(lib, replies).1;
            &&& after.chapters.contains_key(k)
            &&& after.chapters[k].title == lib.chapters[k].title
            &&& after.chapters[k].body == lib.chapters[k].body
            &&& after.gaps == lib.gaps
            &&& after.meta == lib.meta
        }),
    decreases replies.len(),
{
    if replies.len() > 0 {
        law_a_migration_keeps_every_chapter(pass, lib, replies.drop_last(), k);
    }
}

/// A migration asks for the page of the same slug, takes it where its title is the novel's but for
/// case and punctuation, and searches for the title where it is not or where there is no page.
pub proof fn law_a_migration_checks_the_title(
    pass: MigrationView,
    lib: Library,
    i: usize,
    meta: MetaView,
    f: FailureView,
)
    requires
        pass.step == (Step::Asking { i }),
        i < pass.todo.len(),
    ensures
        pass.action() == (MigrationActionView::FetchNovel {
            url: "https://chikari.moe/novels/"@ + pass.slug,
        }),
        util::normalized(meta.title) == util::normalized(pass.todo[i as int].title) ==> pass.paged(
            lib,
            Ok(meta),
        ) == pass.moving(lib, i, pass.slug, false),
        util::normalized(meta.title) != util::normalized(pass.todo[i as int].title) ==> pass.paged(
            lib,
            Ok(meta),
        ).0.action() == (MigrationActionView::FindSlug { title: pass.todo[i as int].title })
            && pass.paged(lib, Ok(meta)).1 == lib,
        f.not_found ==> pass.paged(lib, Err(f)).0.action() == (MigrationActionView::FindSlug {
            title: pass.todo[i as int].title,
        }) && pass.paged(lib, Err(f)).1 == lib,
        !f.not_found ==> pass.paged(lib, Err(f)).1 == lib && pass.paged(lib, Err(f)).0.outcomes.len()
            > pass.outcomes.len() && pass.paged(lib, Err(f)).0.outcomes[pass.outcomes.len() as int]
            is Undetermined,
{
    if !f.not_found {
        lemma_taking_keeps_outcomes(pass.undetermined(i as int, f.message), i + 1);
    }
}

proof fn lemma_taking_keeps_outcomes(pass: MigrationView, i: int)
    requires
        0 <= i,
    ensures
        pass.taking(i).outcomes.len() >= pass.outcomes.len(),
        pass.taking(i).outcomes.take(pass.outcomes.len() as int) == pass.outcomes,
        forall|k: int|
            0 <= k < pass.outcomes.len() ==> #[trigger] pass.taking(i).outcomes[k]
                == pass.outcomes[k],
    decreases pass.todo.len() - i,
{
    assert(pass.outcomes.take(pass.outcomes.len() as int) =~= pass.outcomes);
    if i < pass.todo.len() {
        let url = pass.todo[i].source.url;
        if lightnovelworld::slug_in(web::path_segments_of(url)) is None {
            let next = pass.undetermined(i, "no novel slug in "@ + url);
            lemma_taking_keeps_outcomes(next, i + 1);
            let all = pass.taking(i).outcomes;
            assert forall|k: int| 0 <= k < pass.outcomes.len() implies #[trigger] all[k]
                == pass.outcomes[k] by {
                assert(next.outcomes[k] == pass.outcomes[k]);
            }
            assert(all.take(pass.outcomes.len() as int) =~= pass.outcomes);
        }
    }
}

/// A source that is moved gets the novel's page on the new site and the new site's name, keeps its
/// place, and is reported as moved, with where it was and where it is.
pub proof fn law_a_moved_source_leads_to_the_new_site(
    pass: MigrationView,
    lib: Library,
    i: usize,
    slug: Seq<char>,
    via_title_search: bool,
)
    requires
        i < pass.todo.len(),
        lib.sources.contains_key(pass.todo[i as int].source.id),
        forall|s: i64| #[trigger]
            lib.sources.contains_key(s) && s != pass.todo[i as int].source.id ==> lib.sources[s].url
                != "https://chikari.moe/novels/"@ + slug,
    ensures
        ({
            let s = pass.todo[i as int];
            let to = "https://chikari.moe/novels/"@ + slug;
            let (after, with) = pass.moving(lib, i, slug, via_title_search);
            &&& with.sources[s.source.id].url == to
            &&& with.sources[s.source.id].name == "chikari"@
            &&& with.sources[s.source.id].priority == lib.sources[s.source.id].priority
            &&& with.sources[s.source.id].novel_id == lib.sources[s.source.id].novel_id
            &&& after.outcomes.len() > pass.outcomes.len()
            &&& after.outcomes[pass.outcomes.len() as int] == (OutcomeView::Moved {
                novel_id: s.novel_id,
                title: s.title,
                from: s.source.url,
                to,
                via_title_search,
            })
        }),
{
    let s = pass.todo[i as int];
    let to = chikari::novel_page(slug);
    assert(!store::attached_elsewhere(lib, s.source.id, to));
    let o = OutcomeView::Moved {
        novel_id: s.novel_id,
        title: s.title,
        from: s.source.url,
        to,
        via_title_search,
    };
    lemma_taking_keeps_outcomes(pass.decided(o), i + 1);
    assert(pass.decided(o).outcomes[pass.outcomes.len() as int] == o);
}

/// A search that finds the novel moves the source there; one that does not leaves the novel behind,
/// with another source in the lead where there is one; and one that fails decides nothing.
pub proof fn law_a_search_decides(
    pass: MigrationView,
    lib: Library,
    i: usize,
    slug: Seq<char>,
    e: Seq<char>,
)
    requires
        pass.step == (Step::Searching { i }),
        i < pass.todo.len(),
    ensures
        pass.searched(lib, Ok(Some(slug))) == pass.moving(lib, i, slug, true),
        ({
            let s = pass.todo[i as int];
            let (after, with) = pass.searched(lib, Ok(None));
            &&& with == left_behind(lib, s.novel_id, s.source.id).1
            &&& after.outcomes.len() > pass.outcomes.len()
            &&& after.outcomes[pass.outcomes.len() as int] == (OutcomeView::NotOnChikari {
                novel_id: s.novel_id,
                title: s.title,
                promoted: left_behind(lib, s.novel_id, s.source.id).0,
            })
        }),
        pass.searched(lib, Err(e)).1 == lib,
{
    let s = pass.todo[i as int];
    let o = OutcomeView::NotOnChikari {
        novel_id: s.novel_id,
        title: s.title,
        promoted: left_behind(lib, s.novel_id, s.source.id).0,
    };
    lemma_taking_keeps_outcomes(pass.decided(o), i + 1);
    assert(pass.decided(o).outcomes[pass.outcomes.len() as int] == o);
}

/// The source that takes the lead is the first by priority that is neither the dead one nor on the
/// old site.
pub proof fn law_the_heir_is_the_first_that_lives(order: Seq<SourceView>, dead: i64, j: int)
    ensures
        0 <= heir(order, dead) <= order.len(),
        heir(order, dead) < order.len() ==> order[heir(order, dead)].id != dead && !on_old_site(
            order[heir(order, dead)].url,
        ),
        0 <= j < heir(order, dead) ==> order[j].id == dead || on_old_site(order[j].url),
    decreases order.len(),
{
    if order.len() > 0 && (order[0].id == dead || on_old_site(order[0].url)) {
        let t = order.drop_first();
        law_the_heir_is_the_first_that_lives(t, dead, j - 1);
        let h = heir(t, dead);
        if h < t.len() {
            assert(t[h] == order[h + 1]);
        }
        if 0 < j < h + 1 {
            assert(t[j - 1] == order[j]);
        }
    }
}

/// A novel whose lead source is dead is led by its heir; where the dead source does not lead, or no
/// other source lives, nothing changes.
pub proof fn law_a_novel_left_behind_is_led_by_its_heir(
    lib: Library,
    novel: i64,
    dead: i64,
    order: Seq<SourceView>,
)
    requires
        order == store::source_order(lib, novel),
        lib.novels.contains_key(novel),
        order.len() > 0,
    ensures
        order[store::primary_index(order)].id != dead ==> left_behind(lib, novel, dead).1 == lib,
        heir(order, dead) >= order.len() ==> left_behind(lib, novel, dead).1 == lib && left_behind(
            lib,
            novel,
            dead,
        ).0 is None,
        order[store::primary_index(order)].id == dead && 0 <= heir(order, dead) < order.len() ==> (
        match store::promotion(lib, novel, order[heir(order, dead)].id) {
            Some(after) => left_behind(lib, novel, dead) == (
                Some(order[heir(order, dead)].name),
                after,
            ),
            None => left_behind(lib, novel, dead).1 == lib,
        }),
{
}

/// An address is on the old site by its host.
pub proof fn law_the_old_site_is_told_by_its_host(url: Seq<char>, h: Seq<char>)
    requires
        web::host_of(url) == Ok::<Option<Seq<char>>, Seq<char>>(Some(h)),
        h.len() < 4 || h.take(4) != "www."@,
    ensures
        on_old_site(url) <==> text::lower(h) == text::lower("lightnovelworld.org"@),
{
    source::law_a_site_is_told_by_its_host(url, "lightnovelworld.org"@, h);
}

/// Every source on the old site is taken up, as the library records it, and no other is.
pub proof fn law_stale_sources_are_all_taken_up(lib: Library, v: Seq<StaleView>, s: i64, i: int)
    requires
        lists_stale(lib, v),
    ensures
        lib.sources.contains_key(s) && on_old_site(lib.sources[s].url) ==> exists|k: int|
            0 <= k < v.len() && (#[trigger] v[k]).source.id == s,
        0 <= i < v.len() ==> {
            &&& lib.sources.contains_key(v[i].source.id)
            &&& on_old_site(lib.sources[v[i].source.id].url)
            &&& v[i].source.url == lib.sources[v[i].source.id].url
            &&& v[i].source.name == lib.sources[v[i].source.id].name
            &&& v[i].novel_id == lib.sources[v[i].source.id].novel_id
            &&& v[i].title == lib.novels[v[i].novel_id].title
        },
{
    if 0 <= i < v.len() {
        assert(v[i].source == store::source_view(lib, v[i].source.id));
    }
}

/// A migration starts with the first source whose address names a novel, and asks for the page of
/// that novel's slug; where there is none it is over.
pub proof fn law_a_migration_starts_at_the_first_source(todo: Seq<StaleView>, slug: Seq<char>)
    requires
        todo.len() <= usize::MAX,
    ensures
        todo.len() == 0 ==> MigrationView::planned(todo).action() == MigrationActionView::Finish
            && MigrationView::planned(todo).complete,
        todo.len() > 0 && lightnovelworld::slug_in(web::path_segments_of(todo[0].source.url)) == Some(
            slug,
        ) ==> MigrationView::planned(todo).action() == (MigrationActionView::FetchNovel {
            url: "https://chikari.moe/novels/"@ + slug,
        }) && MigrationView::planned(todo).outcomes.len() == 0,
{
}

/// The sources to move, and what became of them, are seen as they are.
pub proof fn law_outcomes_are_seen_whole(
    v: Seq<MigrationOutcome>,
    s: Seq<Stale>,
    i: int,
    m: NovelMeta,
    f: Failure,
    slug: String,
)
    requires
        0 <= i < v.len(),
        0 <= i < s.len(),
    ensures
        outcome_views(v).len() == v.len(),
        outcome_views(v)[i] == v[i]@,
        stale_views(s).len() == s.len(),
        stale_views(s)[i].novel_id == s[i].novel_id,
        stale_views(s)[i].title == s[i].title@,
        stale_views(s)[i].source == s[i].source@,
        v[i] matches MigrationOutcome::Moved { novel_id, title, from, to, via_title_search } ==> v[i]@
            == (OutcomeView::Moved {
            novel_id,
            title: title@,
            from: from@,
            to: to@,
            via_title_search,
        }),
        v[i] matches MigrationOutcome::NotOnChikari { novel_id, title, promoted } ==> v[i]@ == (
        OutcomeView::NotOnChikari { novel_id, title: title@, promoted: text::opt(promoted) }),
        v[i] matches MigrationOutcome::Undetermined { novel_id, title, reason } ==> v[i]@ == (
        OutcomeView::Undetermined { novel_id, title: title@, reason: reason@ }),
        page_answer(Ok(m)) == Ok::<MetaView, FailureView>(m@),
        page_answer(Err(f)) == Err::<MetaView, FailureView>(f@),
        search_answer(Ok(Some(slug))) == Ok::<Option<Seq<char>>, Seq<char>>(Some(slug@)),
        search_answer(Ok(None)) == Ok::<Option<Seq<char>>, Seq<char>>(None),
        search_answer(Err(f)) == Err::<Option<Seq<char>>, Seq<char>>(f.message@),
{
}

} // verus!
