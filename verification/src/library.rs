//! The library as mathematics: what a [`Store`](crate::store::Store) holds, and
//! what its operations make of it.

use vstd::prelude::*;

use crate::model::{ChapterView, DerivedState, MetaView, NovelStatus};
use crate::table::Key;
use crate::text;
use crate::util;

verus! {

#[verifier::ext_equal]
pub struct NovelRec {
    pub title: Seq<char>,
    pub author: Option<Seq<char>>,
    pub cover_url: Option<Seq<char>>,
    pub genre: Option<Seq<char>>,
    pub status_hint: NovelStatus,
    pub derived_state: DerivedState,
    pub export_pending: bool,
    pub created_at: i64,
    pub updated_at: i64,
}

#[verifier::ext_equal]
pub struct SourceRec {
    pub novel_id: i64,
    pub name: Seq<char>,
    pub url: Seq<char>,
    pub priority: i64,
    pub last_seen_chapter: Option<u32>,
    pub last_synced_at: Option<i64>,
}

#[verifier::ext_equal]
pub struct ChapterRec {
    pub title: Seq<char>,
    pub body: Seq<char>,
    pub source_id: Option<i64>,
    pub fetched_at: i64,
    pub exported: bool,
    pub exported_at: Option<i64>,
}

/// Novels and sources by id, chapters and recorded gaps by novel and number,
/// and the free-form settings by key.
#[verifier::ext_equal]
pub struct Library {
    pub novels: Map<i64, NovelRec>,
    pub sources: Map<i64, SourceRec>,
    pub chapters: Map<Key, ChapterRec>,
    pub gaps: Map<Key, i64>,
    pub meta: Map<Seq<char>, Seq<char>>,
    /// The highest novel id ever handed out.
    pub last_novel_id: i64,
}

/// The separator between a chapter's paragraphs in its stored body.
pub open spec fn paragraph_break() -> Seq<char> {
    "\n\n"@
}

pub open spec fn body_of(paragraphs: Seq<Seq<char>>) -> Seq<char> {
    text::join(paragraphs, paragraph_break())
}

pub open spec fn paragraphs_of(body: Seq<char>) -> Seq<Seq<char>> {
    text::split_at_each(body, paragraph_break())
}

/// The first id, in ascending order, whose novel satisfies `p`.
pub open spec fn first_novel(m: Map<i64, NovelRec>, p: spec_fn(NovelRec) -> bool) -> Option<i64> {
    if exists|id: i64| is_first_novel(m, p, id) {
        Some(choose|id: i64| is_first_novel(m, p, id))
    } else {
        None
    }
}

pub open spec fn is_first_novel(
    m: Map<i64, NovelRec>,
    p: spec_fn(NovelRec) -> bool,
    id: i64,
) -> bool {
    &&& m.contains_key(id)
    &&& p(m[id])
    &&& forall|j: i64| #[trigger] m.contains_key(j) && j < id ==> !p(m[j])
}

pub proof fn lemma_first_novel(m: Map<i64, NovelRec>, p: spec_fn(NovelRec) -> bool, id: i64)
    requires
        is_first_novel(m, p, id),
    ensures
        first_novel(m, p) == Some(id),
{
    let other = choose|j: i64| is_first_novel(m, p, j);
    assert(is_first_novel(m, p, other));
    assert(m.contains_key(id) && m.contains_key(other));
}

/// Whether `n` is the id that follows the highest one in use.
pub open spec fn is_next_id(m: Map<i64, SourceRec>, n: int) -> bool {
    ||| n == 1 && forall|k: i64| !m.contains_key(k)
    ||| (exists|k: i64| m.contains_key(k) && k + 1 == n) && forall|k: i64| #[trigger]
        m.contains_key(k) ==> k < n
}

pub open spec fn next_id(m: Map<i64, SourceRec>) -> int {
    choose|n: int| is_next_id(m, n)
}

pub proof fn lemma_next_id(m: Map<i64, SourceRec>, n: int)
    requires
        is_next_id(m, n),
    ensures
        next_id(m) == n,
{
    let o = next_id(m);
    assert(is_next_id(m, o));
}

/// The same title up to ASCII case, and the same author (no author counts as an
/// empty one).
pub open spec fn same_work(title: Seq<char>, author: Option<Seq<char>>) -> spec_fn(
    NovelRec,
) -> bool {
    |n: NovelRec|
        text::eq_ci(n.title, title) && author_or_empty(n.author) == author_or_empty(author)
}

pub open spec fn author_or_empty(author: Option<Seq<char>>) -> Seq<char> {
    match author {
        Some(a) => a,
        None => seq![],
    }
}

pub open spec fn titled(title: Seq<char>) -> spec_fn(NovelRec) -> bool {
    |n: NovelRec| text::eq_ci(n.title, title)
}

pub open spec fn normalized_to(target: Seq<char>) -> spec_fn(NovelRec) -> bool {
    |n: NovelRec| util::normalized(n.title) == target
}

impl Library {
    /// Every reference leads somewhere, no URL is attached twice, and no id was
    /// handed out past the highest one on record.
    pub open spec fn valid(self) -> bool {
        &&& forall|s: i64| #[trigger]
            self.sources.contains_key(s) ==> self.novels.contains_key(self.sources[s].novel_id)
        &&& forall|s: i64, t: i64| #[trigger]
            self.sources.contains_key(s) && #[trigger] self.sources.contains_key(t) && s != t
                ==> self.sources[s].url != self.sources[t].url
        &&& forall|k: Key| #[trigger]
            self.chapters.contains_key(k) ==> self.novels.contains_key(k.0) && (
            self.chapters[k].source_id matches Some(s) ==> self.sources.contains_key(s))
        &&& forall|k: Key| #[trigger]
            self.gaps.contains_key(k) ==> self.novels.contains_key(k.0)
        &&& forall|n: i64| #[trigger]
            self.novels.contains_key(n) ==> n <= self.last_novel_id
        &&& 0 <= self.last_novel_id
    }

    pub open spec fn empty() -> Library {
        Library {
            novels: Map::empty(),
            sources: Map::empty(),
            chapters: Map::empty(),
            gaps: Map::empty(),
            meta: Map::empty(),
            last_novel_id: 0,
        }
    }

    /// The numbers of the chapters stored for a novel.
    pub open spec fn stored(self, novel: i64) -> Set<u32> {
        Set::new(|n: u32| self.chapters.contains_key((novel, n)))
    }

    /// The numbers recorded as missing at a novel's primary source.
    pub open spec fn gap_numbers(self, novel: i64) -> Set<u32> {
        Set::new(|n: u32| self.gaps.contains_key((novel, n)))
    }

    /// The source a URL is attached as.
    pub open spec fn has_url(self, url: Seq<char>) -> bool {
        exists|s: i64| self.sources.contains_key(s) && (#[trigger] self.sources[s]).url == url
    }

    /// A stored chapter with its text.
    pub open spec fn chapter(self, novel: i64, n: u32) -> ChapterView {
        ChapterView {
            number: n,
            title: self.chapters[(novel, n)].title,
            paragraphs: paragraphs_of(self.chapters[(novel, n)].body),
        }
    }

    pub open spec fn set_novel(self, id: i64, rec: NovelRec) -> Library {
        Library { novels: self.novels.insert(id, rec), ..self }
    }

    pub open spec fn set_chapter(self, k: Key, rec: ChapterRec) -> Library {
        Library { chapters: self.chapters.insert(k, rec), ..self }
    }

    pub open spec fn set_source(self, id: i64, rec: SourceRec) -> Library {
        Library { sources: self.sources.insert(id, rec), ..self }
    }

    // -- subscriptions ------------------------------------------------------

    /// Why a novel cannot be subscribed to, if it cannot.
    pub open spec fn subscribe_refusal(self, meta: MetaView) -> Option<Seq<char>> {
        if self.has_url(meta.source_url) {
            Some("already subscribed to this source URL"@)
        } else {
            match first_novel(self.novels, same_work(meta.title, meta.author)) {
                Some(id) => Some(
                    "already following \""@ + meta.title + "\" (novel #"@ + text::decimal_int(
                        id as int,
                    ) + "); use `vesper add-source "@ + text::decimal_int(id as int)
                        + " <url>` to attach another source"@,
                ),
                None => if self.last_novel_id == i64::MAX || next_id(self.sources) > i64::MAX {
                    Some(no_room())
                } else {
                    None
                },
            }
        }
    }

    /// With a new novel, still to be filled, and its first source.
    pub open spec fn subscribed(self, meta: MetaView, source: Seq<char>, now: i64) -> Library {
        let id = (self.last_novel_id + 1) as i64;
        Library {
            novels: self.novels.insert(
                id,
                NovelRec {
                    title: meta.title,
                    author: meta.author,
                    cover_url: meta.cover_url,
                    genre: meta.genre,
                    status_hint: meta.status_hint,
                    derived_state: DerivedState::Backfilling,
                    export_pending: false,
                    created_at: now,
                    updated_at: now,
                },
            ),
            sources: self.sources.insert(
                next_id(self.sources) as i64,
                new_source(id, source, meta.source_url, 1),
            ),
            last_novel_id: id,
            ..self
        }
    }

    /// Whether a novel's sources all have a priority of at most `p`, and one has
    /// it; 0 for none.
    pub open spec fn is_last_priority(self, novel: i64, p: int) -> bool {
        ||| p == 0 && forall|s: i64| #[trigger]
            self.sources.contains_key(s) ==> self.sources[s].novel_id != novel
        ||| {
            &&& exists|s: i64|
                self.sources.contains_key(s) && (#[trigger] self.sources[s]).novel_id == novel
                    && self.sources[s].priority == p
            &&& forall|s: i64| #[trigger]
                self.sources.contains_key(s) && self.sources[s].novel_id == novel
                    ==> self.sources[s].priority <= p
        }
    }

    pub open spec fn last_priority(self, novel: i64) -> int {
        choose|p: int| self.is_last_priority(novel, p)
    }

    /// Why a source cannot be attached, if it cannot.
    pub open spec fn add_source_refusal(self, novel: i64, url: Seq<char>) -> Option<Seq<char>> {
        if self.has_url(url) {
            Some("that source URL is already in the library"@)
        } else if !self.novels.contains_key(novel) {
            Some(broken_reference())
        } else if self.last_priority(novel) + 1 > i64::MAX || next_id(self.sources) > i64::MAX {
            Some(no_room())
        } else {
            None
        }
    }

    /// With one more source, behind the ones the novel has.
    pub open spec fn with_source(self, novel: i64, name: Seq<char>, url: Seq<char>) -> Library {
        self.set_source(
            next_id(self.sources) as i64,
            new_source(novel, name, url, (self.last_priority(novel) + 1) as i64),
        )
    }

    /// Whether chapters of another novel came from a source of this one.
    pub open spec fn lends_sources(self, novel: i64) -> bool {
        exists|k: Key| #[trigger]
            self.chapters.contains_key(k) && k.0 != novel && self.comes_from(k, novel)
    }

    /// Whether a chapter came from a source of `novel`.
    pub open spec fn comes_from(self, k: Key, novel: i64) -> bool {
        match self.chapters[k].source_id {
            Some(s) => self.sources[s].novel_id == novel,
            None => false,
        }
    }

    /// Without a novel and everything that belongs to it.
    pub open spec fn without_novel(self, novel: i64) -> Library {
        Library {
            novels: self.novels.remove(novel),
            sources: self.sources.remove_keys(
                Set::new(|s: i64| self.sources.contains_key(s) && self.sources[s].novel_id == novel),
            ),
            chapters: self.chapters.remove_keys(Set::new(|k: Key| k.0 == novel)),
            gaps: self.gaps.remove_keys(Set::new(|k: Key| k.0 == novel)),
            ..self
        }
    }

    // -- chapters -----------------------------------------------------------

    pub open spec fn new_chapter(self, source: i64, c: ChapterView, now: i64) -> ChapterRec {
        ChapterRec {
            title: c.title,
            body: body_of(c.paragraphs),
            source_id: Some(source),
            fetched_at: now,
            exported: false,
            exported_at: None,
        }
    }

    /// With a chapter stored, unless its number is taken.
    pub open spec fn with_chapter(
        self,
        novel: i64,
        source: i64,
        c: ChapterView,
        now: i64,
    ) -> Library {
        if self.chapters.contains_key((novel, c.number)) {
            self
        } else {
            self.set_chapter((novel, c.number), self.new_chapter(source, c, now))
        }
    }

    /// With a stored chapter's title and text replaced by another source's, to
    /// be exported again. A chapter that is not stored stays so.
    pub open spec fn with_content(self, novel: i64, source: i64, c: ChapterView) -> Library {
        let k = (novel, c.number);
        if self.chapters.contains_key(k) {
            self.set_chapter(
                k,
                ChapterRec {
                    title: c.title,
                    body: body_of(c.paragraphs),
                    source_id: Some(source),
                    exported: false,
                    exported_at: None,
                    ..self.chapters[k]
                },
            )
        } else {
            self
        }
    }

    /// Whether storing this body would change anything.
    pub open spec fn body_differs(self, k: Key, body: Seq<char>) -> bool {
        self.chapters.contains_key(k) && self.chapters[k].body != body
    }

    pub open spec fn with_body(self, k: Key, body: Seq<char>) -> Library {
        if self.body_differs(k, body) {
            self.set_chapter(
                k,
                ChapterRec { body, exported: false, exported_at: None, ..self.chapters[k] },
            )
        } else {
            self
        }
    }

    /// Whether storing this title would change anything.
    pub open spec fn title_differs(self, k: Key, title: Seq<char>) -> bool {
        self.chapters.contains_key(k) && self.chapters[k].title != title
    }

    pub open spec fn with_title(self, k: Key, title: Seq<char>) -> Library {
        if self.title_differs(k, title) {
            self.set_chapter(
                k,
                ChapterRec { title, exported: false, exported_at: None, ..self.chapters[k] },
            )
        } else {
            self
        }
    }

    pub open spec fn with_gap(self, k: Key, now: i64) -> Library {
        if self.gaps.contains_key(k) {
            self
        } else {
            Library { gaps: self.gaps.insert(k, now), ..self }
        }
    }

    pub open spec fn without_gap(self, k: Key) -> Library {
        Library { gaps: self.gaps.remove(k), ..self }
    }

    // -- progress and lifecycle ---------------------------------------------

    pub open spec fn with_progress(self, source: i64, last_seen: u32, now: i64) -> Library {
        if self.sources.contains_key(source) {
            self.set_source(
                source,
                SourceRec {
                    last_seen_chapter: Some(last_seen),
                    last_synced_at: Some(now),
                    ..self.sources[source]
                },
            )
        } else {
            self
        }
    }

    /// With everything but the title taken from the novel's page.
    pub open spec fn with_meta(self, novel: i64, meta: MetaView, now: i64) -> Library {
        if self.novels.contains_key(novel) {
            self.set_novel(
                novel,
                NovelRec {
                    author: meta.author,
                    cover_url: meta.cover_url,
                    genre: meta.genre,
                    status_hint: meta.status_hint,
                    updated_at: now,
                    ..self.novels[novel]
                },
            )
        } else {
            self
        }
    }

    pub open spec fn with_state(self, novel: i64, state: DerivedState, now: i64) -> Library {
        if self.novels.contains_key(novel) {
            self.set_novel(
                novel,
                NovelRec { derived_state: state, updated_at: now, ..self.novels[novel] },
            )
        } else {
            self
        }
    }

    pub open spec fn with_pending(self, novel: i64, pending: bool) -> Library {
        if self.novels.contains_key(novel) {
            self.set_novel(novel, NovelRec { export_pending: pending, ..self.novels[novel] })
        } else {
            self
        }
    }

    /// With every chapter of the novel exported at `now`.
    pub open spec fn exported(self, novel: i64, now: i64) -> Library {
        Library {
            chapters: Map::new(
                |k: Key| self.chapters.contains_key(k),
                |k: Key|
                    if k.0 == novel {
                        ChapterRec { exported: true, exported_at: Some(now), ..self.chapters[k] }
                    } else {
                        self.chapters[k]
                    },
            ),
            ..self
        }
    }

    /// Whether nothing was stored for the novel in the `days` days before `now`.
    /// A novel with no chapters counts as last heard of at the epoch.
    pub open spec fn quiet(self, novel: i64, now: i64, days: u32) -> bool {
        &&& forall|n: u32| #[trigger]
            self.chapters.contains_key((novel, n)) ==> now - self.chapters[(novel, n)].fetched_at
                >= days * 86_400
        &&& (forall|n: u32| !#[trigger] self.chapters.contains_key((novel, n))) ==> now >= days
            * 86_400
    }

    /// The state a novel is in once its label and its silence are weighed. Only
    /// a live novel that is labelled complete can become likely complete.
    pub open spec fn reevaluated_state(self, novel: i64, now: i64, days: u32) -> DerivedState {
        let n = self.novels[novel];
        if n.derived_state == DerivedState::Live && n.status_hint == NovelStatus::Completed
            && self.quiet(novel, now, days) {
            DerivedState::LikelyComplete
        } else {
            n.derived_state
        }
    }

    /// Whether a chapter's text may go: exported at least `days` days before
    /// `now`, in a novel that is likely complete.
    pub open spec fn purgeable(self, k: Key, now: i64, days: u32) -> bool {
        &&& self.chapters.contains_key(k)
        &&& self.chapters[k].exported
        &&& self.chapters[k].exported_at matches Some(t) && t <= now - days * 86_400
        &&& self.novels[k.0].derived_state == DerivedState::LikelyComplete
    }

    pub open spec fn purged(self, now: i64, days: u32) -> Library {
        Library {
            chapters: self.chapters.remove_keys(
                Set::new(|k: Key| self.purgeable(k, now, days)),
            ),
            ..self
        }
    }
}

pub open spec fn new_source(
    novel_id: i64,
    name: Seq<char>,
    url: Seq<char>,
    priority: i64,
) -> SourceRec {
    SourceRec { novel_id, name, url, priority, last_seen_chapter: None, last_synced_at: None }
}

/// The refusal where the ids or priorities have run out.
pub open spec fn no_room() -> Seq<char> {
    "the library has no room for more entries"@
}

/// The refusal of a row that refers to one that is not there.
pub open spec fn broken_reference() -> Seq<char> {
    "the library has no such novel or source"@
}

} // verus!
