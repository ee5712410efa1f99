//! The library's contents: subscriptions, their sources, chapters and gaps.
//!
//! A [`Store`] holds the rows; [`Library`] says what they amount to, and every
//! operation is stated as what it makes of it.

use std::collections::BTreeSet;
use vstd::prelude::*;

use crate::library::{ChapterRec, Library, NovelRec, SourceRec};
use crate::library;
use crate::model::{Chapter, DerivedState, MetaView, NovelMeta, NovelStatus};
use crate::numbers;
use crate::table::{Key, Table};
use crate::text;
use crate::util;

verus! {

// ---------------------------------------------------------------------------
// Rows
// ---------------------------------------------------------------------------

#[derive(Debug)]
pub struct NovelRow {
    pub title: String,
    pub author: Option<String>,
    pub cover_url: Option<String>,
    pub genre: Option<String>,
    pub status_hint: NovelStatus,
    pub derived_state: DerivedState,
    pub export_pending: bool,
    pub created_at: i64,
    pub updated_at: i64,
}

impl View for NovelRow {
    type V = NovelRec;

    open spec fn view(&self) -> NovelRec {
        NovelRec {
            title: self.title@,
            author: text::opt(self.author),
            cover_url: text::opt(self.cover_url),
            genre: text::opt(self.genre),
            status_hint: self.status_hint,
            derived_state: self.derived_state,
            export_pending: self.export_pending,
            created_at: self.created_at,
            updated_at: self.updated_at,
        }
    }
}

#[derive(Debug)]
pub struct SourceRow {
    pub novel_id: i64,
    pub name: String,
    pub url: String,
    pub priority: i64,
    pub last_seen_chapter: Option<u32>,
    pub last_synced_at: Option<i64>,
}

impl View for SourceRow {
    type V = SourceRec;

    open spec fn view(&self) -> SourceRec {
        SourceRec {
            novel_id: self.novel_id,
            name: self.name@,
            url: self.url@,
            priority: self.priority,
            last_seen_chapter: self.last_seen_chapter,
            last_synced_at: self.last_synced_at,
        }
    }
}

#[derive(Debug)]
pub struct ChapterRow {
    pub title: String,
    pub body: String,
    pub source_id: Option<i64>,
    pub fetched_at: i64,
    pub exported: bool,
    pub exported_at: Option<i64>,
}

impl View for ChapterRow {
    type V = ChapterRec;

    open spec fn view(&self) -> ChapterRec {
        ChapterRec {
            title: self.title@,
            body: self.body@,
            source_id: self.source_id,
            fetched_at: self.fetched_at,
            exported: self.exported,
            exported_at: self.exported_at,
        }
    }
}

/// A source as the rest of the program sees it.
#[derive(Debug)]
pub struct StoredSource {
    pub id: i64,
    pub name: String,
    pub url: String,
    pub priority: i64,
    pub last_seen_chapter: Option<u32>,
}

/// A [`StoredSource`] as plain values.
#[verifier::ext_equal]
pub struct SourceView {
    pub id: i64,
    pub name: Seq<char>,
    pub url: Seq<char>,
    pub priority: i64,
    pub last_seen_chapter: Option<u32>,
}

impl View for StoredSource {
    type V = SourceView;

    open spec fn view(&self) -> SourceView {
        SourceView {
            id: self.id,
            name: self.name@,
            url: self.url@,
            priority: self.priority,
            last_seen_chapter: self.last_seen_chapter,
        }
    }
}

impl Clone for StoredSource {
    fn clone(&self) -> (r: Self)
        ensures
            r@ == self@,
    {
        StoredSource {
            id: self.id,
            name: self.name.clone(),
            url: self.url.clone(),
            priority: self.priority,
            last_seen_chapter: self.last_seen_chapter,
        }
    }
}

/// A novel as the rest of the program sees it, with its sources by priority.
#[derive(Debug)]
pub struct StoredNovel {
    pub id: i64,
    pub title: String,
    pub author: Option<String>,
    pub cover_url: Option<String>,
    pub genre: Option<String>,
    pub status_hint: NovelStatus,
    pub derived_state: DerivedState,
    pub export_pending: bool,
    pub sources: Vec<StoredSource>,
    pub chapter_count: i64,
}

pub open spec fn source_views(v: Seq<StoredSource>) -> Seq<SourceView> {
    v.map_values(|s: StoredSource| s@)
}

/// The position of the first source with the lowest priority.
pub open spec fn primary_index(v: Seq<SourceView>) -> int
    decreases v.len(),
{
    if v.len() <= 1 {
        0
    } else {
        let i = primary_index(v.drop_last());
        if v.last().priority < v[i].priority {
            v.len() - 1
        } else {
            i
        }
    }
}

impl StoredNovel {
    /// The source chapters come from first.
    pub fn primary_source(&self) -> (r: Option<&StoredSource>)
        ensures
            r is Some == (self.sources@.len() > 0),
            r matches Some(s) ==> 0 <= primary_index(source_views(self.sources@))
                < self.sources@.len() && *s == self.sources@[primary_index(
                source_views(self.sources@),
            )],
    {
        if self.sources.len() == 0 {
            return None;
        }
        let ghost all = source_views(self.sources@);
        let mut best: usize = 0;
        let mut i: usize = 1;
        assert(all.take(1).len() == 1);
        while i < self.sources.len()
            invariant
                1 <= i <= self.sources.len(),
                best < i,
                all == source_views(self.sources@),
                best == primary_index(all.take(i as int)),
            decreases self.sources.len() - i,
        {
            proof {
                let t = all.take(i + 1);
                assert(t.drop_last() =~= all.take(i as int));
                assert(t.last() == self.sources@[i as int]@);
                assert(t[best as int] == self.sources@[best as int]@);
            }
            if self.sources[i].priority < self.sources[best].priority {
                best = i;
            }
            i += 1;
        }
        assert(all.take(all.len() as int) =~= all);
        Some(&self.sources[best])
    }

    /// What its page said about it, as far as it was kept.
    pub fn to_meta(&self) -> (r: NovelMeta)
        ensures
            r@ == (MetaView {
                title: self.title@,
                author: text::opt(self.author),
                cover_url: text::opt(self.cover_url),
                genre: text::opt(self.genre),
                status_hint: self.status_hint,
                source_url: if self.sources@.len() > 0 {
                    self.sources@[primary_index(source_views(self.sources@))].url@
                } else {
                    seq![]
                },
            }),
    {
        NovelMeta {
            title: self.title.clone(),
            author: text::copy_opt(&self.author),
            cover_url: text::copy_opt(&self.cover_url),
            genre: text::copy_opt(&self.genre),
            status_hint: self.status_hint,
            source_url: match self.primary_source() {
                Some(s) => s.url.clone(),
                None => String::new(),
            },
        }
    }
}

/// The primary source is one with the lowest priority of all.
pub proof fn law_primary_has_lowest_priority(v: Seq<SourceView>)
    requires
        v.len() > 0,
    ensures
        0 <= primary_index(v) < v.len(),
        forall|i: int| 0 <= i < v.len() ==> v[primary_index(v)].priority <= #[trigger] v[i].priority,
    decreases v.len(),
{
    if v.len() > 1 {
        let t = v.drop_last();
        law_primary_has_lowest_priority(t);
        assert forall|i: int| 0 <= i < v.len() implies v[primary_index(v)].priority
            <= #[trigger] v[i].priority by {
            assert(v[primary_index(t)] == t[primary_index(t)]);
            if i < v.len() - 1 {
                assert(v[i] == t[i]);
            }
        }
    }
}

// ---------------------------------------------------------------------------
// The store
// ---------------------------------------------------------------------------

/// Novels, sources, chapters, gaps and settings.
pub struct Store {
    novels: Table<NovelRow>,
    sources: Table<SourceRow>,
    chapters: Table<ChapterRow>,
    gaps: Table<i64>,
    meta: Vec<(String, String)>,
    last_novel_id: i64,
}

pub open spec fn by_id<R>(m: Map<Key, R>, id: i64) -> bool {
    m.contains_key((id, 0u32))
}

pub open spec fn novel_recs(m: Map<Key, NovelRow>) -> Map<i64, NovelRec> {
    Map::new(|id: i64| by_id(m, id), |id: i64| m[(id, 0u32)]@)
}

pub open spec fn source_recs(m: Map<Key, SourceRow>) -> Map<i64, SourceRec> {
    Map::new(|id: i64| by_id(m, id), |id: i64| m[(id, 0u32)]@)
}

pub open spec fn chapter_recs(m: Map<Key, ChapterRow>) -> Map<Key, ChapterRec> {
    Map::new(|k: Key| m.contains_key(k), |k: Key| m[k]@)
}

pub open spec fn has_setting(v: Seq<(String, String)>, k: Seq<char>) -> bool {
    exists|i: int| 0 <= i < v.len() && (#[trigger] v[i]).0@ == k
}

pub open spec fn setting_index(v: Seq<(String, String)>, k: Seq<char>) -> int {
    choose|i: int| 0 <= i < v.len() && (#[trigger] v[i]).0@ == k
}

pub open spec fn settings(v: Seq<(String, String)>) -> Map<Seq<char>, Seq<char>> {
    Map::new(|k: Seq<char>| has_setting(v, k), |k: Seq<char>| v[setting_index(v, k)].1@)
}

pub open spec fn settings_distinct(v: Seq<(String, String)>) -> bool {
    forall|i: int, j: int|
        0 <= i < v.len() && 0 <= j < v.len() && i != j ==> (#[trigger] v[i]).0@ != (
        #[trigger] v[j]).0@
}

/// Ids stand alone in their keys.
pub open spec fn keyed_by_id<R>(m: Map<Key, R>) -> bool {
    forall|k: Key| #[trigger] m.contains_key(k) ==> k.1 == 0
}

impl View for Store {
    type V = Library;

    closed spec fn view(&self) -> Library {
        Library {
            novels: novel_recs(self.novels@),
            sources: source_recs(self.sources@),
            chapters: chapter_recs(self.chapters@),
            gaps: self.gaps@,
            meta: settings(self.meta@),
            last_novel_id: self.last_novel_id,
        }
    }
}

impl Store {
    pub closed spec fn wf(&self) -> bool {
        &&& self.novels.wf()
        &&& self.sources.wf()
        &&& self.chapters.wf()
        &&& self.gaps.wf()
        &&& keyed_by_id(self.novels@)
        &&& keyed_by_id(self.sources@)
        &&& settings_distinct(self.meta@)
        &&& self@.valid()
    }

    /// Whatever was done to a store, every reference in it leads somewhere, no URL is
    /// attached twice, and no novel has an id that was never handed out.
    pub proof fn law_store_is_valid(&self)
        requires
            self.wf(),
        ensures
            self@.valid(),
    {
    }

    /// A store with nothing in it.
    pub fn open_in_memory() -> (r: Store)
        ensures
            r.wf(),
            r@ == Library::empty(),
    {
        let r = Store {
            novels: Table::new(),
            sources: Table::new(),
            chapters: Table::new(),
            gaps: Table::new(),
            meta: Vec::new(),
            last_novel_id: 0,
        };
        assert(r@ =~~= Library::empty());
        r
    }

    // -- lookups ------------------------------------------------------------

    fn source_id_for_url(&self, url: &str) -> (r: Option<i64>)
        requires
            self.wf(),
        ensures
            r is Some == self@.has_url(url@),
            r matches Some(id) ==> self@.sources.contains_key(id) && self@.sources[id].url == url@,
    {
        proof {
            self.sources.lemma_entries();
        }
        let mut i: usize = 0;
        while i < self.sources.len()
            invariant
                i <= self.sources.entries().len(),
                self.wf(),
                forall|j: int|
                    0 <= j < self.sources.entries().len() ==> self.sources@.contains_key(
                        (#[trigger] self.sources.entries()[j]).0,
                    ) && self.sources@[self.sources.entries()[j].0] == self.sources.entries()[j].1,
                forall|j: int|
                    0 <= j < i ==> (#[trigger] self.sources.entries()[j]).1.url@ != url@,
            decreases self.sources.entries().len() - i,
        {
            let k = self.sources.key_at(i);
            assert(self.sources.entries()[i as int].0 == k);
            if text::same(self.sources.row_at(i).url.as_str(), url) {
                assert(self@.sources.contains_key(k.0));
                return Some(k.0);
            }
            i += 1;
        }
        assert forall|s: i64| self@.sources.contains_key(s) implies (#[trigger] self@.sources[s]).url
            != url@ by {
            assert(self.sources@.contains_key((s, 0u32)));
            let j = choose|j: int|
                0 <= j < self.sources.entries().len() && (#[trigger] self.sources.entries()[j]).0
                    == (s, 0u32);
            assert(self.sources.entries()[j].1.url@ != url@);
        }
        None
    }

    fn last_source_id(&self) -> (r: Option<i64>)
        requires
            self.wf(),
        ensures
            r is None ==> library::is_next_id(self@.sources, 1),
            r matches Some(id) ==> library::is_next_id(self@.sources, id + 1),
    {
        proof {
            self.sources.lemma_entries();
        }
        let n: usize = self.sources.len();
        if n == 0 {
            assert forall|k: i64| !self@.sources.contains_key(k) by {
                if self@.sources.contains_key(k) {
                    assert(self.sources@.contains_key((k, 0u32)));
                }
            }
            return None;
        }
        let k = self.sources.key_at(n - 1);
        proof {
            let e = self.sources.entries();
            assert(e[n - 1].0 == k);
            assert(self@.sources.contains_key(k.0));
            assert forall|s: i64| #[trigger] self@.sources.contains_key(s) implies s < k.0 + 1 by {
                assert(self.sources@.contains_key((s, 0u32)));
                let j = choose|j: int| 0 <= j < e.len() && (#[trigger] e[j]).0 == (s, 0u32);
                if j < n - 1 {
                    assert(crate::table::below(e[j].0, e[n - 1].0));
                }
            }
        }
        Some(k.0)
    }

    // -- finding novels -----------------------------------------------------

    proof fn lemma_first_at(&self, i: int, p: spec_fn(NovelRec) -> bool)
        requires
            self.wf(),
            0 <= i < self.novels.entries().len(),
            p(self.novels.entries()[i].1@),
            forall|j: int| 0 <= j < i ==> !p((#[trigger] self.novels.entries()[j]).1@),
        ensures
            library::first_novel(self@.novels, p) == Some(self.novels.entries()[i].0.0),
            self@.novels.contains_key(self.novels.entries()[i].0.0),
    {
        self.novels.lemma_entries();
        let e = self.novels.entries();
        let id = e[i].0.0;
        assert(self.novels@.contains_key(e[i].0));
        assert(e[i].0 == (id, 0u32));
        assert(self@.novels.contains_key(id));
        assert forall|j: i64| #[trigger] self@.novels.contains_key(j) && j < id implies !p(
            self@.novels[j],
        ) by {
            assert(self.novels@.contains_key((j, 0u32)));
            let x = choose|x: int| 0 <= x < e.len() && (#[trigger] e[x]).0 == (j, 0u32);
            if i <= x {
                if i < x {
                    assert(crate::table::below(e[i].0, e[x].0));
                }
            } else {
                assert(!p(e[x].1@));
            }
        }
        assert(library::is_first_novel(self@.novels, p, id));
        library::lemma_first_novel(self@.novels, p, id);
    }

    proof fn lemma_first_none(&self, p: spec_fn(NovelRec) -> bool)
        requires
            self.wf(),
            forall|j: int|
                0 <= j < self.novels.entries().len() ==> !p((#[trigger] self.novels.entries()[j]).1@),
        ensures
            library::first_novel(self@.novels, p) is None,
    {
        self.novels.lemma_entries();
        let e = self.novels.entries();
        assert forall|id: i64| !library::is_first_novel(self@.novels, p, id) by {
            if self@.novels.contains_key(id) {
                assert(self.novels@.contains_key((id, 0u32)));
                let x = choose|x: int| 0 <= x < e.len() && (#[trigger] e[x]).0 == (id, 0u32);
                assert(!p(e[x].1@));
            }
        }
    }

    fn novel_id_for(&self, title: &str, author: &Option<String>) -> (r: Option<i64>)
        requires
            self.wf(),
        ensures
            r == library::first_novel(
                self@.novels,
                library::same_work(title@, text::opt(*author)),
            ),
            r matches Some(id) ==> self@.novels.contains_key(id),
    {
        let want = text::to_chars(title);
        let by: Vec<char> = match author {
            Some(a) => text::to_chars(a.as_str()),
            None => Vec::new(),
        };
        let ghost p = library::same_work(title@, text::opt(*author));
        assert(by@ == library::author_or_empty(text::opt(*author)));
        let mut i: usize = 0;
        while i < self.novels.len()
            invariant
                i <= self.novels.entries().len(),
                self.wf(),
                want@ == title@,
                by@ == library::author_or_empty(text::opt(*author)),
                p == library::same_work(title@, text::opt(*author)),
                forall|j: int| 0 <= j < i ==> !p((#[trigger] self.novels.entries()[j]).1@),
            decreases self.novels.entries().len() - i,
        {
            let row = self.novels.row_at(i);
            let have = text::to_chars(row.title.as_str());
            let have_by: Vec<char> = match &row.author {
                Some(a) => text::to_chars(a.as_str()),
                None => Vec::new(),
            };
            assert(have_by@ == library::author_or_empty(text::opt(row.author)));
            if text::same_ci(&have, &want) && text::same_chars(&have_by, &by) {
                proof {
                    self.lemma_first_at(i as int, p);
                }
                return Some(self.novels.key_at(i).0);
            }
            i += 1;
        }
        proof {
            self.lemma_first_none(p);
        }
        None
    }

    fn novel_id_titled(&self, title: &[char]) -> (r: Option<i64>)
        requires
            self.wf(),
        ensures
            r == library::first_novel(self@.novels, library::titled(title@)),
            r matches Some(id) ==> self@.novels.contains_key(id),
    {
        let ghost p = library::titled(title@);
        let mut i: usize = 0;
        while i < self.novels.len()
            invariant
                i <= self.novels.entries().len(),
                self.wf(),
                p == library::titled(title@),
                forall|j: int| 0 <= j < i ==> !p((#[trigger] self.novels.entries()[j]).1@),
            decreases self.novels.entries().len() - i,
        {
            let have = text::to_chars(self.novels.row_at(i).title.as_str());
            if text::same_ci(&have, title) {
                proof {
                    self.lemma_first_at(i as int, p);
                }
                return Some(self.novels.key_at(i).0);
            }
            i += 1;
        }
        proof {
            self.lemma_first_none(p);
        }
        None
    }

    fn novel_id_normalized(&self, target: &str) -> (r: Option<i64>)
        requires
            self.wf(),
        ensures
            r == library::first_novel(self@.novels, library::normalized_to(target@)),
            r matches Some(id) ==> self@.novels.contains_key(id),
    {
        let ghost p = library::normalized_to(target@);
        let mut i: usize = 0;
        while i < self.novels.len()
            invariant
                i <= self.novels.entries().len(),
                self.wf(),
                p == library::normalized_to(target@),
                forall|j: int| 0 <= j < i ==> !p((#[trigger] self.novels.entries()[j]).1@),
            decreases self.novels.entries().len() - i,
        {
            let have = util::normalize_title(self.novels.row_at(i).title.as_str());
            if text::same(have.as_str(), target) {
                proof {
                    self.lemma_first_at(i as int, p);
                }
                return Some(self.novels.key_at(i).0);
            }
            i += 1;
        }
        proof {
            self.lemma_first_none(p);
        }
        None
    }

    // -- subscribing --------------------------------------------------------

    /// Follow a new novel, with the page it was found on as its first source.
    pub fn subscribe_at(&mut self, meta: &NovelMeta, source_name: &str, now: i64) -> (r: Result<
        i64,
        String,
    >)
        requires
            old(self).wf(),
        ensures
            final(self).wf(),
            r is Err == old(self)@.subscribe_refusal(meta@) is Some,
            r matches Err(e) ==> e@ == old(self)@.subscribe_refusal(meta@)->0 && final(self)@
                == old(self)@,
            r matches Ok(id) ==> id == old(self)@.last_novel_id + 1 && final(self)@ == old(self)@.subscribed(meta@, source_name@, now),
    {
        if self.source_id_for_url(meta.source_url.as_str()).is_some() {
            return Err("already subscribed to this source URL".to_string());
        }
        if let Some(existing) = self.novel_id_for(meta.title.as_str(), &meta.author) {
            let mut m = text::to_chars("already following \"");
            text::push_str(&mut m, meta.title.as_str());
            text::push_str(&mut m, "\" (novel #");
            let n = text::decimal_int_chars(existing);
            text::push_all(&mut m, &n);
            text::push_str(&mut m, "); use `vesper add-source ");
            text::push_all(&mut m, &n);
            text::push_str(&mut m, " <url>` to attach another source");
            return Err(text::to_text(&m));
        }
        let last = self.last_source_id();
        proof {
            library::lemma_next_id(
                self@.sources,
                match last {
                    Some(id) => id + 1,
                    None => 1,
                },
            );
        }
        let full = match last {
            Some(id) => id == i64::MAX,
            None => false,
        };
        if self.last_novel_id == i64::MAX || full {
            return Err("the library has no room for more entries".to_string());
        }
        let source_id: i64 = match last {
            Some(id) => id + 1,
            None => 1,
        };
        let id: i64 = self.last_novel_id + 1;
        let ghost before = self@;
        self.novels.insert(
            (id, 0),
            NovelRow {
                title: meta.title.clone(),
                author: text::copy_opt(&meta.author),
                cover_url: text::copy_opt(&meta.cover_url),
                genre: text::copy_opt(&meta.genre),
                status_hint: meta.status_hint,
                derived_state: DerivedState::Backfilling,
                export_pending: false,
                created_at: now,
                updated_at: now,
            },
        );
        self.sources.insert(
            (source_id, 0),
            SourceRow {
                novel_id: id,
                name: source_name.to_string(),
                url: meta.source_url.clone(),
                priority: 1,
                last_seen_chapter: None,
                last_synced_at: None,
            },
        );
        self.last_novel_id = id;
        proof {
            let after = before.subscribed(meta@, source_name@, now);
            assert(self@.novels =~= after.novels);
            assert(self@.sources =~= after.sources);
            assert(self@ =~= after);
            assert(!before.sources.contains_key(source_id));
            assert forall|s: i64, t: i64| #[trigger]
                after.sources.contains_key(s) && #[trigger] after.sources.contains_key(t) && s
                    != t implies after.sources[s].url != after.sources[t].url by {
                if s == source_id {
                    assert(before.sources.contains_key(t));
                    assert(before.sources[t].url != meta@.source_url);
                } else if t == source_id {
                    assert(before.sources.contains_key(s));
                    assert(before.sources[s].url != meta@.source_url);
                }
            }
        }
        Ok(id)
    }

    /// [`Store::subscribe_at`] with the current time.
    pub fn subscribe(&mut self, meta: &NovelMeta, source_name: &str) -> (r: Result<i64, String>)
        requires
            old(self).wf(),
        ensures
            final(self).wf(),
            r is Err == old(self)@.subscribe_refusal(meta@) is Some,
            r matches Err(e) ==> e@ == old(self)@.subscribe_refusal(meta@)->0 && final(self)@
                == old(self)@,
            r matches Ok(id) ==> id == old(self)@.last_novel_id + 1 && exists|now: i64|
                final(self)@ == #[trigger] old(self)@.subscribed(meta@, source_name@, now),
    {
        let now: i64 = util::now_unix();
        self.subscribe_at(meta, source_name, now)
    }

    // -- sources ------------------------------------------------------------

    /// The highest priority number among a novel's sources.
    fn last_priority_of(&self, novel_id: i64) -> (r: i64)
        requires
            self.wf(),
        ensures
            self@.is_last_priority(novel_id, r as int),
    {
        proof {
            self.sources.lemma_entries();
        }
        let ghost e = self.sources.entries();
        let mut best: Option<i64> = None;
        let mut i: usize = 0;
        while i < self.sources.len()
            invariant
                i <= e.len(),
                self.wf(),
                e == self.sources.entries(),
                forall|j: int|
                    0 <= j < e.len() ==> self.sources@.contains_key((#[trigger] e[j]).0)
                        && self.sources@[e[j].0] == e[j].1,
                best is None ==> forall|j: int|
                    0 <= j < i ==> (#[trigger] e[j]).1.novel_id != novel_id,
                best matches Some(p) ==> (exists|j: int|
                    0 <= j < i && (#[trigger] e[j]).1.novel_id == novel_id && e[j].1.priority == p)
                    && forall|j: int|
                    0 <= j < i && (#[trigger] e[j]).1.novel_id == novel_id ==> e[j].1.priority <= p,
            decreases e.len() - i,
        {
            let row = self.sources.row_at(i);
            if row.novel_id == novel_id {
                let better = match best {
                    Some(p) => row.priority > p,
                    None => true,
                };
                if better {
                    best = Some(row.priority);
                    assert(e[i as int].1.novel_id == novel_id && e[i as int].1.priority
                        == row.priority);
                }
            }
            i += 1;
        }
        proof {
            assert forall|s: i64| #[trigger] self@.sources.contains_key(s) implies exists|j: int|
                0 <= j < e.len() && (#[trigger] e[j]).0 == (s, 0u32) && e[j].1@
                    == self@.sources[s] by {
                assert(self.sources@.contains_key((s, 0u32)));
                let j = choose|j: int| 0 <= j < e.len() && (#[trigger] e[j]).0 == (s, 0u32);
                assert(e[j].1@ == self@.sources[s]);
            }
            if let Some(p) = best {
                let j = choose|j: int|
                    0 <= j < e.len() && (#[trigger] e[j]).1.novel_id == novel_id && e[j].1.priority
                        == p;
                assert(self.sources@.contains_key(e[j].0));
                assert(e[j].0 == (e[j].0.0, 0u32));
                assert(self@.sources.contains_key(e[j].0.0));
                assert(self@.sources[e[j].0.0] == e[j].1@);
                assert(self@.sources[e[j].0.0].novel_id == novel_id);
            }
        }
        match best {
            Some(p) => p,
            None => 0,
        }
    }

    /// Attach another source to a novel, behind the ones it has.
    pub fn add_source(&mut self, novel_id: i64, source_name: &str, url: &str) -> (r: Result<
        i64,
        String,
    >)
        requires
            old(self).wf(),
        ensures
            final(self).wf(),
            r is Err == old(self)@.add_source_refusal(novel_id, url@) is Some,
            r matches Err(e) ==> e@ == old(self)@.add_source_refusal(novel_id, url@)->0 && final(self)@ == old(self)@,
            r matches Ok(id) ==> id == library::next_id(old(self)@.sources) && final(self)@ == old(self)@.with_source(novel_id, source_name@, url@),
            r matches Ok(id) ==> forall|s: i64| #[trigger]
                old(self)@.sources.contains_key(s) && old(self)@.sources[s].novel_id == novel_id
                    ==> final(self)@.sources[s] == old(self)@.sources[s]
                    && old(self)@.sources[s].priority < final(self)@.sources[id].priority,
    {
        if self.source_id_for_url(url).is_some() {
            return Err("that source URL is already in the library".to_string());
        }
        if !self.novels.contains((novel_id, 0)) {
            assert(!self@.novels.contains_key(novel_id));
            return Err("the library has no such novel or source".to_string());
        }
        assert(self@.novels.contains_key(novel_id));
        let top: i64 = self.last_priority_of(novel_id);
        let last = self.last_source_id();
        proof {
            library::lemma_next_id(
                self@.sources,
                match last {
                    Some(id) => id + 1,
                    None => 1,
                },
            );
            lemma_last_priority(self@, novel_id, top as int);
        }
        let full = match last {
            Some(id) => id == i64::MAX,
            None => false,
        };
        if top == i64::MAX || full {
            return Err("the library has no room for more entries".to_string());
        }
        let source_id: i64 = match last {
            Some(id) => id + 1,
            None => 1,
        };
        let ghost before = self@;
        self.sources.insert(
            (source_id, 0),
            SourceRow {
                novel_id,
                name: source_name.to_string(),
                url: url.to_string(),
                priority: top + 1,
                last_seen_chapter: None,
                last_synced_at: None,
            },
        );
        proof {
            let after = before.with_source(novel_id, source_name@, url@);
            assert(self@.sources =~= after.sources);
            assert(self@ =~= after);
            assert(!before.sources.contains_key(source_id));
            assert forall|s: i64, t: i64| #[trigger]
                after.sources.contains_key(s) && #[trigger] after.sources.contains_key(t) && s
                    != t implies after.sources[s].url != after.sources[t].url by {
                if s == source_id {
                    assert(before.sources.contains_key(t));
                    assert(before.sources[t].url != url@);
                } else if t == source_id {
                    assert(before.sources.contains_key(s));
                    assert(before.sources[s].url != url@);
                }
            }
        }
        Ok(source_id)
    }

    /// A novel's sources, the primary first.
    pub fn sources_for(&self, novel_id: i64) -> (r: Vec<StoredSource>)
        requires
            self.wf(),
        ensures
            lists_sources(self@, novel_id, source_views(r@)),
    {
        proof {
            self.sources.lemma_entries();
        }
        let ghost e = self.sources.entries();
        let mut out: Vec<StoredSource> = Vec::new();
        let mut i: usize = 0;
        while i < self.sources.len()
            invariant
                i <= e.len(),
                self.wf(),
                e == self.sources.entries(),
                forall|j: int|
                    0 <= j < e.len() ==> self.sources@.contains_key((#[trigger] e[j]).0)
                        && self.sources@[e[j].0] == e[j].1,
                ranked(source_views(out@)),
                forall|x: int|
                    0 <= x < out@.len() ==> self@.sources.contains_key(
                        (#[trigger] source_views(out@)[x]).id,
                    ) && self@.sources[source_views(out@)[x].id].novel_id == novel_id
                        && source_views(out@)[x] == source_view(self@, source_views(out@)[x].id),
                forall|j: int|
                    0 <= j < i && (#[trigger] e[j]).1.novel_id == novel_id ==> has_id(
                        source_views(out@),
                        e[j].0.0,
                    ),
                forall|x: int|
                    0 <= x < out@.len() ==> exists|j: int|
                        0 <= j < i && (#[trigger] e[j]).0.0 == (#[trigger] source_views(out@)[x]).id,
            decreases e.len() - i,
        {
            let k = self.sources.key_at(i);
            let row = self.sources.row_at(i);
            proof {
                assert(e[i as int].0 == k && e[i as int].1 == *row);
                assert(self@.sources.contains_key(k.0));
                assert(self@.sources[k.0] == row@);
            }
            if row.novel_id == novel_id {
                let s = StoredSource {
                    id: k.0,
                    name: row.name.clone(),
                    url: row.url.clone(),
                    priority: row.priority,
                    last_seen_chapter: row.last_seen_chapter,
                };
                let ghost before = source_views(out@);
                assert(s@ == source_view(self@, k.0));
                assert(!has_id(before, k.0)) by {
                    if has_id(before, k.0) {
                        let x = choose|x: int| 0 <= x < before.len() && (#[trigger] before[x]).id == k.0;
                        let j = choose|j: int| 0 <= j < i && (#[trigger] e[j]).0.0 == before[x].id;
                        assert(crate::table::below(e[j].0, e[i as int].0));
                        assert(self.sources@.contains_key(e[j].0));
                    }
                }
                insert_ranked(&mut out, s);
                proof {
                    let after = source_views(out@);
                    assert forall|x: int| 0 <= x < out@.len() implies self@.sources.contains_key(
                        (#[trigger] after[x]).id,
                    ) && self@.sources[after[x].id].novel_id == novel_id && after[x] == source_view(
                        self@,
                        after[x].id,
                    ) by {
                        assert(after.contains(after[x]));
                        if after[x] != s@ {
                            assert(before.contains(after[x]));
                        }
                    }
                    assert forall|j: int|
                        0 <= j < i + 1 && (#[trigger] e[j]).1.novel_id == novel_id implies has_id(
                        after,
                        e[j].0.0,
                    ) by {
                        if j < i {
                            let x = choose|x: int|
                                0 <= x < before.len() && (#[trigger] before[x]).id == e[j].0.0;
                            assert(before.contains(before[x]));
                            assert(after.contains(before[x]));
                            let y = choose|y: int| 0 <= y < after.len() && after[y] == before[x];
                            assert(after[y].id == e[j].0.0);
                        } else {
                            assert(after.contains(s@));
                            let y = choose|y: int| 0 <= y < after.len() && after[y] == s@;
                            assert(after[y].id == e[j].0.0);
                        }
                    }
                    assert forall|x: int| 0 <= x < out@.len() implies exists|j: int|
                        0 <= j < i + 1 && (#[trigger] e[j]).0.0 == (#[trigger] after[x]).id by {
                        assert(after.contains(after[x]));
                        if after[x] == s@ {
                            assert(e[i as int].0.0 == after[x].id);
                        } else {
                            assert(before.contains(after[x]));
                            let y = choose|y: int| 0 <= y < before.len() && before[y] == after[x];
                            let j = choose|j: int| 0 <= j < i && (#[trigger] e[j]).0.0 == before[y].id;
                            assert(e[j].0.0 == after[x].id);
                        }
                    }
                }
            }
            i += 1;
        }
        assert forall|s: i64| #[trigger] self@.sources.contains_key(s)
            && self@.sources[s].novel_id == novel_id implies has_id(source_views(out@), s) by {
            assert(self.sources@.contains_key((s, 0u32)));
            let j = choose|j: int| 0 <= j < e.len() && (#[trigger] e[j]).0 == (s, 0u32);
            assert(e[j].1.novel_id == novel_id);
        }
        out
    }

    // -- whole novels -------------------------------------------------------

    /// A novel with its sources, by id.
    pub fn load_novel_by_id(&self, id: i64) -> (r: Option<StoredNovel>)
        requires
            self.wf(),
        ensures
            r is Some == self@.novels.contains_key(id),
            r matches Some(n) ==> n.id == id && shows(self@, n@),
    {
        let row = match self.novels.get((id, 0)) {
            Some(row) => row,
            None => return None,
        };
        let sources = self.sources_for(id);
        let stored = self.chapters.numbers_of(id);
        proof {
            assert(Set::new(|n: u32| self.chapters@.contains_key((id, n))) =~= self@.stored(id));
            numbers::lemma_list_len(stored@, self@.stored(id));
        }
        let n = StoredNovel {
            id,
            title: row.title.clone(),
            author: text::copy_opt(&row.author),
            cover_url: text::copy_opt(&row.cover_url),
            genre: text::copy_opt(&row.genre),
            status_hint: row.status_hint,
            derived_state: row.derived_state,
            export_pending: row.export_pending,
            sources,
            chapter_count: stored.len() as i64,
        };
        assert(self@.novels[id] == row@);
        Some(n)
    }

    /// Every novel, by id.
    pub fn list_subscriptions(&self) -> (r: Vec<StoredNovel>)
        requires
            self.wf(),
        ensures
            forall|i: int| 0 <= i < r@.len() ==> shows(self@, (#[trigger] r@[i])@),
            forall|i: int, j: int| 0 <= i < j < r@.len() ==> (#[trigger] r@[i]).id < (#[trigger] r@[j]).id,
            forall|id: i64| #[trigger]
                self@.novels.contains_key(id) ==> exists|i: int|
                    0 <= i < r@.len() && (#[trigger] r@[i]).id == id,
    {
        proof {
            self.novels.lemma_entries();
        }
        let ghost e = self.novels.entries();
        let mut out: Vec<StoredNovel> = Vec::new();
        let mut i: usize = 0;
        while i < self.novels.len()
            invariant
                i <= e.len(),
                self.wf(),
                e == self.novels.entries(),
                out@.len() == i,
                forall|j: int|
                    0 <= j < e.len() ==> self.novels@.contains_key((#[trigger] e[j]).0),
                forall|j: int|
                    0 <= j < i ==> shows(self@, (#[trigger] out@[j])@) && out@[j].id == e[j].0.0,
            decreases e.len() - i,
        {
            let k = self.novels.key_at(i);
            assert(e[i as int].0 == k);
            assert(self@.novels.contains_key(k.0));
            if let Some(n) = self.load_novel_by_id(k.0) {
                out.push(n);
            }
            i += 1;
        }
        proof {
            assert forall|a: int, b: int| 0 <= a < b < out@.len() implies (#[trigger] out@[a]).id < (
            #[trigger] out@[b]).id by {
                assert(crate::table::below(e[a].0, e[b].0));
                assert(self.novels@.contains_key(e[a].0) && self.novels@.contains_key(e[b].0));
            }
            assert forall|id: i64| #[trigger] self@.novels.contains_key(id) implies exists|i: int|
                0 <= i < out@.len() && (#[trigger] out@[i]).id == id by {
                assert(self.novels@.contains_key((id, 0u32)));
                let j = choose|j: int| 0 <= j < e.len() && (#[trigger] e[j]).0 == (id, 0u32);
                assert(out@[j].id == id);
            }
        }
        out
    }

    /// The novel a selector names: by its id or, where no novel has that id, by its title in
    /// any ASCII case.
    pub fn find_novel(&self, selector: &str) -> (r: Option<StoredNovel>)
        requires
            self.wf(),
        ensures
            r is Some == selected(self@, selector@) is Some,
            r matches Some(n) ==> n.id == selected(self@, selector@)->0 && shows(self@, n@),
    {
        let v = text::to_chars(selector);
        if let Some(id) = text::parse_i64(&v) {
            if let Some(novel) = self.load_novel_by_id(id) {
                return Some(novel);
            }
        }
        match self.novel_id_titled(&v) {
            Some(id) => self.load_novel_by_id(id),
            None => None,
        }
    }

    /// The novel with this title, punctuation and case aside.
    pub fn find_novel_by_normalized_title(&self, title: &str) -> (r: Option<StoredNovel>)
        requires
            self.wf(),
        ensures
            r is Some == with_normalized_title(self@, title@) is Some,
            r matches Some(n) ==> n.id == with_normalized_title(self@, title@)->0 && shows(
                self@,
                n@,
            ),
    {
        let target = util::normalize_title(title);
        if target.as_str().is_empty() {
            return None;
        }
        match self.novel_id_normalized(target.as_str()) {
            Some(id) => self.load_novel_by_id(id),
            None => None,
        }
    }

    fn novel_id_for_source_url(&self, url: &str) -> (r: Option<i64>)
        requires
            self.wf(),
        ensures
            r == url_owner(self@, url@),
            r matches Some(id) ==> self@.novels.contains_key(id),
    {
        match self.source_id_for_url(url) {
            Some(s) => {
                assert(self.sources@.contains_key((s, 0u32)));
                let row = self.sources.get((s, 0));
                match row {
                    Some(row) => {
                        proof {
                            let c = choose|t: i64|
                                self@.sources.contains_key(t) && (#[trigger] self@.sources[t]).url
                                    == url@;
                            assert(self@.sources.contains_key(c));
                            assert(c == s);
                        }
                        Some(row.novel_id)
                    },
                    None => None,
                }
            },
            None => None,
        }
    }

    /// The novel a URL is a source of, with or without a final slash.
    pub fn find_novel_by_source_url(&self, url: &str) -> (r: Option<StoredNovel>)
        requires
            self.wf(),
        ensures
            r is Some == lenient_url_owner(self@, url@) is Some,
            r matches Some(n) ==> n.id == lenient_url_owner(self@, url@)->0 && shows(self@, n@),
    {
        let v = text::to_chars(url);
        let bare = text::to_text(text::trim_end_char(&v, '/'));
        let slashed = text::concat(bare.as_str(), "/");
        if let Some(id) = self.novel_id_for_source_url(url) {
            return self.load_novel_by_id(id);
        }
        if let Some(id) = self.novel_id_for_source_url(bare.as_str()) {
            return self.load_novel_by_id(id);
        }
        match self.novel_id_for_source_url(slashed.as_str()) {
            Some(id) => self.load_novel_by_id(id),
            None => None,
        }
    }

    // -- settings -----------------------------------------------------------

    fn setting_at(&self, key: &str) -> (r: Option<usize>)
        requires
            self.wf(),
        ensures
            r is Some == self@.meta.contains_key(key@),
            r matches Some(i) ==> i < self.meta@.len() && self.meta@[i as int].0@ == key@
                && self@.meta[key@] == self.meta@[i as int].1@,
    {
        let mut i: usize = 0;
        while i < self.meta.len()
            invariant
                i <= self.meta@.len(),
                self.wf(),
                forall|j: int| 0 <= j < i ==> (#[trigger] self.meta@[j]).0@ != key@,
            decreases self.meta@.len() - i,
        {
            if text::same(self.meta[i].0.as_str(), key) {
                assert(self.meta@[i as int].0@ == key@);
                assert(has_setting(self.meta@, key@));
                assert(setting_index(self.meta@, key@) == i);
                return Some(i);
            }
            i += 1;
        }
        None
    }

    pub fn meta_get(&self, key: &str) -> (r: Option<String>)
        requires
            self.wf(),
        ensures
            text::opt(r) == (if self@.meta.contains_key(key@) {
                Some(self@.meta[key@])
            } else {
                None
            }),
    {
        match self.setting_at(key) {
            Some(i) => Some(self.meta[i].1.clone()),
            None => None,
        }
    }

    pub fn meta_set(&mut self, key: &str, value: &str)
        requires
            old(self).wf(),
        ensures
            final(self).wf(),
            final(self)@ == (Library {
                meta: old(self)@.meta.insert(key@, value@),
                ..old(self)@
            }),
    {
        let ghost before = *self;
        match self.setting_at(key) {
            Some(i) => {
                self.meta.set(i, (key.to_string(), value.to_string()));
                proof {
                    let s = before.meta@;
                    let t = self.meta@;
                    assert(forall|j: int| 0 <= j < t.len() ==> (#[trigger] t[j]).0@ == s[j].0@);
                    assert(settings_distinct(t));
                    lemma_setting_put(s, t, i as int, key@, value@);
                }
            },
            None => {
                self.meta.push((key.to_string(), value.to_string()));
                proof {
                    let s = before.meta@;
                    let t = self.meta@;
                    assert(!has_setting(s, key@));
                    assert forall|a: int, b: int|
                        0 <= a < t.len() && 0 <= b < t.len() && a != b implies (
                    #[trigger] t[a]).0@ != (#[trigger] t[b]).0@ by {
                        if a < s.len() {
                            assert(t[a] == s[a]);
                        }
                        if b < s.len() {
                            assert(t[b] == s[b]);
                        }
                    }
                    lemma_setting_put(s, t, s.len() as int, key@, value@);
                }
            },
        }
        proof {
            assert(self@ =~= (Library { meta: before@.meta.insert(key@, value@), ..before@ }));
        }
    }

    // -- repointing and promoting sources -----------------------------------

    /// Point a source at another site.
    pub fn repoint_source(&mut self, source_id: i64, source_name: &str, url: &str) -> (r: Result<
        (),
        String,
    >)
        requires
            old(self).wf(),
        ensures
            final(self).wf(),
            r is Err == repoint_refusal(old(self)@, source_id, url@) is Some,
            r matches Err(e) ==> e@ == repoint_refusal(old(self)@, source_id, url@)->0 && final(
                self)@ == old(self)@,
            r is Ok ==> final(self)@ == old(self)@.set_source(
                source_id,
                SourceRec { name: source_name@, url: url@, ..old(self)@.sources[source_id] },
            ),
    {
        if let Some(existing) = self.source_id_for_url(url) {
            if existing != source_id {
                proof {
                    assert(self@.sources[existing].url == url@);
                    assert(existing != source_id);
                }
                return Err(text::concat(url, " is already attached to another subscription"));
            }
            assert forall|t: i64| #[trigger] self@.sources.contains_key(t) && t
                != source_id implies self@.sources[t].url != url@ by {
                assert(self@.sources.contains_key(existing));
            }
        }
        assert(!attached_elsewhere(self@, source_id, url@));
        let ghost before = *self;
        match self.sources.take((source_id, 0)) {
            None => {
                proof {
                    assert(self.sources@ =~= before.sources@);
                    assert(self@ =~= before@);
                }
                let mut m = text::to_chars("no source #");
                let n = text::decimal_int_chars(source_id);
                text::push_all(&mut m, &n);
                text::push_str(&mut m, " to repoint");
                Err(text::to_text(&m))
            },
            Some(mut row) => {
                row.name = source_name.to_string();
                row.url = url.to_string();
                self.sources.insert((source_id, 0), row);
                proof {
                    assert(before@.sources.contains_key(source_id));
                    let after = before@.set_source(
                        source_id,
                        SourceRec { name: source_name@, url: url@, ..before@.sources[source_id] },
                    );
                    assert(self@.sources =~= after.sources);
                    assert(self@ =~= after);
                    assert forall|s: i64, t: i64| #[trigger]
                        after.sources.contains_key(s) && #[trigger] after.sources.contains_key(t)
                            && s != t implies after.sources[s].url != after.sources[t].url by {
                        assert(before@.sources.contains_key(s) && before@.sources.contains_key(t));
                    }
                }
                Ok(())
            },
        }
    }

    /// Make a source the novel's primary one: the others keep their order behind
    /// it, and the chapters of the old primary count as its own, so that they
    /// are not fetched again. `false` if it is the primary already.
    pub fn promote_source(&mut self, novel_id: i64, source_id: i64) -> (r: Result<bool, String>)
        requires
            old(self).wf(),
        ensures
            final(self).wf(),
            r is Err ==> final(self)@ == old(self)@,
            (r matches Err(e) && e@ == not_its_source(novel_id, source_id)) <==> !(old(
                self)@.sources.contains_key(source_id) && old(self)@.sources[source_id].novel_id
                == novel_id),
            match promotion(old(self)@, novel_id, source_id) {
                Some(lib) => (r matches Ok(changed) && changed == (source_order(
                    old(self)@,
                    novel_id,
                )[0].id != source_id)) && final(self)@ == lib,
                None => r is Err,
            },
    {
        let sources = self.sources_for(novel_id);
        let ghost order = source_views(sources@);
        let ghost before = self@;
        proof {
            lemma_source_order(before, novel_id, order);
        }
        let mut at: usize = 0;
        while at < sources.len() && sources[at].id != source_id
            invariant
                at <= sources.len(),
                order == source_views(sources@),
                forall|j: int| 0 <= j < at ==> (#[trigger] order[j]).id != source_id,
            decreases sources.len() - at,
        {
            assert(order[at as int].id == sources@[at as int].id);
            at += 1;
        }
        if at == sources.len() {
            assert(!has_id(order, source_id));
            let mut m = text::to_chars("source #");
            let s = text::decimal_int_chars(source_id);
            text::push_all(&mut m, &s);
            text::push_str(&mut m, " does not belong to novel #");
            let n = text::decimal_int_chars(novel_id);
            text::push_all(&mut m, &n);
            return Err(text::to_text(&m));
        }
        proof {
            assert(order[at as int].id == source_id);
            assert(has_id(order, source_id));
            reveal_strlit("source #");
            reveal_strlit("the library has no room for more entries");
            assert(not_its_source(novel_id, source_id)[0] == 's');
            assert(library::no_room()[0] == 't');
        }
        if at == 0 {
            assert(order[0].id == source_id);
            return Ok(false);
        }
        proof {
            lemma_order_distinct(before, novel_id, order);
            assert(order[0].id != source_id);
        }
        if sources.len() as u64 >= i64::MAX as u64 {
            return Err("the library has no room for more entries".to_string());
        }
        let old_primary: i64 = sources[0].id;
        self.renumber(&sources, at, novel_id);
        self.reattribute(novel_id, old_primary, source_id);
        proof {
            assert(self@ =~= promoted(before, novel_id, order, source_id));
        }
        Ok(true)
    }

    /// Give the sources of a novel their new priorities, the one at `at` first.
    fn renumber(&mut self, sources: &Vec<StoredSource>, at: usize, novel_id: i64)
        requires
            old(self).wf(),
            lists_sources(old(self)@, novel_id, source_views(sources@)),
            at < sources@.len() < i64::MAX,
        ensures
            final(self).wf(),
            final(self)@ == (Library {
                sources: renumbered(old(self)@, source_views(sources@), sources@[at as int].id),
                ..old(self)@
            }),
    {
        let ghost before = self@;
        let ghost order = source_views(sources@);
        let ghost chosen = sources@[at as int].id;
        proof {
            lemma_order_distinct(before, novel_id, order);
            assert(order[at as int].id == chosen);
            assert(source_position(order, chosen) == at);
        }
        let mut i: usize = 0;
        while i < sources.len()
            invariant
                i <= sources@.len() < i64::MAX,
                at < sources@.len(),
                order == source_views(sources@),
                chosen == sources@[at as int].id,
                source_position(order, chosen) == at,
                self.wf(),
                lists_sources(before, novel_id, order),
                ids_distinct(order),
                self@.novels == before.novels,
                self@.chapters == before.chapters,
                self@.gaps == before.gaps,
                self@.meta == before.meta,
                self@.last_novel_id == before.last_novel_id,
                forall|s: i64| #[trigger]
                    self@.sources.contains_key(s) == before.sources.contains_key(s),
                forall|s: i64| #[trigger]
                    self@.sources.contains_key(s) ==> self@.sources[s] == (if has_id(
                        order.take(i as int),
                        s,
                    ) {
                        SourceRec {
                            priority: promoted_priority(order, chosen, s) as i64,
                            ..before.sources[s]
                        }
                    } else {
                        before.sources[s]
                    }),
            decreases sources@.len() - i,
        {
            let id: i64 = sources[i].id;
            let priority: i64 = if i == at {
                1
            } else if i < at {
                i as i64 + 2
            } else {
                i as i64 + 1
            };
            let ghost prev = *self;
            proof {
                assert(order[i as int].id == id);
                assert(source_position(order, id) == i);
                assert(promoted_priority(order, chosen, id) == priority);
                assert(before.sources.contains_key(id));
                assert(self@.sources.contains_key(id));
                assert(self.sources@.contains_key((id, 0u32)));
                assert(!has_id(order.take(i as int), id)) by {
                    if has_id(order.take(i as int), id) {
                        let x = choose|x: int|
                            0 <= x < i && (#[trigger] order.take(i as int)[x]).id == id;
                        assert(order[x].id == order[i as int].id);
                    }
                }
            }
            if let Some(mut row) = self.sources.take((id, 0)) {
                row.priority = priority;
                self.sources.insert((id, 0), row);
                proof {
                    assert(self@.sources =~= prev@.sources.insert(
                        id,
                        SourceRec { priority, ..prev@.sources[id] },
                    ));
                    assert(self@ =~= (Library { sources: self@.sources, ..prev@ }));
                    let a = order.take(i as int);
                    let b = order.take(i + 1);
                    assert(b[i as int].id == id);
                    assert forall|s: i64| s != id implies has_id(a, s) == has_id(b, s) by {
                        if has_id(a, s) {
                            let x = choose|x: int| 0 <= x < a.len() && (#[trigger] a[x]).id == s;
                            assert(b[x].id == s);
                        }
                        if has_id(b, s) {
                            let x = choose|x: int| 0 <= x < b.len() && (#[trigger] b[x]).id == s;
                            assert(x < i);
                            assert(a[x].id == s);
                        }
                    }
                    assert(has_id(b, id));
                    assert forall|s: i64, t: i64| #[trigger]
                        self@.sources.contains_key(s) && #[trigger] self@.sources.contains_key(t)
                            && s != t implies self@.sources[s].url != self@.sources[t].url by {
                        assert(prev@.sources.contains_key(s) && prev@.sources.contains_key(t));
                    }
                    assert(self@.valid());
                }
            }
            i += 1;
        }
        proof {
            assert(order.take(order.len() as int) =~= order);
            assert(self@.sources =~= renumbered(before, order, chosen));
        }
    }

    /// Count a source's chapters of a novel as another's.
    fn reattribute(&mut self, novel_id: i64, from: i64, to: i64)
        requires
            old(self).wf(),
            old(self)@.sources.contains_key(to),
        ensures
            final(self).wf(),
            final(self)@ == (Library {
                chapters: reattributed(old(self)@.chapters, novel_id, from, to),
                ..old(self)@
            }),
    {
        let ghost before = self@;
        let stored = self.chapters.numbers_of(novel_id);
        proof {
            assert(Set::new(|n: u32| self.chapters@.contains_key((novel_id, n))) =~= before.stored(
                novel_id,
            ));
        }
        let mut i: usize = 0;
        while i < stored.len()
            invariant
                i <= stored@.len(),
                numbers::lists(stored@, before.stored(novel_id)),
                self.wf(),
                before.sources.contains_key(to),
                self@.novels == before.novels,
                self@.sources == before.sources,
                self@.gaps == before.gaps,
                self@.meta == before.meta,
                self@.last_novel_id == before.last_novel_id,
                forall|k: Key| #[trigger]
                    self@.chapters.contains_key(k) == before.chapters.contains_key(k),
                forall|k: Key| #[trigger]
                    self@.chapters.contains_key(k) ==> self@.chapters[k] == (if k.0 == novel_id
                        && stored@.take(i as int).contains(k.1) {
                        reattributed(before.chapters, novel_id, from, to)[k]
                    } else {
                        before.chapters[k]
                    }),
            decreases stored@.len() - i,
        {
            let k: Key = (novel_id, stored[i]);
            let ghost prev = *self;
            proof {
                assert(stored@.contains(stored@[i as int]));
                assert(before.chapters.contains_key(k));
                assert(self@.chapters.contains_key(k));
                assert(!stored@.take(i as int).contains(k.1)) by {
                    if stored@.take(i as int).contains(k.1) {
                        let x = choose|x: int| 0 <= x < i && stored@.take(i as int)[x] == k.1;
                        assert(stored@[x] < stored@[i as int]);
                    }
                }
            }
            if let Some(mut row) = self.chapters.take(k) {
                let hit = match row.source_id {
                    Some(s) => s == from,
                    None => false,
                };
                if hit {
                    row.source_id = Some(to);
                }
                let ghost rec = row@;
                self.chapters.insert(k, row);
                proof {
                    assert(self@.chapters =~= prev@.chapters.insert(k, rec));
                    assert(self@ =~= (Library { chapters: self@.chapters, ..prev@ }));
                    assert(rec == reattributed(before.chapters, novel_id, from, to)[k]);
                    let a = stored@.take(i as int);
                    let b = stored@.take(i + 1);
                    assert(b[i as int] == k.1);
                    assert forall|n: u32| n != k.1 implies a.contains(n) == b.contains(n) by {
                        if a.contains(n) {
                            let x = choose|x: int| 0 <= x < a.len() && a[x] == n;
                            assert(b[x] == n);
                        }
                        if b.contains(n) {
                            let x = choose|x: int| 0 <= x < b.len() && b[x] == n;
                            assert(a[x] == n);
                        }
                    }
                    assert(b.contains(k.1));
                    assert(self@.valid());
                }
            }
            i += 1;
        }
        proof {
            assert(stored@.take(stored@.len() as int) =~= stored@);
            assert forall|k: Key| self@.chapters.contains_key(k) implies self@.chapters[k]
                == reattributed(before.chapters, novel_id, from, to)[k] by {
                if k.0 == novel_id {
                    assert(k == (novel_id, k.1));
                    assert(before.stored(novel_id).contains(k.1));
                }
            }
            assert(self@.chapters =~= reattributed(before.chapters, novel_id, from, to));
        }
    }

    // -- chapters -----------------------------------------------------------

    /// The numbers of the stored chapters.
    pub fn stored_chapter_numbers(&self, novel_id: i64) -> (r: BTreeSet<u32>)
        requires
            self.wf(),
        ensures
            r@ == self@.stored(novel_id),
    {
        let v = self.chapters.numbers_of(novel_id);
        let r = numbers::to_set(&v);
        assert(r@ =~= self@.stored(novel_id)) by {
            assert forall|n: u32| r@.contains(n) == self@.stored(novel_id).contains(n) by {
                assert(v@.contains(n) <==> Set::new(
                    |n: u32| self.chapters@.contains_key((novel_id, n)),
                ).contains(n));
            }
        }
        r
    }

    /// The numbers of the stored chapters, in ascending order.
    pub fn stored_list(&self, novel_id: i64) -> (r: Vec<u32>)
        requires
            self.wf(),
        ensures
            numbers::lists(r@, self@.stored(novel_id)),
    {
        let r = self.chapters.numbers_of(novel_id);
        assert(Set::new(|n: u32| self.chapters@.contains_key((novel_id, n))) =~= self@.stored(
            novel_id,
        ));
        r
    }

    /// The numbers recorded as gaps, in ascending order.
    pub fn gap_list(&self, novel_id: i64) -> (r: Vec<u32>)
        requires
            self.wf(),
        ensures
            numbers::lists(r@, self@.gap_numbers(novel_id)),
    {
        let r = self.gaps.numbers_of(novel_id);
        assert(Set::new(|n: u32| self.gaps@.contains_key((novel_id, n))) =~= self@.gap_numbers(
            novel_id,
        ));
        r
    }

    /// The numbers recorded as gaps, filled or not.
    pub fn gaps(&self, novel_id: i64) -> (r: BTreeSet<u32>)
        requires
            self.wf(),
        ensures
            r@ == self@.gap_numbers(novel_id),
    {
        let v = self.gap_list(novel_id);
        let r = numbers::to_set(&v);
        assert(r@ =~= self@.gap_numbers(novel_id)) by {
            assert forall|n: u32| r@.contains(n) == self@.gap_numbers(novel_id).contains(n) by {
                assert(v@.contains(n) <==> self@.gap_numbers(novel_id).contains(n));
            }
        }
        r
    }

    /// The numbers recorded as gaps that no source has filled.
    pub fn unfilled_gaps(&self, novel_id: i64) -> (r: BTreeSet<u32>)
        requires
            self.wf(),
        ensures
            r@ == self@.gap_numbers(novel_id).difference(self@.stored(novel_id)),
    {
        let v = self.gap_list(novel_id);
        let mut r = numbers::no_numbers();
        let mut i: usize = 0;
        while i < v.len()
            invariant
                i <= v@.len(),
                self.wf(),
                forall|n: u32| #[trigger]
                    r@.contains(n) <==> (v@.take(i as int).contains(n) && !self@.stored(
                        novel_id,
                    ).contains(n)),
            decreases v@.len() - i,
        {
            let n: u32 = v[i];
            let ghost before = r@;
            if !self.chapters.contains((novel_id, n)) {
                assert(!self@.stored(novel_id).contains(n));
                numbers::insert_number(&mut r, n);
            } else {
                assert(self@.stored(novel_id).contains(n));
            }
            proof {
                let a = v@.take(i as int);
                let b = v@.take(i + 1);
                assert(b =~= a.push(n));
                assert forall|m: u32| b.contains(m) <==> (a.contains(m) || m == n) by {
                    if a.contains(m) {
                        let x = choose|x: int| 0 <= x < a.len() && a[x] == m;
                        assert(b[x] == m);
                    }
                    if b.contains(m) && m != n {
                        let x = choose|x: int| 0 <= x < b.len() && b[x] == m;
                        assert(a[x] == m);
                    }
                    assert(b[i as int] == n);
                }
            }
            i += 1;
        }
        proof {
            assert(v@.take(v@.len() as int) =~= v@);
            assert(r@ =~= self@.gap_numbers(novel_id).difference(self@.stored(novel_id))) by {
                assert forall|n: u32| r@.contains(n) == self@.gap_numbers(novel_id).difference(
                    self@.stored(novel_id),
                ).contains(n) by {
                    assert(v@.contains(n) <==> self@.gap_numbers(novel_id).contains(n));
                }
            }
        }
        r
    }

    /// Record that a novel's primary source lacks a chapter.
    pub fn record_gap_at(&mut self, novel_id: i64, number: u32, now: i64) -> (r: Result<(), String>)
        requires
            old(self).wf(),
        ensures
            final(self).wf(),
            r is Ok == old(self)@.novels.contains_key(novel_id),
            r matches Err(e) ==> e@ == library::broken_reference() && final(self)@ == old(self)@,
            r is Ok ==> final(self)@ == old(self)@.with_gap((novel_id, number), now),
    {
        if !self.novels.contains((novel_id, 0)) {
            assert(!self@.novels.contains_key(novel_id));
            return Err("the library has no such novel or source".to_string());
        }
        assert(self@.novels.contains_key(novel_id));
        let ghost before = self@;
        if !self.gaps.contains((novel_id, number)) {
            self.gaps.insert((novel_id, number), now);
        }
        assert(self@ =~= before.with_gap((novel_id, number), now));
        Ok(())
    }

    /// [`Store::record_gap_at`] with the current time.
    pub fn record_gap(&mut self, novel_id: i64, number: u32) -> (r: Result<(), String>)
        requires
            old(self).wf(),
        ensures
            final(self).wf(),
            r is Ok == old(self)@.novels.contains_key(novel_id),
            r matches Err(e) ==> e@ == library::broken_reference() && final(self)@ == old(self)@,
            r is Ok ==> exists|now: i64|
                final(self)@ == #[trigger] old(self)@.with_gap((novel_id, number), now),
    {
        let now: i64 = util::now_unix();
        self.record_gap_at(novel_id, number, now)
    }

    /// Forget a recorded gap.
    pub fn clear_gap(&mut self, novel_id: i64, number: u32)
        requires
            old(self).wf(),
        ensures
            final(self).wf(),
            final(self)@ == old(self)@.without_gap((novel_id, number)),
    {
        let ghost before = self@;
        self.gaps.take((novel_id, number));
        assert(self@ =~= before.without_gap((novel_id, number)));
    }

    /// Store a chapter, unless its number is taken; `true` if it was stored.
    pub fn insert_chapter_at(
        &mut self,
        novel_id: i64,
        source_id: i64,
        chapter: &Chapter,
        now: i64,
    ) -> (r: Result<bool, String>)
        requires
            old(self).wf(),
        ensures
            final(self).wf(),
            r is Ok == (old(self)@.stored(novel_id).contains(chapter.number) || (
            old(self)@.novels.contains_key(novel_id) && old(self)@.sources.contains_key(
                source_id,
            ))),
            r matches Err(e) ==> e@ == library::broken_reference() && final(self)@ == old(self)@,
            r matches Ok(stored) ==> stored == !old(self)@.stored(novel_id).contains(chapter.number)
                && final(self)@ == old(self)@.with_chapter(novel_id, source_id, chapter@, now),
    {
        if self.chapters.contains((novel_id, chapter.number)) {
            return Ok(false);
        }
        let known_novel = self.novels.contains((novel_id, 0));
        let known_source = self.sources.contains((source_id, 0));
        assert(known_novel == self@.novels.contains_key(novel_id));
        assert(known_source == self@.sources.contains_key(source_id));
        if !known_novel || !known_source {
            return Err("the library has no such novel or source".to_string());
        }
        let ghost before = self@;
        let row = ChapterRow {
            title: chapter.title.clone(),
            body: text::join_texts(&chapter.paragraphs, "\n\n"),
            source_id: Some(source_id),
            fetched_at: now,
            exported: false,
            exported_at: None,
        };
        assert(row@ == before.new_chapter(source_id, chapter@, now));
        self.chapters.insert((novel_id, chapter.number), row);
        proof {
            let after = before.with_chapter(novel_id, source_id, chapter@, now);
            assert(self@.chapters =~= after.chapters);
            assert(self@ =~= after);
        }
        Ok(true)
    }

    /// [`Store::insert_chapter_at`] with the current time.
    pub fn insert_chapter_if_absent(&mut self, novel_id: i64, source_id: i64, chapter: &Chapter) -> (r:
        Result<bool, String>)
        requires
            old(self).wf(),
        ensures
            final(self).wf(),
            r is Ok == (old(self)@.stored(novel_id).contains(chapter.number) || (
            old(self)@.novels.contains_key(novel_id) && old(self)@.sources.contains_key(
                source_id,
            ))),
            r matches Err(e) ==> e@ == library::broken_reference() && final(self)@ == old(self)@,
            r matches Ok(stored) ==> stored == !old(self)@.stored(novel_id).contains(chapter.number)
                && exists|now: i64|
                final(self)@ == #[trigger] old(self)@.with_chapter(
                    novel_id,
                    source_id,
                    chapter@,
                    now,
                ),
    {
        let now: i64 = util::now_unix();
        self.insert_chapter_at(novel_id, source_id, chapter, now)
    }

    /// A stored chapter with its text.
    pub fn load_chapter(&self, novel_id: i64, number: u32) -> (r: Option<Chapter>)
        requires
            self.wf(),
        ensures
            r is Some == self@.stored(novel_id).contains(number),
            r matches Some(c) ==> c@ == self@.chapter(novel_id, number),
    {
        match self.chapters.get((novel_id, number)) {
            None => None,
            Some(row) => {
                let body = text::to_chars(row.body.as_str());
                proof {
                    reveal_strlit("\n\n");
                    assert(self@.chapters[(novel_id, number)] == row@);
                }
                let c = Chapter {
                    number,
                    title: row.title.clone(),
                    paragraphs: text::split_str(&body, "\n\n"),
                };
                assert(c@ == self@.chapter(novel_id, number));
                Some(c)
            },
        }
    }

    /// Every stored chapter of a novel, by number.
    pub fn load_chapters(&self, novel_id: i64) -> (r: Vec<Chapter>)
        requires
            self.wf(),
        ensures
            numbers::lists(chapter_numbers(r@), self@.stored(novel_id)),
            forall|i: int|
                0 <= i < r@.len() ==> (#[trigger] r@[i])@ == self@.chapter(novel_id, r@[i].number),
    {
        let v = self.stored_list(novel_id);
        let mut out: Vec<Chapter> = Vec::new();
        let mut i: usize = 0;
        while i < v.len()
            invariant
                i <= v@.len(),
                self.wf(),
                numbers::lists(v@, self@.stored(novel_id)),
                chapter_numbers(out@) == v@.take(i as int),
                forall|j: int|
                    0 <= j < out@.len() ==> (#[trigger] out@[j])@ == self@.chapter(
                        novel_id,
                        out@[j].number,
                    ),
            decreases v@.len() - i,
        {
            assert(v@.contains(v@[i as int]));
            let ghost before = out@;
            if let Some(c) = self.load_chapter(novel_id, v[i]) {
                assert(c@.number == v@[i as int]);
                out.push(c);
                assert(chapter_numbers(out@) =~= chapter_numbers(before).push(v@[i as int]));
            }
            i += 1;
        }
        assert(v@.take(v@.len() as int) =~= v@);
        out
    }

    /// The stored chapters whose text is shorter than `max_chars` characters, by
    /// number.
    pub fn chapters_shorter_than(&self, novel_id: i64, max_chars: usize) -> (r: Vec<Chapter>)
        requires
            self.wf(),
        ensures
            numbers::lists(
                chapter_numbers(r@),
                Set::new(|n: u32| short_chapter(self@, novel_id, n, max_chars)),
            ),
            forall|i: int|
                0 <= i < r@.len() ==> (#[trigger] r@[i])@ == self@.chapter(novel_id, r@[i].number),
    {
        let v = self.stored_list(novel_id);
        let mut out: Vec<Chapter> = Vec::new();
        let mut i: usize = 0;
        while i < v.len()
            invariant
                i <= v@.len(),
                self.wf(),
                numbers::lists(v@, self@.stored(novel_id)),
                numbers::ascending(chapter_numbers(out@)),
                forall|n: u32| #[trigger]
                    chapter_numbers(out@).contains(n) <==> (v@.take(i as int).contains(n)
                        && short_chapter(self@, novel_id, n, max_chars)),
                forall|j: int|
                    0 <= j < out@.len() ==> (#[trigger] out@[j])@ == self@.chapter(
                        novel_id,
                        out@[j].number,
                    ),
            decreases v@.len() - i,
        {
            let n: u32 = v[i];
            assert(v@.contains(n));
            assert(self@.stored(novel_id).contains(n));
            let ghost before = chapter_numbers(out@);
            let mut short = false;
            if let Some(row) = self.chapters.get((novel_id, n)) {
                let body = text::to_chars(row.body.as_str());
                assert(self@.chapters[(novel_id, n)] == row@);
                short = max_chars as u64 <= i64::MAX as u64 && text::before_char(&body, '\0')
                    < max_chars;
            }
            assert(short == short_chapter(self@, novel_id, n, max_chars));
            if short {
                if let Some(c) = self.load_chapter(novel_id, n) {
                    assert(c@.number == n);
                    out.push(c);
                }
            }
            proof {
                let after = chapter_numbers(out@);
                assert(after =~= if short {
                    before.push(n)
                } else {
                    before
                });
                lemma_filter_step(v@, i as int, before, after, n, short);
            }
            i += 1;
        }
        proof {
            assert(v@.take(v@.len() as int) =~= v@);
            assert forall|n: u32| #[trigger] chapter_numbers(out@).contains(n) <==> Set::new(
                |n: u32| short_chapter(self@, novel_id, n, max_chars),
            ).contains(n) by {
                assert(v@.contains(n) <==> self@.stored(novel_id).contains(n));
            }
        }
        out
    }

    /// The stored chapters that did not come from this source, by number.
    pub fn chapters_from_other_sources(&self, novel_id: i64, primary_source_id: i64) -> (r: Vec<u32>)
        requires
            self.wf(),
        ensures
            numbers::lists(r@, foreign_chapters(self@, novel_id, primary_source_id)),
    {
        let v = self.stored_list(novel_id);
        let mut out: Vec<u32> = Vec::new();
        let mut i: usize = 0;
        while i < v.len()
            invariant
                i <= v@.len(),
                self.wf(),
                numbers::lists(v@, self@.stored(novel_id)),
                numbers::ascending(out@),
                forall|n: u32| #[trigger]
                    out@.contains(n) <==> (v@.take(i as int).contains(n) && foreign_chapters(
                        self@,
                        novel_id,
                        primary_source_id,
                    ).contains(n)),
            decreases v@.len() - i,
        {
            let n: u32 = v[i];
            assert(v@.contains(n));
            assert(self@.stored(novel_id).contains(n));
            let ghost before = out@;
            let mut foreign = false;
            if let Some(row) = self.chapters.get((novel_id, n)) {
                assert(self@.chapters[(novel_id, n)] == row@);
                foreign = match row.source_id {
                    Some(s) => s != primary_source_id,
                    None => true,
                };
            }
            assert(foreign == foreign_chapters(self@, novel_id, primary_source_id).contains(n));
            if foreign {
                out.push(n);
            }
            proof {
                lemma_filter_step(v@, i as int, before, out@, n, foreign);
            }
            i += 1;
        }
        proof {
            assert(v@.take(v@.len() as int) =~= v@);
            assert forall|n: u32| #[trigger] out@.contains(n) <==> foreign_chapters(
                self@,
                novel_id,
                primary_source_id,
            ).contains(n) by {
                assert(v@.contains(n) <==> self@.stored(novel_id).contains(n));
            }
        }
        out
    }

    /// Put another source's title and text in place of a stored chapter's.
    pub fn update_chapter_content(&mut self, novel_id: i64, source_id: i64, chapter: &Chapter) -> (r:
        Result<(), String>)
        requires
            old(self).wf(),
        ensures
            final(self).wf(),
            r is Ok == (old(self)@.stored(novel_id).contains(chapter.number)
                ==> old(self)@.sources.contains_key(source_id)),
            r matches Err(e) ==> e@ == library::broken_reference() && final(self)@ == old(self)@,
            r is Ok ==> final(self)@ == old(self)@.with_content(novel_id, source_id, chapter@),
    {
        let k: Key = (novel_id, chapter.number);
        if !self.chapters.contains(k) {
            return Ok(());
        }
        if !self.sources.contains((source_id, 0)) {
            assert(!self@.sources.contains_key(source_id));
            return Err("the library has no such novel or source".to_string());
        }
        assert(self@.sources.contains_key(source_id));
        let ghost before = *self;
        if let Some(mut row) = self.chapters.take(k) {
            row.title = chapter.title.clone();
            row.body = text::join_texts(&chapter.paragraphs, "\n\n");
            row.source_id = Some(source_id);
            row.exported = false;
            row.exported_at = None;
            self.chapters.insert(k, row);
            proof {
                let after = before@.with_content(novel_id, source_id, chapter@);
                assert(self@.chapters =~= after.chapters);
                assert(self@ =~= after);
            }
        }
        Ok(())
    }

    /// Replace a stored chapter's text, to be exported again; `true` if it
    /// differed.
    pub fn update_chapter_body(&mut self, novel_id: i64, number: u32, paragraphs: &[String]) -> (r: bool)
        requires
            old(self).wf(),
        ensures
            final(self).wf(),
            r == old(self)@.body_differs(
                (novel_id, number),
                library::body_of(text::texts(paragraphs@)),
            ),
            final(self)@ == old(self)@.with_body(
                (novel_id, number),
                library::body_of(text::texts(paragraphs@)),
            ),
    {
        let body = text::join_texts(paragraphs, "\n\n");
        let k: Key = (novel_id, number);
        let differs = match self.chapters.get(k) {
            Some(row) => !text::same(row.body.as_str(), body.as_str()),
            None => false,
        };
        if !differs {
            return false;
        }
        let ghost before = *self;
        if let Some(mut row) = self.chapters.take(k) {
            row.body = body;
            row.exported = false;
            row.exported_at = None;
            self.chapters.insert(k, row);
            proof {
                let after = before@.with_body(k, library::body_of(text::texts(paragraphs@)));
                assert(self@.chapters =~= after.chapters);
                assert(self@ =~= after);
            }
        }
        true
    }

    /// Replace a stored chapter's title, to be exported again; `true` if it
    /// differed.
    pub fn update_chapter_title(&mut self, novel_id: i64, number: u32, title: &str) -> (r: bool)
        requires
            old(self).wf(),
        ensures
            final(self).wf(),
            r == old(self)@.title_differs((novel_id, number), title@),
            final(self)@ == old(self)@.with_title((novel_id, number), title@),
    {
        let k: Key = (novel_id, number);
        let differs = match self.chapters.get(k) {
            Some(row) => !text::same(row.title.as_str(), title),
            None => false,
        };
        if !differs {
            return false;
        }
        let ghost before = *self;
        if let Some(mut row) = self.chapters.take(k) {
            row.title = title.to_string();
            row.exported = false;
            row.exported_at = None;
            self.chapters.insert(k, row);
            proof {
                let after = before@.with_title(k, title@);
                assert(self@.chapters =~= after.chapters);
                assert(self@ =~= after);
            }
        }
        true
    }

    // -- progress and lifecycle ---------------------------------------------

    /// Record how far a source's listing reached.
    pub fn update_source_progress_at(&mut self, source_id: i64, last_seen_chapter: u32, now: i64)
        requires
            old(self).wf(),
        ensures
            final(self).wf(),
            final(self)@ == old(self)@.with_progress(source_id, last_seen_chapter, now),
    {
        let ghost before = *self;
        if let Some(mut row) = self.sources.take((source_id, 0)) {
            row.last_seen_chapter = Some(last_seen_chapter);
            row.last_synced_at = Some(now);
            self.sources.insert((source_id, 0), row);
            proof {
                let after = before@.with_progress(source_id, last_seen_chapter, now);
                assert(before@.sources.contains_key(source_id));
                assert(self@.sources =~= after.sources);
                assert(self@ =~= after);
                assert forall|s: i64, t: i64| #[trigger]
                    after.sources.contains_key(s) && #[trigger] after.sources.contains_key(t) && s
                        != t implies after.sources[s].url != after.sources[t].url by {
                    assert(before@.sources.contains_key(s) && before@.sources.contains_key(t));
                }
            }
        } else {
            proof {
                assert(self.sources@ =~= before.sources@);
                assert(self@ =~= before@);
            }
        }
    }

    /// [`Store::update_source_progress_at`] with the current time.
    pub fn update_source_progress(&mut self, source_id: i64, last_seen_chapter: u32)
        requires
            old(self).wf(),
        ensures
            final(self).wf(),
            exists|now: i64|
                final(self)@ == #[trigger] old(self)@.with_progress(
                    source_id,
                    last_seen_chapter,
                    now,
                ),
    {
        let now: i64 = util::now_unix();
        self.update_source_progress_at(source_id, last_seen_chapter, now);
    }

    /// Take a novel's author, cover, genre and label from its page. The title
    /// stays: folders are named after it.
    pub fn update_novel_meta_at(&mut self, novel_id: i64, meta: &NovelMeta, now: i64)
        requires
            old(self).wf(),
        ensures
            final(self).wf(),
            final(self)@ == old(self)@.with_meta(novel_id, meta@, now),
    {
        let ghost before = *self;
        if let Some(mut row) = self.novels.take((novel_id, 0)) {
            row.author = text::copy_opt(&meta.author);
            row.cover_url = text::copy_opt(&meta.cover_url);
            row.genre = text::copy_opt(&meta.genre);
            row.status_hint = meta.status_hint;
            row.updated_at = now;
            self.novels.insert((novel_id, 0), row);
        }
        proof {
            assert(before@.novels.contains_key(novel_id) == before.novels@.contains_key(
                (novel_id, 0u32),
            ));
            let after = before@.with_meta(novel_id, meta@, now);
            assert(self@.novels =~= after.novels);
            assert(self@ =~= after);
        }
    }

    /// [`Store::update_novel_meta_at`] with the current time.
    pub fn update_novel_meta(&mut self, novel_id: i64, meta: &NovelMeta)
        requires
            old(self).wf(),
        ensures
            final(self).wf(),
            exists|now: i64|
                final(self)@ == #[trigger] old(self)@.with_meta(novel_id, meta@, now),
    {
        let now: i64 = util::now_unix();
        self.update_novel_meta_at(novel_id, meta, now);
    }

    pub fn set_derived_state_at(&mut self, novel_id: i64, state: DerivedState, now: i64)
        requires
            old(self).wf(),
        ensures
            final(self).wf(),
            final(self)@ == old(self)@.with_state(novel_id, state, now),
    {
        let ghost before = *self;
        if let Some(mut row) = self.novels.take((novel_id, 0)) {
            row.derived_state = state;
            row.updated_at = now;
            self.novels.insert((novel_id, 0), row);
        }
        proof {
            assert(before@.novels.contains_key(novel_id) == before.novels@.contains_key(
                (novel_id, 0u32),
            ));
            let after = before@.with_state(novel_id, state, now);
            assert(self@.novels =~= after.novels);
            assert(self@ =~= after);
        }
    }

    /// [`Store::set_derived_state_at`] with the current time.
    pub fn set_derived_state(&mut self, novel_id: i64, state: DerivedState)
        requires
            old(self).wf(),
        ensures
            final(self).wf(),
            exists|now: i64|
                final(self)@ == #[trigger] old(self)@.with_state(novel_id, state, now),
    {
        let now: i64 = util::now_unix();
        self.set_derived_state_at(novel_id, state, now);
    }

    /// Remember whether a novel has chapters that no EPUB holds yet.
    pub fn set_export_pending(&mut self, novel_id: i64, pending: bool)
        requires
            old(self).wf(),
        ensures
            final(self).wf(),
            final(self)@ == old(self)@.with_pending(novel_id, pending),
    {
        let ghost before = *self;
        if let Some(mut row) = self.novels.take((novel_id, 0)) {
            row.export_pending = pending;
            self.novels.insert((novel_id, 0), row);
        }
        proof {
            assert(before@.novels.contains_key(novel_id) == before.novels@.contains_key(
                (novel_id, 0u32),
            ));
            let after = before@.with_pending(novel_id, pending);
            assert(self@.novels =~= after.novels);
            assert(self@ =~= after);
        }
    }

    /// Mark every stored chapter of a novel as exported.
    pub fn mark_all_exported_at(&mut self, novel_id: i64, now: i64)
        requires
            old(self).wf(),
        ensures
            final(self).wf(),
            final(self)@ == old(self)@.exported(novel_id, now),
    {
        let ghost before = self@;
        let stored = self.stored_list(novel_id);
        let mut i: usize = 0;
        while i < stored.len()
            invariant
                i <= stored@.len(),
                numbers::lists(stored@, before.stored(novel_id)),
                self.wf(),
                self@.novels == before.novels,
                self@.sources == before.sources,
                self@.gaps == before.gaps,
                self@.meta == before.meta,
                self@.last_novel_id == before.last_novel_id,
                forall|k: Key| #[trigger]
                    self@.chapters.contains_key(k) == before.chapters.contains_key(k),
                forall|k: Key| #[trigger]
                    self@.chapters.contains_key(k) ==> self@.chapters[k] == (if k.0 == novel_id
                        && stored@.take(i as int).contains(k.1) {
                        before.exported(novel_id, now).chapters[k]
                    } else {
                        before.chapters[k]
                    }),
            decreases stored@.len() - i,
        {
            let k: Key = (novel_id, stored[i]);
            let ghost prev = *self;
            proof {
                assert(stored@.contains(stored@[i as int]));
                assert(before.chapters.contains_key(k));
                assert(self@.chapters.contains_key(k));
                lemma_filter_step(stored@, i as int, seq![], seq![], k.1, false);
            }
            if let Some(mut row) = self.chapters.take(k) {
                row.exported = true;
                row.exported_at = Some(now);
                let ghost rec = row@;
                self.chapters.insert(k, row);
                proof {
                    assert(self@.chapters =~= prev@.chapters.insert(k, rec));
                    assert(self@ =~= (Library { chapters: self@.chapters, ..prev@ }));
                    assert(rec == before.exported(novel_id, now).chapters[k]);
                    assert(self@.valid());
                }
            }
            i += 1;
        }
        proof {
            assert(stored@.take(stored@.len() as int) =~= stored@);
            assert forall|k: Key| self@.chapters.contains_key(k) implies self@.chapters[k]
                == before.exported(novel_id, now).chapters[k] by {
                if k.0 == novel_id {
                    assert(k == (novel_id, k.1));
                    assert(before.stored(novel_id).contains(k.1));
                }
            }
            assert(self@.chapters =~= before.exported(novel_id, now).chapters);
            assert(self@ =~= before.exported(novel_id, now));
        }
    }

    /// [`Store::mark_all_exported_at`] with the current time.
    pub fn mark_all_exported(&mut self, novel_id: i64)
        requires
            old(self).wf(),
        ensures
            final(self).wf(),
            exists|now: i64| final(self)@ == #[trigger] old(self)@.exported(novel_id, now),
    {
        let now: i64 = util::now_unix();
        self.mark_all_exported_at(novel_id, now);
    }

    /// When a chapter of the novel was last stored.
    pub fn latest_fetch_time(&self, novel_id: i64) -> (r: Option<i64>)
        requires
            self.wf(),
        ensures
            r is None ==> forall|n: u32| !#[trigger] self@.chapters.contains_key((novel_id, n)),
            r matches Some(t) ==> (exists|n: u32|
                self@.chapters.contains_key((novel_id, n)) && (
                #[trigger] self@.chapters[(novel_id, n)]).fetched_at == t) && forall|n: u32| #[trigger]
                self@.chapters.contains_key((novel_id, n)) ==> self@.chapters[(
                    novel_id,
                    n,
                )].fetched_at <= t,
    {
        let v = self.stored_list(novel_id);
        let mut best: Option<i64> = None;
        let mut i: usize = 0;
        while i < v.len()
            invariant
                i <= v@.len(),
                self.wf(),
                numbers::lists(v@, self@.stored(novel_id)),
                best is None ==> i == 0,
                best matches Some(t) ==> (exists|n: u32|
                    self@.chapters.contains_key((novel_id, n)) && (
                    #[trigger] self@.chapters[(novel_id, n)]).fetched_at == t) && forall|j: int|
                    0 <= j < i ==> self@.chapters[(novel_id, #[trigger] v@[j])].fetched_at <= t,
            decreases v@.len() - i,
        {
            let n: u32 = v[i];
            assert(v@.contains(n));
            assert(self@.stored(novel_id).contains(n));
            if let Some(row) = self.chapters.get((novel_id, n)) {
                assert(self@.chapters[(novel_id, n)] == row@);
                let better = match best {
                    Some(t) => row.fetched_at > t,
                    None => true,
                };
                if better {
                    best = Some(row.fetched_at);
                }
            }
            i += 1;
        }
        proof {
            assert forall|n: u32| #[trigger] self@.chapters.contains_key((novel_id, n)) implies v@
                .contains(n) by {
                assert(self@.stored(novel_id).contains(n));
            }
        }
        best
    }

    /// When any source of the novel was last synced.
    pub fn last_synced_at(&self, novel_id: i64) -> (r: Option<i64>)
        requires
            self.wf(),
        ensures
            r is None ==> forall|s: i64| #[trigger]
                self@.sources.contains_key(s) && self@.sources[s].novel_id == novel_id
                    ==> self@.sources[s].last_synced_at is None,
            r matches Some(t) ==> (exists|s: i64|
                self@.sources.contains_key(s) && (#[trigger] self@.sources[s]).novel_id == novel_id
                    && self@.sources[s].last_synced_at == Some(t)) && forall|s: i64| #[trigger]
                self@.sources.contains_key(s) && self@.sources[s].novel_id == novel_id ==> (
                self@.sources[s].last_synced_at matches Some(u) ==> u <= t),
    {
        proof {
            self.sources.lemma_entries();
        }
        let ghost e = self.sources.entries();
        let mut best: Option<i64> = None;
        let mut i: usize = 0;
        while i < self.sources.len()
            invariant
                i <= e.len(),
                self.wf(),
                e == self.sources.entries(),
                forall|j: int|
                    0 <= j < e.len() ==> self.sources@.contains_key((#[trigger] e[j]).0)
                        && self.sources@[e[j].0] == e[j].1,
                best is None ==> forall|j: int|
                    0 <= j < i && (#[trigger] e[j]).1.novel_id == novel_id
                        ==> e[j].1.last_synced_at is None,
                best matches Some(t) ==> (exists|s: i64|
                    self@.sources.contains_key(s) && (#[trigger] self@.sources[s]).novel_id
                        == novel_id && self@.sources[s].last_synced_at == Some(t)) && forall|j: int|
                    0 <= j < i && (#[trigger] e[j]).1.novel_id == novel_id ==> (
                    e[j].1.last_synced_at matches Some(u) ==> u <= t),
            decreases e.len() - i,
        {
            let row = self.sources.row_at(i);
            assert(e[i as int].1 == *row);
            if row.novel_id == novel_id {
                if let Some(u) = row.last_synced_at {
                    let better = match best {
                        Some(t) => u > t,
                        None => true,
                    };
                    if better {
                        best = Some(u);
                        proof {
                            let s = e[i as int].0.0;
                            assert(e[i as int].0 == (s, 0u32));
                            assert(self@.sources.contains_key(s));
                            assert(self@.sources[s] == row@);
                            assert(self@.sources[s].novel_id == novel_id);
                        }
                    }
                }
            }
            i += 1;
        }
        proof {
            assert forall|s: i64| #[trigger] self@.sources.contains_key(s) implies exists|j: int|
                0 <= j < e.len() && (#[trigger] e[j]).0 == (s, 0u32) && e[j].1@
                    == self@.sources[s] by {
                assert(self.sources@.contains_key((s, 0u32)));
                let j = choose|j: int| 0 <= j < e.len() && (#[trigger] e[j]).0 == (s, 0u32);
                assert(e[j].1@ == self@.sources[s]);
            }
        }
        best
    }

    /// Weigh a novel's label against its silence, and record what follows.
    pub fn reevaluate_completion_at(&mut self, novel_id: i64, quiet_grace_days: u32, now: i64) -> (r:
        Result<DerivedState, String>)
        requires
            old(self).wf(),
        ensures
            final(self).wf(),
            r is Ok == old(self)@.novels.contains_key(novel_id),
            r matches Err(e) ==> e@ == library::broken_reference() && final(self)@ == old(self)@,
            r matches Ok(state) ==> state == old(self)@.reevaluated_state(
                novel_id,
                now,
                quiet_grace_days,
            ) && final(self)@ == (if state == old(self)@.novels[novel_id].derived_state {
                old(self)@
            } else {
                old(self)@.with_state(novel_id, state, now)
            }),
    {
        let (status, state) = match self.novels.get((novel_id, 0)) {
            Some(row) => {
                assert(self@.novels[novel_id] == row@);
                (row.status_hint, row.derived_state)
            },
            None => {
                assert(!self@.novels.contains_key(novel_id));
                return Err("the library has no such novel or source".to_string());
            },
        };
        assert(self@.novels.contains_key(novel_id));
        if state != DerivedState::Live || status != NovelStatus::Completed {
            return Ok(state);
        }
        let latest: i64 = match self.latest_fetch_time(novel_id) {
            Some(t) => t,
            None => 0,
        };
        let grace: i128 = quiet_grace_days as i128 * 86_400;
        let quiet = now as i128 - latest as i128 >= grace;
        proof {
            assert(quiet == self@.quiet(novel_id, now, quiet_grace_days));
        }
        if quiet {
            self.set_derived_state_at(novel_id, DerivedState::LikelyComplete, now);
            Ok(DerivedState::LikelyComplete)
        } else {
            Ok(state)
        }
    }

    /// [`Store::reevaluate_completion_at`] with the current time.
    pub fn reevaluate_completion(&mut self, novel_id: i64, quiet_grace_days: u32) -> (r: Result<
        DerivedState,
        String,
    >)
        requires
            old(self).wf(),
        ensures
            final(self).wf(),
            r is Ok == old(self)@.novels.contains_key(novel_id),
            r matches Err(e) ==> e@ == library::broken_reference() && final(self)@ == old(self)@,
            r matches Ok(state) ==> exists|now: i64|
                state == #[trigger] old(self)@.reevaluated_state(novel_id, now, quiet_grace_days)
                    && final(self)@ == (if state == old(self)@.novels[novel_id].derived_state {
                    old(self)@
                } else {
                    old(self)@.with_state(novel_id, state, now)
                }),
    {
        let now: i64 = util::now_unix();
        self.reevaluate_completion_at(novel_id, quiet_grace_days, now)
    }

    /// Drop the text of the chapters that are safely exported and whose novel is
    /// likely complete; how many went.
    pub fn apply_retention_at(&mut self, retention_days: u32, now: i64) -> (r: usize)
        requires
            old(self).wf(),
        ensures
            final(self).wf(),
            final(self)@ == old(self)@.purged(now, retention_days),
            r == Set::new(|k: Key| old(self)@.purgeable(k, now, retention_days)).len(),
    {
        let cutoff: i128 = now as i128 - retention_days as i128 * 86_400;
        proof {
            self.chapters.lemma_entries();
        }
        let ghost e = self.chapters.entries();
        let mut doomed: Vec<Key> = Vec::new();
        let mut i: usize = 0;
        while i < self.chapters.len()
            invariant
                i <= e.len(),
                self.wf(),
                e == self.chapters.entries(),
                cutoff == now - retention_days * 86_400,
                forall|j: int|
                    0 <= j < e.len() ==> self.chapters@.contains_key((#[trigger] e[j]).0)
                        && self.chapters@[e[j].0] == e[j].1,
                forall|x: int|
                    0 <= x < doomed@.len() ==> exists|j: int|
                        0 <= j < i && (#[trigger] e[j]).0 == #[trigger] doomed@[x],
                doomed@.no_duplicates(),
                forall|k: Key| #[trigger]
                    doomed@.contains(k) ==> self@.purgeable(k, now, retention_days),
                forall|j: int|
                    0 <= j < i && self@.purgeable((#[trigger] e[j]).0, now, retention_days)
                        ==> doomed@.contains(e[j].0),
            decreases e.len() - i,
        {
            let k = self.chapters.key_at(i);
            let row = self.chapters.row_at(i);
            proof {
                assert(e[i as int].0 == k && e[i as int].1 == *row);
                assert(self@.chapters.contains_key(k));
                assert(self@.chapters[k] == row@);
                assert(self@.novels.contains_key(k.0));
                assert(self.novels@.contains_key((k.0, 0u32)));
            }
            let old_enough = match row.exported_at {
                Some(t) => t as i128 <= cutoff,
                None => false,
            };
            let finished = match self.novels.get((k.0, 0)) {
                Some(n) => n.derived_state == DerivedState::LikelyComplete,
                None => false,
            };
            let goes = row.exported && old_enough && finished;
            assert(goes == self@.purgeable(k, now, retention_days));
            let ghost before = doomed@;
            if goes {
                proof {
                    assert(!before.contains(k)) by {
                        if before.contains(k) {
                            let x = choose|x: int| 0 <= x < before.len() && before[x] == k;
                            let j = choose|j: int| 0 <= j < i && (#[trigger] e[j]).0 == before[x];
                            assert(crate::table::below(e[j].0, e[i as int].0));
                        }
                    }
                }
                doomed.push(k);
                proof {
                    let after = doomed@;
                    assert(after[after.len() - 1] == k);
                    assert forall|q: Key| #[trigger] after.contains(q) <==> (before.contains(q) || q
                        == k) by {
                        if before.contains(q) {
                            let x = choose|x: int| 0 <= x < before.len() && before[x] == q;
                            assert(after[x] == q);
                        }
                        if after.contains(q) && q != k {
                            let x = choose|x: int| 0 <= x < after.len() && after[x] == q;
                            assert(before[x] == q);
                        }
                    }
                    assert forall|x: int| 0 <= x < after.len() implies exists|j: int|
                        0 <= j < i + 1 && (#[trigger] e[j]).0 == #[trigger] after[x] by {
                        if x < before.len() {
                            assert(after[x] == before[x]);
                            let j = choose|j: int| 0 <= j < i && (#[trigger] e[j]).0 == before[x];
                            assert(e[j].0 == after[x]);
                        } else {
                            assert(e[i as int].0 == after[x]);
                        }
                    }
                }
            }
            i += 1;
        }
        let ghost before = *self;
        let n: usize = doomed.len();
        self.chapters.remove_all(&doomed);
        proof {
            let gone = Set::new(|k: Key| before@.purgeable(k, now, retention_days));
            assert(doomed@.to_set() =~= gone) by {
                assert forall|k: Key| doomed@.to_set().contains(k) == gone.contains(k) by {
                    if gone.contains(k) {
                        assert(before.chapters@.contains_key(k));
                        let j = choose|j: int| 0 <= j < e.len() && (#[trigger] e[j]).0 == k;
                        assert(doomed@.contains(e[j].0));
                    }
                }
            }
            doomed@.unique_seq_to_set();
            let after = before@.purged(now, retention_days);
            assert(self@.chapters =~= after.chapters);
            assert(self@ =~= after);
        }
        n
    }

    /// [`Store::apply_retention_at`] with the current time.
    pub fn apply_retention(&mut self, retention_days: u32) -> (r: usize)
        requires
            old(self).wf(),
        ensures
            final(self).wf(),
            exists|now: i64|
                final(self)@ == #[trigger] old(self)@.purged(now, retention_days) && r == Set::new(
                    |k: Key| old(self)@.purgeable(k, now, retention_days),
                ).len(),
    {
        let now: i64 = util::now_unix();
        self.apply_retention_at(retention_days, now)
    }

    // -- removing -----------------------------------------------------------

    /// Whether a chapter of another novel came from one of this novel's sources.
    fn lends(&self, novel_id: i64) -> (r: bool)
        requires
            self.wf(),
        ensures
            r == self@.lends_sources(novel_id),
    {
        proof {
            self.chapters.lemma_entries();
        }
        let ghost e = self.chapters.entries();
        let mut i: usize = 0;
        while i < self.chapters.len()
            invariant
                i <= e.len(),
                self.wf(),
                e == self.chapters.entries(),
                forall|j: int|
                    0 <= j < e.len() ==> self.chapters@.contains_key((#[trigger] e[j]).0)
                        && self.chapters@[e[j].0] == e[j].1,
                forall|j: int|
                    0 <= j < i ==> (#[trigger] e[j]).0.0 == novel_id || !self@.comes_from(
                        e[j].0,
                        novel_id,
                    ),
            decreases e.len() - i,
        {
            let k = self.chapters.key_at(i);
            let row = self.chapters.row_at(i);
            proof {
                assert(e[i as int].0 == k && e[i as int].1 == *row);
                assert(self@.chapters.contains_key(k));
                assert(self@.chapters[k] == row@);
            }
            if k.0 != novel_id {
                if let Some(s) = row.source_id {
                    assert(self@.sources.contains_key(s));
                    if let Some(src) = self.sources.get((s, 0)) {
                        assert(self@.sources[s] == src@);
                        if src.novel_id == novel_id {
                            assert(self@.comes_from(k, novel_id));
                            return true;
                        }
                    }
                }
            }
            i += 1;
        }
        assert forall|k: Key| #[trigger] self@.chapters.contains_key(k) && k.0
            != novel_id implies !self@.comes_from(k, novel_id) by {
            assert(self.chapters@.contains_key(k));
            let j = choose|j: int| 0 <= j < e.len() && (#[trigger] e[j]).0 == k;
            assert(e[j].0.0 != novel_id);
        }
        false
    }

    /// Remove a novel with its sources, chapters and gaps. Refused while another
    /// novel holds chapters from one of its sources.
    pub fn remove_subscription(&mut self, novel_id: i64) -> (r: Result<(), String>)
        requires
            old(self).wf(),
        ensures
            final(self).wf(),
            r is Err == old(self)@.lends_sources(novel_id),
            r matches Err(e) ==> e@ == "another novel holds chapters from its sources"@ && final(
                self)@ == old(self)@,
            r is Ok ==> final(self)@ == old(self)@.without_novel(novel_id),
    {
        if self.lends(novel_id) {
            return Err("another novel holds chapters from its sources".to_string());
        }
        let ghost before = *self;
        let sources = self.sources_for(novel_id);
        let mut ids: Vec<Key> = Vec::new();
        let mut i: usize = 0;
        while i < sources.len()
            invariant
                i <= sources@.len(),
                ids@.len() == i,
                forall|j: int| 0 <= j < i ==> #[trigger] ids@[j] == (sources@[j].id, 0u32),
            decreases sources@.len() - i,
        {
            ids.push((sources[i].id, 0));
            i += 1;
        }
        let stored = owned_keys(&self.chapters, novel_id);
        let missing = owned_keys(&self.gaps, novel_id);
        self.novels.take((novel_id, 0));
        self.sources.remove_all(&ids);
        self.chapters.remove_all(&stored);
        self.gaps.remove_all(&missing);
        proof {
            let after = before@.without_novel(novel_id);
            let order = source_views(sources@);
            assert(self@.novels =~= after.novels);
            assert forall|s: i64| ids@.to_set().contains((s, 0u32)) <==> (
            before@.sources.contains_key(s) && before@.sources[s].novel_id == novel_id) by {
                if ids@.contains((s, 0u32)) {
                    let j = choose|j: int| 0 <= j < ids@.len() && ids@[j] == (s, 0u32);
                    assert(order[j].id == s);
                }
                if before@.sources.contains_key(s) && before@.sources[s].novel_id == novel_id {
                    assert(has_id(order, s));
                    let j = choose|j: int| 0 <= j < order.len() && (#[trigger] order[j]).id == s;
                    assert(order[j].id == sources@[j].id);
                    assert(ids@[j] == (s, 0u32));
                }
            }
            assert(self@.sources =~= after.sources);
            assert(self@.chapters =~= after.chapters);
            assert(self@.gaps =~= after.gaps);
            assert(self@ =~= after);
            assert forall|s: i64| #[trigger] after.sources.contains_key(s) implies
                after.novels.contains_key(after.sources[s].novel_id) by {
                assert(before@.sources.contains_key(s));
            }
            assert forall|s: i64, t: i64| #[trigger]
                after.sources.contains_key(s) && #[trigger] after.sources.contains_key(t) && s
                    != t implies after.sources[s].url != after.sources[t].url by {
                assert(before@.sources.contains_key(s) && before@.sources.contains_key(t));
            }
            assert forall|k: Key| #[trigger] after.chapters.contains_key(k) implies
                after.novels.contains_key(k.0) && (after.chapters[k].source_id matches Some(s)
                ==> after.sources.contains_key(s)) by {
                assert(before@.chapters.contains_key(k));
                if let Some(s) = after.chapters[k].source_id {
                    assert(before@.sources.contains_key(s));
                    assert(!before@.comes_from(k, novel_id));
                }
            }
            assert forall|n: i64| #[trigger] after.novels.contains_key(n) implies n
                <= after.last_novel_id by {
                assert(before@.novels.contains_key(n));
            }
            assert(keyed_by_id(self.novels@));
            assert(keyed_by_id(self.sources@));
        }
        Ok(())
    }

    // -- all sources --------------------------------------------------------

    /// Every source with its novel's id and title, by novel and then priority.
    pub fn all_sources(&self) -> (r: Vec<(i64, String, StoredSource)>)
        requires
            self.wf(),
        ensures
            forall|i: int|
                0 <= i < r@.len() ==> self@.sources.contains_key((#[trigger] r@[i]).2.id)
                    && r@[i].2@ == source_view(self@, r@[i].2.id) && r@[i].0
                    == self@.sources[r@[i].2.id].novel_id && r@[i].1@ == self@.novels[r@[i].0].title,
            forall|i: int, j: int|
                0 <= i < j < r@.len() ==> (#[trigger] r@[i]).0 < (#[trigger] r@[j]).0 || (r@[i].0
                    == r@[j].0 && ranks_before(r@[i].2@, r@[j].2@)),
            forall|s: i64| #[trigger]
                self@.sources.contains_key(s) ==> exists|i: int|
                    0 <= i < r@.len() && (#[trigger] r@[i]).2.id == s,
    {
        proof {
            self.novels.lemma_entries();
        }
        let ghost e = self.novels.entries();
        let mut out: Vec<(i64, String, StoredSource)> = Vec::new();
        let mut i: usize = 0;
        while i < self.novels.len()
            invariant
                i <= e.len(),
                self.wf(),
                e == self.novels.entries(),
                crate::table::keys_ascend(e),
                forall|j: int|
                    0 <= j < e.len() ==> self.novels@.contains_key((#[trigger] e[j]).0)
                        && self.novels@[e[j].0] == e[j].1,
                all_sources_so_far(self@, out@),
                forall|x: int|
                    0 <= x < out@.len() ==> exists|j: int|
                        0 <= j < i && (#[trigger] e[j]).0.0 == (#[trigger] out@[x]).0,
                forall|s: i64, j: int|
                    0 <= j < i && #[trigger] self@.sources.contains_key(s)
                        && self@.sources[s].novel_id == (#[trigger] e[j]).0.0 ==> exists|x: int|
                        0 <= x < out@.len() && (#[trigger] out@[x]).2.id == s,
            decreases e.len() - i,
        {
            let id: i64 = self.novels.key_at(i).0;
            let title = self.novels.row_at(i).title.clone();
            proof {
                assert(e[i as int].0 == (id, 0u32));
                assert(self@.novels.contains_key(id));
                assert(self@.novels[id].title == title@);
            }
            let sources = self.sources_for(id);
            let ghost order = source_views(sources@);
            let ghost base = out@.len();
            proof {
                assert forall|x: int| 0 <= x < out@.len() implies (#[trigger] out@[x]).0 < id by {
                    let j = choose|j: int| 0 <= j < i && (#[trigger] e[j]).0.0 == out@[x].0;
                    assert(crate::table::below(e[j].0, e[i as int].0));
                    assert(self.novels@.contains_key(e[j].0));
                }
            }
            let ghost start = out@;
            let mut j: usize = 0;
            while j < sources.len()
                invariant
                    j <= sources@.len(),
                    self.wf(),
                    order == source_views(sources@),
                    lists_sources(self@, id, order),
                    self@.novels.contains_key(id),
                    self@.novels[id].title == title@,
                    base == start.len(),
                    out@.len() == base + j,
                    forall|x: int| 0 <= x < base ==> #[trigger] out@[x] == start[x],
                    forall|x: int| 0 <= x < base ==> (#[trigger] out@[x]).0 < id,
                    all_sources_so_far(self@, out@),
                    forall|y: int|
                        0 <= y < j ==> (#[trigger] out@[base + y]).2@ == order[y] && out@[base
                            + y].0 == id,
                decreases sources@.len() - j,
            {
                let ghost before = out@;
                assert(order[j as int] == sources@[j as int]@);
                out.push((id, title.clone(), sources[j].clone()));
                proof {
                    let t = out@;
                    assert(t[base + j].2@ == order[j as int]);
                    assert forall|a: int, b: int| 0 <= a < b < t.len() implies (#[trigger] t[a]).0
                        < (#[trigger] t[b]).0 || (t[a].0 == t[b].0 && ranks_before(
                        t[a].2@,
                        t[b].2@,
                    )) by {
                        if b < before.len() {
                            assert(t[a] == before[a] && t[b] == before[b]);
                        } else if a >= base {
                            assert(t[a] == before[a]);
                            assert(before[base + (a - base)].2@ == order[a - base]);
                            assert(ranks_before(order[a - base], order[j as int]));
                        } else {
                            assert(t[a] == before[a]);
                        }
                    }
                    assert forall|x: int| 0 <= x < t.len() implies self@.sources.contains_key(
                        (#[trigger] t[x]).2.id,
                    ) && t[x].2@ == source_view(self@, t[x].2.id) && t[x].0
                        == self@.sources[t[x].2.id].novel_id && t[x].1@
                        == self@.novels[t[x].0].title by {
                        if x < before.len() {
                            assert(t[x] == before[x]);
                        } else {
                            assert(t[x].2.id == order[j as int].id);
                        }
                    }
                }
                j += 1;
            }
            proof {
                assert forall|x: int| 0 <= x < out@.len() implies exists|j: int|
                    0 <= j < i + 1 && (#[trigger] e[j]).0.0 == (#[trigger] out@[x]).0 by {
                    if x < base {
                        assert(out@[x] == start[x]);
                        let j = choose|j: int| 0 <= j < i && (#[trigger] e[j]).0.0 == start[x].0;
                        assert(e[j].0.0 == out@[x].0);
                    } else {
                        assert(out@[base + (x - base)].0 == id);
                        assert(e[i as int].0.0 == out@[x].0);
                    }
                }
                assert forall|s: i64, j: int|
                    0 <= j < i + 1 && #[trigger] self@.sources.contains_key(s)
                        && self@.sources[s].novel_id == (
                    #[trigger] e[j]).0.0 implies exists|x: int|
                    0 <= x < out@.len() && (#[trigger] out@[x]).2.id == s by {
                    if j < i {
                        let x = choose|x: int| 0 <= x < start.len() && (#[trigger] start[x]).2.id == s;
                        assert(out@[x].2.id == s);
                    } else {
                        assert(has_id(order, s));
                        let y = choose|y: int| 0 <= y < order.len() && (#[trigger] order[y]).id == s;
                        assert(out@[base + y].2@ == order[y]);
                        assert(out@[base + y].2.id == s);
                    }
                }
            }
            i += 1;
        }
        proof {
            assert forall|s: i64| #[trigger] self@.sources.contains_key(s) implies exists|i: int|
                0 <= i < out@.len() && (#[trigger] out@[i]).2.id == s by {
                let n = self@.sources[s].novel_id;
                assert(self@.novels.contains_key(n));
                assert(self.novels@.contains_key((n, 0u32)));
                let j = choose|j: int| 0 <= j < e.len() && (#[trigger] e[j]).0 == (n, 0u32);
                assert(e[j].0.0 == n);
            }
        }
        out
    }

    // -- rows in and out ----------------------------------------------------

    pub fn novel_rows(&self) -> (r: &Table<NovelRow>)
        requires
            self.wf(),
        ensures
            r.wf(),
            keyed_by_id(r@),
            forall|id: i64| #[trigger]
                self@.novels.contains_key(id) == r@.contains_key((id, 0u32)),
            forall|id: i64| #[trigger]
                self@.novels.contains_key(id) ==> self@.novels[id] == r@[(id, 0u32)]@,
    {
        &self.novels
    }

    pub fn source_rows(&self) -> (r: &Table<SourceRow>)
        requires
            self.wf(),
        ensures
            r.wf(),
            keyed_by_id(r@),
            forall|id: i64| #[trigger]
                self@.sources.contains_key(id) == r@.contains_key((id, 0u32)),
            forall|id: i64| #[trigger]
                self@.sources.contains_key(id) ==> self@.sources[id] == r@[(id, 0u32)]@,
    {
        &self.sources
    }

    pub fn chapter_rows(&self) -> (r: &Table<ChapterRow>)
        requires
            self.wf(),
        ensures
            r.wf(),
            forall|k: Key| #[trigger] self@.chapters.contains_key(k) == r@.contains_key(k),
            forall|k: Key| #[trigger]
                self@.chapters.contains_key(k) ==> self@.chapters[k] == r@[k]@,
    {
        &self.chapters
    }

    pub fn gap_rows(&self) -> (r: &Table<i64>)
        requires
            self.wf(),
        ensures
            r.wf(),
            r@ == self@.gaps,
    {
        &self.gaps
    }

    pub fn meta_rows(&self) -> (r: &Vec<(String, String)>)
        requires
            self.wf(),
        ensures
            settings_distinct(r@),
            settings(r@) == self@.meta,
    {
        &self.meta
    }

    /// The highest novel id ever handed out.
    pub fn last_novel_id(&self) -> (r: i64)
        requires
            self.wf(),
        ensures
            r == self@.last_novel_id,
    {
        self.last_novel_id
    }

    /// A store out of rows that were kept elsewhere; `None` where a reference
    /// leads nowhere or a URL or a setting occurs twice. New ids continue past
    /// both `sequence` and the highest id among the rows.
    pub fn from_rows(
        novels: Table<NovelRow>,
        sources: Table<SourceRow>,
        chapters: Table<ChapterRow>,
        gaps: Table<i64>,
        meta: Vec<(String, String)>,
        sequence: i64,
    ) -> (r: Option<Store>)
        requires
            novels.wf(),
            sources.wf(),
            chapters.wf(),
            gaps.wf(),
        ensures
            r is Some == rows_agree(novels@, sources@, chapters@, gaps@, meta@),
            r matches Some(s) ==> s.wf() && s@ == (Library {
                novels: novel_recs(novels@),
                sources: source_recs(sources@),
                chapters: chapter_recs(chapters@),
                gaps: gaps@,
                meta: settings(meta@),
                last_novel_id: s@.last_novel_id,
            }) && is_last_novel_id(novels@, sequence, s@.last_novel_id),
    {
        proof {
            novels.lemma_entries();
            sources.lemma_entries();
            chapters.lemma_entries();
            gaps.lemma_entries();
        }
        let mut last: i64 = if sequence > 0 {
            sequence
        } else {
            0
        };
        let ghost en = novels.entries();
        let mut i: usize = 0;
        while i < novels.len()
            invariant
                i <= en.len(),
                novels.wf(),
                en == novels.entries(),
                forall|j: int|
                    0 <= j < en.len() ==> novels@.contains_key((#[trigger] en[j]).0)
                        && novels@[en[j].0] == en[j].1,
                forall|j: int| 0 <= j < i ==> (#[trigger] en[j]).0.1 == 0 && en[j].0.0 <= last,
                sequence <= last,
                0 <= last,
                last == sequence || last == 0 || novels@.contains_key((last, 0u32)),
            decreases en.len() - i,
        {
            let k = novels.key_at(i);
            assert(en[i as int].0 == k);
            if k.1 != 0 {
                assert(!keyed_by_id(novels@));
                return None;
            }
            if k.0 > last {
                last = k.0;
            }
            i += 1;
        }
        assert forall|k: Key| #[trigger] novels@.contains_key(k) implies k.1 == 0 && k.0
            <= last by {
            let j = choose|j: int| 0 <= j < en.len() && (#[trigger] en[j]).0 == k;
            assert(en[j].0.1 == 0);
        }
        let ghost es = sources.entries();
        let mut i: usize = 0;
        while i < sources.len()
            invariant
                i <= es.len(),
                novels.wf(),
                sources.wf(),
                es == sources.entries(),
                forall|j: int|
                    0 <= j < es.len() ==> sources@.contains_key((#[trigger] es[j]).0)
                        && sources@[es[j].0] == es[j].1,
                forall|j: int|
                    0 <= j < i ==> (#[trigger] es[j]).0.1 == 0 && novels@.contains_key(
                        (es[j].1.novel_id, 0u32),
                    ),
                forall|j: int, k: int|
                    0 <= j < k < i ==> (#[trigger] es[j]).1.url@ != (#[trigger] es[k]).1.url@,
            decreases es.len() - i,
        {
            let key = sources.key_at(i);
            let row = sources.row_at(i);
            assert(es[i as int].0 == key && es[i as int].1 == *row);
            if key.1 != 0 {
                assert(!keyed_by_id(sources@));
                return None;
            }
            if !novels.contains((row.novel_id, 0)) {
                assert(!refs_resolve(novels@, sources@, chapters@, gaps@)) by {
                    assert(sources@.contains_key(key));
                    assert(sources@[key] == *row);
                }
                return None;
            }
            let mut j: usize = 0;
            while j < i
                invariant
                    j <= i < es.len(),
                    sources.wf(),
                    es == sources.entries(),
                    es[i as int].1 == *row,
                    forall|x: int|
                        0 <= x < es.len() ==> sources@.contains_key((#[trigger] es[x]).0)
                            && sources@[es[x].0] == es[x].1,
                    forall|x: int| 0 <= x < j ==> (#[trigger] es[x]).1.url@ != row.url@,
                decreases i - j,
            {
                if text::same(sources.row_at(j).url.as_str(), row.url.as_str()) {
                    proof {
                        assert(crate::table::below(es[j as int].0, es[i as int].0));
                        assert(sources@.contains_key(es[j as int].0) && sources@.contains_key(
                            es[i as int].0,
                        ));
                        assert(!urls_distinct(sources@));
                    }
                    return None;
                }
                j += 1;
            }
            i += 1;
        }
        assert forall|k: Key| #[trigger] sources@.contains_key(k) implies k.1 == 0
            && novels@.contains_key((sources@[k].novel_id, 0u32)) by {
            let j = choose|j: int| 0 <= j < es.len() && (#[trigger] es[j]).0 == k;
            assert(es[j].0.1 == 0);
        }
        assert forall|k: Key, q: Key| #[trigger]
            sources@.contains_key(k) && #[trigger] sources@.contains_key(q) && k
                != q implies sources@[k].url@ != sources@[q].url@ by {
            let a = choose|a: int| 0 <= a < es.len() && (#[trigger] es[a]).0 == k;
            let b = choose|b: int| 0 <= b < es.len() && (#[trigger] es[b]).0 == q;
            assert(es[a].1 == sources@[k] && es[b].1 == sources@[q]);
            if a < b {
                assert(es[a].1.url@ != es[b].1.url@);
            } else {
                assert(es[b].1.url@ != es[a].1.url@);
            }
        }
        let ghost ec = chapters.entries();
        let mut i: usize = 0;
        while i < chapters.len()
            invariant
                i <= ec.len(),
                novels.wf(),
                sources.wf(),
                ec == chapters.entries(),
                forall|j: int|
                    0 <= j < ec.len() ==> chapters@.contains_key((#[trigger] ec[j]).0)
                        && chapters@[ec[j].0] == ec[j].1,
                forall|j: int|
                    0 <= j < i ==> chapter_ref_resolves(
                        novels@,
                        sources@,
                        (#[trigger] ec[j]).0,
                        ec[j].1,
                    ),
            decreases ec.len() - i,
        {
            let key = chapters.key_at(i);
            let row = chapters.row_at(i);
            assert(ec[i as int].0 == key && ec[i as int].1 == *row);
            let known = match row.source_id {
                Some(s) => sources.contains((s, 0)),
                None => true,
            };
            if !known || !novels.contains((key.0, 0)) {
                assert(!refs_resolve(novels@, sources@, chapters@, gaps@)) by {
                    assert(chapters@.contains_key(key));
                }
                return None;
            }
            i += 1;
        }
        let ghost eg = gaps.entries();
        let mut i: usize = 0;
        while i < gaps.len()
            invariant
                i <= eg.len(),
                novels.wf(),
                eg == gaps.entries(),
                forall|j: int| 0 <= j < eg.len() ==> gaps@.contains_key((#[trigger] eg[j]).0),
                forall|j: int|
                    0 <= j < i ==> novels@.contains_key(((#[trigger] eg[j]).0.0, 0u32)),
            decreases eg.len() - i,
        {
            let key = gaps.key_at(i);
            assert(eg[i as int].0 == key);
            if !novels.contains((key.0, 0)) {
                assert(!refs_resolve(novels@, sources@, chapters@, gaps@)) by {
                    assert(gaps@.contains_key(key));
                }
                return None;
            }
            i += 1;
        }
        let mut i: usize = 0;
        while i < meta.len()
            invariant
                i <= meta@.len(),
                forall|a: int, b: int|
                    0 <= a < b < i ==> (#[trigger] meta@[a]).0@ != (#[trigger] meta@[b]).0@,
            decreases meta@.len() - i,
        {
            let mut j: usize = 0;
            while j < i
                invariant
                    j <= i < meta@.len(),
                    forall|x: int| 0 <= x < j ==> (#[trigger] meta@[x]).0@ != meta@[i as int].0@,
                decreases i - j,
            {
                if text::same(meta[j].0.as_str(), meta[i].0.as_str()) {
                    assert(!settings_distinct(meta@)) by {
                        assert(meta@[j as int].0@ == meta@[i as int].0@);
                    }
                    return None;
                }
                j += 1;
            }
            i += 1;
        }
        let r = Store { novels, sources, chapters, gaps, meta, last_novel_id: last };
        proof {
            assert(settings_distinct(r.meta@)) by {
                assert forall|a: int, b: int|
                    0 <= a < r.meta@.len() && 0 <= b < r.meta@.len() && a != b implies (
                #[trigger] r.meta@[a]).0@ != (#[trigger] r.meta@[b]).0@ by {
                    if a < b {
                    } else {
                        assert(r.meta@[b].0@ != r.meta@[a].0@);
                    }
                }
            }
            assert forall|k: Key| #[trigger] chapters@.contains_key(k) implies chapter_ref_resolves(
                novels@,
                sources@,
                k,
                chapters@[k],
            ) by {
                let j = choose|j: int| 0 <= j < ec.len() && (#[trigger] ec[j]).0 == k;
                assert(ec[j].1 == chapters@[k]);
            }
            assert forall|k: Key| #[trigger] gaps@.contains_key(k) implies novels@.contains_key(
                (k.0, 0u32),
            ) by {
                let j = choose|j: int| 0 <= j < eg.len() && (#[trigger] eg[j]).0 == k;
                assert(novels@.contains_key((eg[j].0.0, 0u32)));
            }
            let lib = r@;
            assert forall|s: i64, t: i64| #[trigger]
                lib.sources.contains_key(s) && #[trigger] lib.sources.contains_key(t) && s
                    != t implies lib.sources[s].url != lib.sources[t].url by {
                assert(sources@.contains_key((s, 0u32)) && sources@.contains_key((t, 0u32)));
            }
            assert forall|k: Key| #[trigger] lib.chapters.contains_key(k) implies
                lib.novels.contains_key(k.0) && (lib.chapters[k].source_id matches Some(s)
                ==> lib.sources.contains_key(s)) by {
                assert(chapters@.contains_key(k));
            }
            assert forall|s: i64| #[trigger] lib.sources.contains_key(s) implies
                lib.novels.contains_key(lib.sources[s].novel_id) by {
                assert(sources@.contains_key((s, 0u32)));
            }
            assert(lib.valid());
        }
        Some(r)
    }
}

/// Whether a stored row's novel and source are among the rows.
pub open spec fn chapter_ref_resolves(
    novels: Map<Key, NovelRow>,
    sources: Map<Key, SourceRow>,
    k: Key,
    row: ChapterRow,
) -> bool {
    &&& novels.contains_key((k.0, 0u32))
    &&& row.source_id matches Some(s) ==> sources.contains_key((s, 0u32))
}

/// Whether every reference between the rows leads to a row.
pub open spec fn refs_resolve(
    novels: Map<Key, NovelRow>,
    sources: Map<Key, SourceRow>,
    chapters: Map<Key, ChapterRow>,
    gaps: Map<Key, i64>,
) -> bool {
    &&& forall|k: Key| #[trigger]
        sources.contains_key(k) ==> novels.contains_key((sources[k].novel_id, 0u32))
    &&& forall|k: Key| #[trigger]
        chapters.contains_key(k) ==> chapter_ref_resolves(novels, sources, k, chapters[k])
    &&& forall|k: Key| #[trigger] gaps.contains_key(k) ==> novels.contains_key((k.0, 0u32))
}

pub open spec fn urls_distinct(sources: Map<Key, SourceRow>) -> bool {
    forall|k: Key, q: Key| #[trigger]
        sources.contains_key(k) && #[trigger] sources.contains_key(q) && k != q
            ==> sources[k].url@ != sources[q].url@
}

/// Whether rows fit together into a library.
pub open spec fn rows_agree(
    novels: Map<Key, NovelRow>,
    sources: Map<Key, SourceRow>,
    chapters: Map<Key, ChapterRow>,
    gaps: Map<Key, i64>,
    meta: Seq<(String, String)>,
) -> bool {
    &&& keyed_by_id(novels)
    &&& keyed_by_id(sources)
    &&& refs_resolve(novels, sources, chapters, gaps)
    &&& urls_distinct(sources)
    &&& settings_distinct(meta)
}

/// Whether `last` is the greatest of 0, `sequence` and the ids in use.
pub open spec fn is_last_novel_id(novels: Map<Key, NovelRow>, sequence: i64, last: i64) -> bool {
    &&& 0 <= last
    &&& sequence <= last
    &&& forall|k: Key| #[trigger] novels.contains_key(k) ==> k.0 <= last
    &&& last == 0 || last == sequence || novels.contains_key((last, 0u32))
}

spec fn all_sources_so_far(lib: Library, v: Seq<(i64, String, StoredSource)>) -> bool {
    &&& forall|i: int|
        0 <= i < v.len() ==> lib.sources.contains_key((#[trigger] v[i]).2.id) && v[i].2@
            == source_view(lib, v[i].2.id) && v[i].0 == lib.sources[v[i].2.id].novel_id && v[i].1@
            == lib.novels[v[i].0].title
    &&& forall|i: int, j: int|
        0 <= i < j < v.len() ==> (#[trigger] v[i]).0 < (#[trigger] v[j]).0 || (v[i].0 == v[j].0
            && ranks_before(v[i].2@, v[j].2@))
}

/// The keys of the rows that belong to `owner`.
fn owned_keys<R>(t: &Table<R>, owner: i64) -> (r: Vec<Key>)
    requires
        t.wf(),
    ensures
        forall|k: Key| #[trigger] r@.contains(k) <==> (t@.contains_key(k) && k.0 == owner),
{
    let v = t.numbers_of(owner);
    let ghost set = Set::new(|n: u32| t@.contains_key((owner, n)));
    let mut r: Vec<Key> = Vec::new();
    let mut i: usize = 0;
    while i < v.len()
        invariant
            i <= v@.len(),
            r@.len() == i,
            forall|j: int| 0 <= j < i ==> #[trigger] r@[j] == (owner, v@[j]),
        decreases v@.len() - i,
    {
        r.push((owner, v[i]));
        i += 1;
    }
    assert forall|k: Key| #[trigger] r@.contains(k) <==> (t@.contains_key(k) && k.0 == owner) by {
        if r@.contains(k) {
            let j = choose|j: int| 0 <= j < r@.len() && r@[j] == k;
            assert(v@.contains(v@[j]));
            assert(set.contains(v@[j]));
        }
        if t@.contains_key(k) && k.0 == owner {
            assert(k == (owner, k.1));
            assert(set.contains(k.1));
            assert(v@.contains(k.1));
            let j = choose|j: int| 0 <= j < v@.len() && v@[j] == k.1;
            assert(r@[j] == k);
        }
    }
    r
}

pub open spec fn chapter_numbers(v: Seq<Chapter>) -> Seq<u32> {
    v.map_values(|c: Chapter| c.number)
}

/// Whether a chapter is stored with fewer characters than `max`, counted up to
/// the first NUL. A limit past the range of `i64` admits none.
pub open spec fn short_chapter(lib: Library, novel: i64, n: u32, max: usize) -> bool {
    &&& lib.chapters.contains_key((novel, n))
    &&& max <= i64::MAX
    &&& text::span(lib.chapters[(novel, n)].body, text::not('\0')) < max
}

/// The stored chapters that did not come from `source`.
pub open spec fn foreign_chapters(lib: Library, novel: i64, source: i64) -> Set<u32> {
    Set::new(
        |n: u32|
            lib.chapters.contains_key((novel, n)) && lib.chapters[(novel, n)].source_id != Some(
                source,
            ),
    )
}

/// One step of picking members out of an ascending list.
pub proof fn lemma_filter_step(
    all: Seq<u32>,
    i: int,
    before: Seq<u32>,
    after: Seq<u32>,
    n: u32,
    taken: bool,
)
    requires
        numbers::ascending(all),
        0 <= i < all.len(),
        all[i] == n,
        numbers::ascending(before),
        forall|k: u32| #[trigger] before.contains(k) ==> all.take(i).contains(k),
        after == (if taken {
            before.push(n)
        } else {
            before
        }),
    ensures
        numbers::ascending(after),
        forall|k: u32| #[trigger] after.contains(k) <==> (before.contains(k) || (taken && k == n)),
        forall|k: u32| #[trigger]
            all.take(i + 1).contains(k) <==> (all.take(i).contains(k) || k == n),
        !all.take(i).contains(n),
{
    let a = all.take(i);
    let b = all.take(i + 1);
    assert(b =~= a.push(n));
    assert forall|k: u32| #[trigger] b.contains(k) <==> (a.contains(k) || k == n) by {
        if a.contains(k) {
            let x = choose|x: int| 0 <= x < a.len() && a[x] == k;
            assert(b[x] == k);
        }
        if b.contains(k) && k != n {
            let x = choose|x: int| 0 <= x < b.len() && b[x] == k;
            assert(a[x] == k);
        }
        assert(b[i] == n);
    }
    assert forall|k: u32| #[trigger] after.contains(k) <==> (before.contains(k) || (taken && k
        == n)) by {
        if before.contains(k) {
            let x = choose|x: int| 0 <= x < before.len() && before[x] == k;
            assert(after[x] == k);
        }
        if after.contains(k) && !(taken && k == n) {
            let x = choose|x: int| 0 <= x < after.len() && after[x] == k;
            assert(before[x] == k);
        }
        if taken {
            assert(after[after.len() - 1] == n);
        }
    }
    if a.contains(n) {
        let x = choose|x: int| 0 <= x < a.len() && a[x] == n;
        assert(all[x] < all[i]);
    }
    assert forall|x: int, y: int| 0 <= x < y < after.len() implies #[trigger] after[x]
        < #[trigger] after[y] by {
        if y < before.len() {
            assert(before[x] < before[y]);
        } else {
            assert(before.contains(before[x]));
            let z = choose|z: int| 0 <= z < a.len() && a[z] == before[x];
            assert(all[z] < all[i]);
        }
    }
}

/// Whether another source has the URL.
pub open spec fn attached_elsewhere(lib: Library, source: i64, url: Seq<char>) -> bool {
    exists|s: i64|
        lib.sources.contains_key(s) && s != source && (#[trigger] lib.sources[s]).url == url
}

/// Why a source cannot be repointed, if it cannot.
pub open spec fn repoint_refusal(lib: Library, source: i64, url: Seq<char>) -> Option<Seq<char>> {
    if attached_elsewhere(lib, source, url) {
        Some(url + " is already attached to another subscription"@)
    } else if !lib.sources.contains_key(source) {
        Some("no source #"@ + text::decimal_int(source as int) + " to repoint"@)
    } else {
        None
    }
}

pub open spec fn not_its_source(novel: i64, source: i64) -> Seq<char> {
    "source #"@ + text::decimal_int(source as int) + " does not belong to novel #"@
        + text::decimal_int(novel as int)
}

pub open spec fn source_position(order: Seq<SourceView>, id: i64) -> int {
    choose|i: int| 0 <= i < order.len() && (#[trigger] order[i]).id == id
}

pub open spec fn ids_distinct(order: Seq<SourceView>) -> bool {
    forall|i: int, j: int|
        0 <= i < order.len() && 0 <= j < order.len() && i != j ==> (#[trigger] order[i]).id != (
        #[trigger] order[j]).id
}

/// The priority of a source once `chosen` is the first: the ones that stood
/// before it move back by one, and the ones behind it close up.
pub open spec fn promoted_priority(order: Seq<SourceView>, chosen: i64, id: i64) -> int {
    let i = source_position(order, id);
    let p = source_position(order, chosen);
    if i == p {
        1
    } else if i < p {
        i + 2
    } else {
        i + 1
    }
}

pub open spec fn renumbered(lib: Library, order: Seq<SourceView>, chosen: i64) -> Map<
    i64,
    SourceRec,
> {
    Map::new(
        |s: i64| lib.sources.contains_key(s),
        |s: i64|
            if has_id(order, s) {
                SourceRec {
                    priority: promoted_priority(order, chosen, s) as i64,
                    ..lib.sources[s]
                }
            } else {
                lib.sources[s]
            },
    )
}

pub open spec fn reattributed(m: Map<Key, ChapterRec>, novel: i64, from: i64, to: i64) -> Map<
    Key,
    ChapterRec,
> {
    Map::new(
        |k: Key| m.contains_key(k),
        |k: Key|
            if k.0 == novel && m[k].source_id == Some(from) {
                ChapterRec { source_id: Some(to), ..m[k] }
            } else {
                m[k]
            },
    )
}

/// The library with `chosen` as the novel's primary source.
pub open spec fn promoted(
    lib: Library,
    novel: i64,
    order: Seq<SourceView>,
    chosen: i64,
) -> Library {
    Library {
        sources: renumbered(lib, order, chosen),
        chapters: reattributed(lib.chapters, novel, order[0].id, chosen),
        ..lib
    }
}

pub proof fn lemma_order_distinct(lib: Library, novel: i64, order: Seq<SourceView>)
    requires
        lists_sources(lib, novel, order),
    ensures
        ids_distinct(order),
{
    assert forall|i: int, j: int|
        0 <= i < order.len() && 0 <= j < order.len() && i != j implies (#[trigger] order[i]).id != (
    #[trigger] order[j]).id by {
        if i < j {
            assert(ranks_before(order[i], order[j]));
        } else {
            assert(ranks_before(order[j], order[i]));
        }
    }
}

proof fn lemma_setting_put(
    s: Seq<(String, String)>,
    t: Seq<(String, String)>,
    i: int,
    key: Seq<char>,
    value: Seq<char>,
)
    requires
        settings_distinct(s),
        settings_distinct(t),
        0 <= i < t.len(),
        t.len() == s.len() || (t.len() == s.len() + 1 && i == s.len()),
        t[i].0@ == key,
        t[i].1@ == value,
        forall|j: int| 0 <= j < s.len() && j != i ==> #[trigger] t[j] == s[j],
        i < s.len() ==> s[i].0@ == key,
    ensures
        settings(t) == settings(s).insert(key, value),
{
    assert forall|k: Seq<char>| settings(t).contains_key(k) == settings(s).insert(
        key,
        value,
    ).contains_key(k) by {
        if has_setting(t, k) {
            let j = setting_index(t, k);
            if j != i {
                assert(s[j].0@ == k);
            }
        }
        if has_setting(s, k) {
            let j = setting_index(s, k);
            assert(t[j].0@ == k);
        }
        assert(t[i].0@ == key);
    }
    assert forall|k: Seq<char>| settings(t).contains_key(k) implies settings(t)[k] == settings(
        s,
    ).insert(key, value)[k] by {
        let j = setting_index(t, k);
        assert(t[j].0@ == k);
        if k == key {
            assert(j == i);
        } else {
            assert(t[j] == s[j]);
            assert(has_setting(s, k));
            let x = setting_index(s, k);
            assert(s[x].0@ == k);
            assert(x == j);
        }
    }
    assert(settings(t) =~= settings(s).insert(key, value));
}

/// A [`StoredNovel`] as plain values.
#[verifier::ext_equal]
pub struct NovelView {
    pub id: i64,
    pub title: Seq<char>,
    pub author: Option<Seq<char>>,
    pub cover_url: Option<Seq<char>>,
    pub genre: Option<Seq<char>>,
    pub status_hint: NovelStatus,
    pub derived_state: DerivedState,
    pub export_pending: bool,
    pub sources: Seq<SourceView>,
    pub chapter_count: i64,
}

impl View for StoredNovel {
    type V = NovelView;

    open spec fn view(&self) -> NovelView {
        NovelView {
            id: self.id,
            title: self.title@,
            author: text::opt(self.author),
            cover_url: text::opt(self.cover_url),
            genre: text::opt(self.genre),
            status_hint: self.status_hint,
            derived_state: self.derived_state,
            export_pending: self.export_pending,
            sources: source_views(self.sources@),
            chapter_count: self.chapter_count,
        }
    }
}

/// Whether `v` is what the library holds of its novel.
pub open spec fn shows(lib: Library, v: NovelView) -> bool {
    let n = lib.novels[v.id];
    &&& lib.novels.contains_key(v.id)
    &&& v.title == n.title
    &&& v.author == n.author
    &&& v.cover_url == n.cover_url
    &&& v.genre == n.genre
    &&& v.status_hint == n.status_hint
    &&& v.derived_state == n.derived_state
    &&& v.export_pending == n.export_pending
    &&& lists_sources(lib, v.id, v.sources)
    &&& v.chapter_count == lib.stored(v.id).len()
}

/// The novel a selector names: the one with that id, or else the first with that title.
pub open spec fn selected(lib: Library, selector: Seq<char>) -> Option<i64> {
    match text::parsed_int(selector) {
        Some(n) if lib.novels.contains_key(n as i64) => Some(n as i64),
        _ => library::first_novel(lib.novels, library::titled(selector)),
    }
}

pub open spec fn with_normalized_title(lib: Library, title: Seq<char>) -> Option<i64> {
    if util::normalized(title).len() == 0 {
        None
    } else {
        library::first_novel(lib.novels, library::normalized_to(util::normalized(title)))
    }
}

/// The novel a URL is a source of.
pub open spec fn url_owner(lib: Library, url: Seq<char>) -> Option<i64> {
    if lib.has_url(url) {
        let s = choose|s: i64|
            lib.sources.contains_key(s) && (#[trigger] lib.sources[s]).url == url;
        Some(lib.sources[s].novel_id)
    } else {
        None
    }
}

/// The novel a URL is a source of as given, without its final slashes, or with
/// one.
pub open spec fn lenient_url_owner(lib: Library, url: Seq<char>) -> Option<i64> {
    let bare = text::without_trailing(url, '/');
    match url_owner(lib, url) {
        Some(id) => Some(id),
        None => match url_owner(lib, bare) {
            Some(id) => Some(id),
            None => url_owner(lib, bare + "/"@),
        },
    }
}

/// A source as the library records it.
pub open spec fn source_view(lib: Library, id: i64) -> SourceView {
    let s = lib.sources[id];
    SourceView {
        id,
        name: s.name,
        url: s.url,
        priority: s.priority,
        last_seen_chapter: s.last_seen_chapter,
    }
}

pub open spec fn has_id(v: Seq<SourceView>, id: i64) -> bool {
    exists|i: int| 0 <= i < v.len() && (#[trigger] v[i]).id == id
}

pub open spec fn ranks_before(a: SourceView, b: SourceView) -> bool {
    a.priority < b.priority || (a.priority == b.priority && a.id < b.id)
}

pub open spec fn ranked(v: Seq<SourceView>) -> bool {
    forall|i: int, j: int| 0 <= i < j < v.len() ==> ranks_before(#[trigger] v[i], #[trigger] v[j])
}

/// Whether `v` lists a novel's sources, all of them, by priority.
pub open spec fn lists_sources(lib: Library, novel: i64, v: Seq<SourceView>) -> bool {
    &&& ranked(v)
    &&& forall|i: int|
        0 <= i < v.len() ==> lib.sources.contains_key((#[trigger] v[i]).id)
            && lib.sources[v[i].id].novel_id == novel && v[i] == source_view(lib, v[i].id)
    &&& forall|s: i64| #[trigger]
        lib.sources.contains_key(s) && lib.sources[s].novel_id == novel ==> has_id(v, s)
}

/// A novel's sources by priority.
pub open spec fn source_order(lib: Library, novel: i64) -> Seq<SourceView> {
    choose|v: Seq<SourceView>| lists_sources(lib, novel, v)
}

/// Only one sequence lists a novel's sources by priority.
pub proof fn lemma_source_order(lib: Library, novel: i64, v: Seq<SourceView>)
    requires
        lists_sources(lib, novel, v),
    ensures
        source_order(lib, novel) == v,
{
    let t = source_order(lib, novel);
    assert(lists_sources(lib, novel, t));
    assert forall|x: SourceView| #[trigger] v.contains(x) <==> t.contains(x) by {
        if v.contains(x) {
            let i = choose|i: int| 0 <= i < v.len() && v[i] == x;
            assert(lib.sources.contains_key(v[i].id));
            assert(has_id(t, x.id));
            let j = choose|j: int| 0 <= j < t.len() && (#[trigger] t[j]).id == x.id;
            assert(t[j] == x);
        }
        if t.contains(x) {
            let i = choose|i: int| 0 <= i < t.len() && t[i] == x;
            assert(lib.sources.contains_key(t[i].id));
            assert(has_id(v, x.id));
            let j = choose|j: int| 0 <= j < v.len() && (#[trigger] v[j]).id == x.id;
            assert(v[j] == x);
        }
    }
    lemma_ranked_same(v, t);
}

proof fn lemma_ranked_same(s: Seq<SourceView>, t: Seq<SourceView>)
    requires
        ranked(s),
        ranked(t),
        forall|x: SourceView| #[trigger] s.contains(x) <==> t.contains(x),
    ensures
        s == t,
    decreases s.len() + t.len(),
{
    if s.len() == 0 {
        if t.len() > 0 {
            assert(t.contains(t[0]));
            assert(s.contains(t[0]));
        }
        assert(s =~= t);
    } else if t.len() == 0 {
        assert(s.contains(s[0]));
        assert(t.contains(s[0]));
    } else {
        assert(s.contains(s.last()));
        assert(t.contains(t.last()));
        assert(t.contains(s.last()));
        assert(s.contains(t.last()));
        let i = choose|i: int| 0 <= i < t.len() && t[i] == s.last();
        let j = choose|j: int| 0 <= j < s.len() && s[j] == t.last();
        assert(s.last() == t.last()) by {
            if i < t.len() - 1 {
                assert(ranks_before(t[i], t[t.len() - 1]));
            }
            if j < s.len() - 1 {
                assert(ranks_before(s[j], s[s.len() - 1]));
            }
        }
        let a = s.drop_last();
        let b = t.drop_last();
        assert forall|x: SourceView| #[trigger] a.contains(x) <==> b.contains(x) by {
            if a.contains(x) {
                let k = choose|k: int| 0 <= k < a.len() && a[k] == x;
                assert(s[k] == x);
                assert(s.contains(x));
                assert(ranks_before(s[k], s[s.len() - 1]));
                let m = choose|m: int| 0 <= m < t.len() && t[m] == x;
                assert(b[m] == x);
            }
            if b.contains(x) {
                let k = choose|k: int| 0 <= k < b.len() && b[k] == x;
                assert(t[k] == x);
                assert(t.contains(x));
                assert(s.contains(x));
                assert(ranks_before(t[k], t[t.len() - 1]));
                let m = choose|m: int| 0 <= m < s.len() && s[m] == x;
                assert(a[m] == x);
            }
        }
        assert(ranked(a)) by {
            assert forall|x: int, y: int| 0 <= x < y < a.len() implies ranks_before(
                #[trigger] a[x],
                #[trigger] a[y],
            ) by {
                assert(ranks_before(s[x], s[y]));
            }
        }
        assert(ranked(b)) by {
            assert forall|x: int, y: int| 0 <= x < y < b.len() implies ranks_before(
                #[trigger] b[x],
                #[trigger] b[y],
            ) by {
                assert(ranks_before(t[x], t[y]));
            }
        }
        lemma_ranked_same(a, b);
        assert(s =~= a.push(s.last()));
        assert(t =~= b.push(t.last()));
    }
}

/// The library once a source was asked to be the novel's primary one. `None` where it
/// is not one of the novel's sources, or they are too many to number.
pub open spec fn promotion(lib: Library, novel: i64, source: i64) -> Option<Library> {
    let order = source_order(lib, novel);
    if !has_id(order, source) {
        None
    } else if order[0].id == source {
        Some(lib)
    } else if order.len() >= i64::MAX {
        None
    } else {
        Some(promoted(lib, novel, order, source))
    }
}

proof fn lemma_last_priority(lib: Library, novel: i64, p: int)
    requires
        lib.is_last_priority(novel, p),
    ensures
        lib.last_priority(novel) == p,
{
    let q = lib.last_priority(novel);
    assert(lib.is_last_priority(novel, q));
}

fn insert_ranked(v: &mut Vec<StoredSource>, s: StoredSource)
    requires
        ranked(source_views(old(v)@)),
        !has_id(source_views(old(v)@), s.id),
    ensures
        ranked(source_views(final(v)@)),
        forall|x: SourceView| #[trigger]
            source_views(final(v)@).contains(x) <==> (source_views(old(v)@).contains(x) || x == s@),
{
    let ghost before = source_views(v@);
    let mut i: usize = 0;
    while i < v.len() && (v[i].priority < s.priority || (v[i].priority == s.priority && v[i].id
        < s.id))
        invariant
            i <= v.len(),
            before == source_views(v@),
            forall|j: int| 0 <= j < i ==> ranks_before(#[trigger] before[j], s@),
        decreases v.len() - i,
    {
        assert(before[i as int] == v@[i as int]@);
        i += 1;
    }
    proof {
        if i < v.len() {
            assert(before[i as int] == v@[i as int]@);
            assert(before[i as int].id != s.id);
        }
    }
    let ghost new = s@;
    v.insert(i, s);
    proof {
        let t = source_views(v@);
        assert(t =~= before.insert(i as int, new));
        assert forall|a: int, b: int| 0 <= a < b < t.len() implies ranks_before(
            #[trigger] t[a],
            #[trigger] t[b],
        ) by {
            let x = if a < i { a } else { a - 1 };
            let y = if b < i { b } else { b - 1 };
            if a == i {
                assert(t[b] == before[b - 1]);
                if b - 1 > i {
                    assert(ranks_before(before[i as int], before[b - 1]));
                }
            } else if b == i {
                assert(t[a] == before[a]);
            } else {
                assert(t[a] == before[x] && t[b] == before[y]);
                assert(ranks_before(before[x], before[y]));
            }
        }
        assert forall|x: SourceView| #[trigger] t.contains(x) <==> (before.contains(x) || x
            == new) by {
            if t.contains(x) {
                let a = choose|a: int| 0 <= a < t.len() && t[a] == x;
                if a < i {
                    assert(before[a] == x);
                } else if a > i {
                    assert(before[a - 1] == x);
                }
            }
            if before.contains(x) {
                let a = choose|a: int| 0 <= a < before.len() && before[a] == x;
                if a < i {
                    assert(t[a] == x);
                } else {
                    assert(t[a + 1] == x);
                }
            }
            assert(t[i as int] == new);
        }
    }
}

/// The rows of the store are seen as they are.
pub proof fn law_rows_are_seen_whole(
    n: NovelRow,
    s: SourceRow,
    c: ChapterRow,
    v: Seq<StoredSource>,
    i: int,
    t: StoredNovel,
)
    requires
        0 <= i < v.len(),
    ensures
        n@.title == n.title@,
        n@.author == text::opt(n.author),
        n@.cover_url == text::opt(n.cover_url),
        n@.genre == text::opt(n.genre),
        n@.status_hint == n.status_hint,
        n@.derived_state == n.derived_state,
        n@.export_pending == n.export_pending,
        n@.created_at == n.created_at,
        n@.updated_at == n.updated_at,
        s@.novel_id == s.novel_id,
        s@.name == s.name@,
        s@.url == s.url@,
        s@.priority == s.priority,
        s@.last_seen_chapter == s.last_seen_chapter,
        s@.last_synced_at == s.last_synced_at,
        c@.title == c.title@,
        c@.body == c.body@,
        c@.source_id == c.source_id,
        c@.fetched_at == c.fetched_at,
        c@.exported == c.exported,
        c@.exported_at == c.exported_at,
        source_views(v).len() == v.len(),
        source_views(v)[i].id == v[i].id,
        source_views(v)[i].name == v[i].name@,
        source_views(v)[i].url == v[i].url@,
        source_views(v)[i].priority == v[i].priority,
        source_views(v)[i].last_seen_chapter == v[i].last_seen_chapter,
        t@.id == t.id,
        t@.title == t.title@,
        t@.author == text::opt(t.author),
        t@.cover_url == text::opt(t.cover_url),
        t@.genre == text::opt(t.genre),
        t@.status_hint == t.status_hint,
        t@.derived_state == t.derived_state,
        t@.export_pending == t.export_pending,
        t@.sources == source_views(t.sources@),
        t@.chapter_count == t.chapter_count,
{
}

/// The tables hold one record for each row, under its id or its novel and number.
pub proof fn law_tables_hold_their_rows(
    novels: Map<Key, NovelRow>,
    sources: Map<Key, SourceRow>,
    chapters: Map<Key, ChapterRow>,
    id: i64,
    k: Key,
)
    ensures
        novel_recs(novels).contains_key(id) <==> novels.contains_key((id, 0u32)),
        source_recs(sources).contains_key(id) <==> sources.contains_key((id, 0u32)),
        chapter_recs(chapters).contains_key(k) <==> chapters.contains_key(k),
        novels.contains_key((id, 0u32)) ==> novel_recs(novels)[id] == novels[(id, 0u32)]@,
        sources.contains_key((id, 0u32)) ==> source_recs(sources)[id] == sources[(id, 0u32)]@,
        chapters.contains_key(k) ==> chapter_recs(chapters)[k] == chapters[k]@,
{
}

/// A setting is the one value stored under its key.
pub proof fn law_settings_are_found_by_key(v: Seq<(String, String)>, i: int)
    requires
        settings_distinct(v),
        0 <= i < v.len(),
    ensures
        settings(v).contains_key(v[i].0@),
        settings(v)[v[i].0@] == v[i].1@,
{
    assert(has_setting(v, v[i].0@));
    let j = setting_index(v, v[i].0@);
    assert(v[j].0@ == v[i].0@);
}

/// The numbers of a list of chapters are theirs, one by one.
pub proof fn law_numbers_are_the_chapters_own(v: Seq<Chapter>, i: int)
    requires
        0 <= i < v.len(),
    ensures
        chapter_numbers(v).len() == v.len(),
        chapter_numbers(v)[i] == v[i].number,
{
}

} // verus!
