//! What holds of the library across its operations.

use vstd::prelude::*;

use crate::library::{Library, NovelRec, SourceRec};
use crate::library;
use crate::model::{ChapterView, DerivedState, MetaView, NovelStatus};
use crate::store::{SourceView};
use crate::store;
use crate::table::Key;
use crate::text;
use crate::util;

verus! {

// ---------------------------------------------------------------------------
// Reading back what was written
// ---------------------------------------------------------------------------

/// Whether paragraphs survive being stored as one body: there is at least one,
/// none holds a blank line, and none but the last ends in a line break.
pub open spec fn storable(paragraphs: Seq<Seq<char>>) -> bool {
    &&& paragraphs.len() > 0
    &&& forall|i: int, j: int|
        0 <= i < paragraphs.len() ==> !text::occurs_at(
            #[trigger] paragraphs[i],
            library::paragraph_break(),
            #[trigger] mark(j),
        )
    &&& forall|i: int|
        0 <= i < paragraphs.len() - 1 ==> (#[trigger] paragraphs[i]).len() == 0
            || paragraphs[i].last() != '\n'
}

/// A position, named so that quantifiers can speak of it.
pub open spec fn mark(j: int) -> int {
    j
}

proof fn lemma_join_front(parts: Seq<Seq<char>>, sep: Seq<char>)
    requires
        parts.len() >= 2,
    ensures
        text::join(parts, sep) == parts[0] + sep + text::join(parts.drop_first(), sep),
    decreases parts.len(),
{
    let rest = parts.drop_first();
    if parts.len() == 2 {
        assert(parts.drop_last() =~= seq![parts[0]]);
        assert(rest =~= seq![parts[1]]);
        assert(text::join(parts.drop_last(), sep) == parts[0]);
        assert(text::join(rest, sep) == parts[1]);
    } else {
        lemma_join_front(parts.drop_last(), sep);
        assert(parts.drop_last().drop_first() =~= rest.drop_last());
        assert(parts.drop_last()[0] == parts[0]);
        assert(rest.last() == parts.last());
        assert(text::join(parts, sep) =~= parts[0] + sep + text::join(rest, sep));
    }
}

/// Splitting a stored body gives back the paragraphs it was made of.
pub proof fn law_paragraphs_round_trip(paragraphs: Seq<Seq<char>>)
    requires
        storable(paragraphs),
    ensures
        library::paragraphs_of(library::body_of(paragraphs)) == paragraphs,
    decreases paragraphs.len(),
{
    reveal_strlit("\n\n");
    let sep = library::paragraph_break();
    let body = library::body_of(paragraphs);
    let first = paragraphs[0];
    if paragraphs.len() == 1 {
        assert(body == first);
        assert(text::find_from(body, sep, 0) is None) by {
            text::lemma_find_from(body, sep, 0);
            if let Some(i) = text::find_from(body, sep, 0) {
                assert(!text::occurs_at(paragraphs[0], sep, mark(i)));
            }
        }
        assert(library::paragraphs_of(body) =~= paragraphs);
    } else {
        let rest = paragraphs.drop_first();
        lemma_join_front(paragraphs, sep);
        let tail = library::body_of(rest);
        assert(body == first + sep + tail);
        assert(storable(rest)) by {
            assert forall|i: int, j: int| 0 <= i < rest.len() implies !text::occurs_at(
                #[trigger] rest[i],
                sep,
                #[trigger] mark(j),
            ) by {
                assert(rest[i] == paragraphs[i + 1]);
            }
            assert forall|i: int| 0 <= i < rest.len() - 1 implies (#[trigger] rest[i]).len() == 0
                || rest[i].last() != '\n' by {
                assert(rest[i] == paragraphs[i + 1]);
            }
        }
        law_paragraphs_round_trip(rest);
        let n = first.len() as int;
        assert(text::occurs_at(body, sep, n)) by {
            assert(body.subrange(n, n + 2) =~= sep);
        }
        assert forall|i: int| 0 <= i < n implies !text::occurs_at(body, sep, i) by {
            if text::occurs_at(body, sep, i) {
                let hit = body.subrange(i, i + 2);
                assert(hit[0] == body[i] && hit[1] == body[i + 1]);
                assert(sep[0] == '\n' && sep[1] == '\n');
                assert(body[i] == first[i]);
                if i + 1 < n {
                    assert(body[i + 1] == first[i + 1]);
                    assert(first.subrange(i, i + 2) =~= sep);
                    assert(!text::occurs_at(paragraphs[0], sep, mark(i)));
                } else {
                    assert(paragraphs[0].last() == '\n');
                }
            }
        }
        text::lemma_find_from(body, sep, 0);
        assert(text::find_from(body, sep, 0) == Some(n));
        assert(body.take(n) =~= first);
        assert(body.skip(n + 2) =~= tail);
        assert(library::paragraphs_of(body) =~= seq![first] + rest);
        assert(seq![first] + rest =~= paragraphs);
    }
}

/// A chapter that was stored is read back as it was, under its number.
pub proof fn law_stored_chapter_reads_back(
    lib: Library,
    novel: i64,
    source: i64,
    c: ChapterView,
    now: i64,
)
    requires
        !lib.stored(novel).contains(c.number),
        storable(c.paragraphs),
    ensures
        lib.with_chapter(novel, source, c, now).stored(novel) == lib.stored(novel).insert(c.number),
        lib.with_chapter(novel, source, c, now).chapter(novel, c.number) == c,
{
    law_paragraphs_round_trip(c.paragraphs);
    let after = lib.with_chapter(novel, source, c, now);
    assert(after.stored(novel) =~= lib.stored(novel).insert(c.number));
    assert(after.chapter(novel, c.number) =~= c);
}

/// A chapter whose content is replaced is read back as the replacement.
pub proof fn law_replaced_chapter_reads_back(
    lib: Library,
    novel: i64,
    source: i64,
    c: ChapterView,
)
    requires
        lib.stored(novel).contains(c.number),
        storable(c.paragraphs),
    ensures
        lib.with_content(novel, source, c).chapter(novel, c.number) == c,
        lib.with_content(novel, source, c).stored(novel) == lib.stored(novel),
{
    law_paragraphs_round_trip(c.paragraphs);
    let after = lib.with_content(novel, source, c);
    assert(after.chapter(novel, c.number) =~= c);
    assert(after.stored(novel) =~= lib.stored(novel));
}

// ---------------------------------------------------------------------------
// Resuming
// ---------------------------------------------------------------------------

/// Storing a chapter whose number is taken changes nothing, so that an
/// interrupted run can be repeated.
pub proof fn law_storing_again_changes_nothing(
    lib: Library,
    novel: i64,
    first_source: i64,
    first: ChapterView,
    then: i64,
    source: i64,
    c: ChapterView,
    now: i64,
)
    requires
        c.number == first.number,
    ensures
        lib.with_chapter(novel, first_source, first, then).with_chapter(novel, source, c, now)
            == lib.with_chapter(novel, first_source, first, then),
{
}

/// Storing a chapter touches no chapter that was there.
pub proof fn law_storing_overwrites_nothing(
    lib: Library,
    novel: i64,
    source: i64,
    c: ChapterView,
    now: i64,
    k: Key,
)
    requires
        lib.chapters.contains_key(k),
    ensures
        lib.with_chapter(novel, source, c, now).chapters.contains_key(k),
        lib.with_chapter(novel, source, c, now).chapters[k] == lib.chapters[k],
{
}

// ---------------------------------------------------------------------------
// Ids and subscriptions
// ---------------------------------------------------------------------------

/// A new novel never gets the id of one that is or was in the library.
pub proof fn law_novel_ids_are_never_reused(
    lib: Library,
    removed: i64,
    meta: MetaView,
    source: Seq<char>,
    now: i64,
)
    requires
        lib.valid(),
        lib.novels.contains_key(removed),
        lib.last_novel_id < i64::MAX,
    ensures
        ({
            let after = lib.without_novel(removed).subscribed(meta, source, now);
            &&& after.last_novel_id != removed
            &&& !lib.novels.contains_key(after.last_novel_id)
            &&& after.novels.contains_key(after.last_novel_id)
            &&& !after.novels.contains_key(removed)
        }),
{
}

/// A fresh subscription waits to be filled: it holds no chapter and no gap.
pub proof fn law_subscription_starts_empty(
    lib: Library,
    meta: MetaView,
    source: Seq<char>,
    now: i64,
    n: u32,
)
    requires
        lib.valid(),
        lib.last_novel_id < i64::MAX,
    ensures
        ({
            let after = lib.subscribed(meta, source, now);
            let id = after.last_novel_id;
            &&& after.novels[id].derived_state == DerivedState::Backfilling
            &&& !after.stored(id).contains(n)
            &&& !after.gap_numbers(id).contains(n)
            &&& after.chapters == lib.chapters
        }),
{
    let id = (lib.last_novel_id + 1) as i64;
    assert(!lib.novels.contains_key(id));
}

/// A URL that is in the library cannot be subscribed to or attached again.
pub proof fn law_urls_attach_once(lib: Library, novel: i64, meta: MetaView)
    requires
        lib.has_url(meta.source_url),
    ensures
        lib.subscribe_refusal(meta) is Some,
        lib.add_source_refusal(novel, meta.source_url) is Some,
{
}

/// Removing a novel removes everything of it and nothing else.
pub proof fn law_removal_cascades(lib: Library, novel: i64, n: u32, other: i64, m: u32)
    requires
        lib.valid(),
        other != novel,
    ensures
        ({
            let after = lib.without_novel(novel);
            &&& !after.novels.contains_key(novel)
            &&& !after.stored(novel).contains(n)
            &&& !after.gap_numbers(novel).contains(n)
            &&& forall|s: i64| #[trigger]
                after.sources.contains_key(s) ==> after.sources[s].novel_id != novel
            &&& after.novels.contains_key(other) == lib.novels.contains_key(other)
            &&& after.novels.contains_key(other) ==> after.novels[other] == lib.novels[other]
            &&& after.stored(other).contains(m) == lib.stored(other).contains(m)
            &&& after.stored(other).contains(m) ==> after.chapter(other, m) == lib.chapter(
                other,
                m,
            )
        }),
{
}

// ---------------------------------------------------------------------------
// Completion and retention
// ---------------------------------------------------------------------------

/// Silence alone never makes a novel complete: the site must say so too.
pub proof fn law_silence_alone_never_completes(lib: Library, novel: i64, now: i64, days: u32)
    requires
        lib.novels[novel].status_hint != NovelStatus::Completed,
    ensures
        lib.reevaluated_state(novel, now, days) == lib.novels[novel].derived_state,
{
}

/// The label alone never makes a novel complete: a chapter within the grace
/// period keeps it live.
pub proof fn law_label_alone_never_completes(
    lib: Library,
    novel: i64,
    now: i64,
    days: u32,
    n: u32,
)
    requires
        lib.stored(novel).contains(n),
        now - lib.chapters[(novel, n)].fetched_at < days * 86_400,
    ensures
        lib.reevaluated_state(novel, now, days) == lib.novels[novel].derived_state,
{
    assert(lib.chapters.contains_key((novel, n)));
}

/// Retention never drops a chapter that is not exported, or whose novel is not
/// likely complete, and drops no novel, source or gap.
pub proof fn law_retention_keeps_what_is_needed(lib: Library, now: i64, days: u32, k: Key)
    requires
        lib.chapters.contains_key(k),
        !lib.chapters[k].exported || lib.novels[k.0].derived_state != DerivedState::LikelyComplete,
    ensures
        lib.purged(now, days).chapters.contains_key(k),
        lib.purged(now, days).chapters[k] == lib.chapters[k],
        lib.purged(now, days).novels == lib.novels,
        lib.purged(now, days).sources == lib.sources,
        lib.purged(now, days).gaps == lib.gaps,
{
}

/// A chapter that was just exported outlives any grace period but a zero one.
pub proof fn law_retention_respects_grace(lib: Library, novel: i64, n: u32, now: i64, days: u32)
    requires
        lib.stored(novel).contains(n),
        days > 0,
    ensures
        lib.exported(novel, now).purged(now, days).stored(novel).contains(n),
{
}

/// A chapter whose text or title changes is exported again.
pub proof fn law_changes_are_exported_again(
    lib: Library,
    k: Key,
    body: Seq<char>,
    title: Seq<char>,
)
    ensures
        lib.body_differs(k, body) ==> !lib.with_body(k, body).chapters[k].exported,
        lib.title_differs(k, title) ==> !lib.with_title(k, title).chapters[k].exported,
{
}

/// A refresh of a novel's metadata leaves its title, its state, its sources and all its
/// chapters alone.
pub proof fn law_a_refresh_touches_metadata_alone(
    lib: Library,
    novel: i64,
    meta: MetaView,
    now: i64,
    other: i64,
)
    requires
        lib.novels.contains_key(novel),
        other != novel,
    ensures
        ({
            let after = lib.with_meta(novel, meta, now);
            &&& after.chapters == lib.chapters
            &&& after.sources == lib.sources
            &&& after.gaps == lib.gaps
            &&& after.novels[novel].title == lib.novels[novel].title
            &&& after.novels[novel].derived_state == lib.novels[novel].derived_state
            &&& after.novels[novel].export_pending == lib.novels[novel].export_pending
            &&& after.novels.contains_key(other) == lib.novels.contains_key(other)
            &&& after.novels[other] == lib.novels[other]
        }),
{
}

// ---------------------------------------------------------------------------
// Promotion
// ---------------------------------------------------------------------------

/// Promoting a source keeps every chapter's text, and leaves the chapters of
/// the old primary with nothing to fetch again.
pub proof fn law_promotion_keeps_chapters(
    lib: Library,
    novel: i64,
    order: Seq<SourceView>,
    chosen: i64,
    k: Key,
)
    requires
        store::lists_sources(lib, novel, order),
        store::has_id(order, chosen),
        lib.chapters.contains_key(k),
    ensures
        ({
            let after = store::promoted(lib, novel, order, chosen);
            &&& after.chapters.contains_key(k)
            &&& after.chapters[k].title == lib.chapters[k].title
            &&& after.chapters[k].body == lib.chapters[k].body
            &&& after.chapters[k].exported == lib.chapters[k].exported
            &&& k.0 == novel && lib.chapters[k].source_id == Some(order[0].id)
                ==> !store::foreign_chapters(after, novel, chosen).contains(k.1)
        }),
{
}

/// After a promotion the chosen source has priority 1, every other source of the
/// novel a higher one, and those keep their order.
pub proof fn law_promotion_reorders(
    lib: Library,
    novel: i64,
    order: Seq<SourceView>,
    chosen: i64,
    i: int,
    j: int,
)
    requires
        store::lists_sources(lib, novel, order),
        store::has_id(order, chosen),
        order.len() < i64::MAX,
        0 <= i < j < order.len(),
        order[i].id != chosen,
        order[j].id != chosen,
    ensures
        ({
            let after = store::promoted(lib, novel, order, chosen);
            &&& after.sources[chosen].priority == 1
            &&& 1 < after.sources[order[i].id].priority < after.sources[order[j].id].priority
        }),
{
    store::lemma_order_distinct(lib, novel, order);
    let p = store::source_position(order, chosen);
    let x = store::source_position(order, order[i].id);
    let y = store::source_position(order, order[j].id);
    assert(order[p].id == chosen);
    assert(order[x].id == order[i].id && x == i);
    assert(order[y].id == order[j].id && y == j);
    assert(store::has_id(order, order[i].id));
    assert(store::has_id(order, order[j].id));
}

// ---------------------------------------------------------------------------
// What each operation writes
// ---------------------------------------------------------------------------

proof fn lemma_has_next_id(m: Map<i64, SourceRec>, k: int)
    requires
        k <= i64::MAX,
        forall|j: i64| #[trigger] m.contains_key(j) ==> j <= k,
    ensures
        library::is_next_id(m, library::next_id(m)),
    decreases k - i64::MIN + 1,
{
    if k < i64::MIN {
        assert(library::is_next_id(m, 1));
    } else if m.contains_key(k as i64) {
        assert(library::is_next_id(m, k + 1));
    } else {
        lemma_has_next_id(m, k - 1);
    }
}

proof fn lemma_has_last_priority(lib: Library, novel: i64, p: int)
    requires
        p <= i64::MAX,
        forall|s: i64| #[trigger]
            lib.sources.contains_key(s) && lib.sources[s].novel_id == novel
                ==> lib.sources[s].priority <= p,
    ensures
        lib.is_last_priority(novel, lib.last_priority(novel)),
    decreases p - i64::MIN + 1,
{
    if p < i64::MIN {
        assert(lib.is_last_priority(novel, 0));
    } else if exists|s: i64|
        lib.sources.contains_key(s) && (#[trigger] lib.sources[s]).novel_id == novel
            && lib.sources[s].priority == p {
        assert(lib.is_last_priority(novel, p));
    } else {
        assert forall|s: i64| #[trigger]
            lib.sources.contains_key(s) && lib.sources[s].novel_id == novel implies lib.sources[s].priority
            <= p - 1 by {
            assert(lib.sources[s].priority != p);
        }
        lemma_has_last_priority(lib, novel, p - 1);
    }
}

proof fn lemma_has_first_novel(m: Map<i64, NovelRec>, p: spec_fn(NovelRec) -> bool, id: i64)
    requires
        m.contains_key(id),
        p(m[id]),
    ensures
        library::first_novel(m, p) matches Some(f) && library::is_first_novel(m, p, f) && f <= id,
    decreases id - i64::MIN,
{
    if library::is_first_novel(m, p, id) {
        library::lemma_first_novel(m, p, id);
    } else {
        let j = choose|j: i64| #[trigger] m.contains_key(j) && j < id && p(m[j]);
        lemma_has_first_novel(m, p, j);
    }
}

/// A novel just subscribed to reads back with what its page said: title, author, cover, genre
/// and status. Its only source has the given name and address and comes first. Nothing else
/// in the library changes.
pub proof fn law_a_subscription_reads_back(
    lib: Library,
    meta: MetaView,
    source: Seq<char>,
    now: i64,
)
    requires
        lib.valid(),
        lib.subscribe_refusal(meta) is None,
    ensures
        ({
            let after = lib.subscribed(meta, source, now);
            let id = after.last_novel_id;
            &&& id == lib.last_novel_id + 1
            &&& after.novels.contains_key(id)
            &&& after.novels[id].title == meta.title
            &&& after.novels[id].author == meta.author
            &&& after.novels[id].cover_url == meta.cover_url
            &&& after.novels[id].genre == meta.genre
            &&& after.novels[id].status_hint == meta.status_hint
            &&& after.novels[id].derived_state == DerivedState::Backfilling
            &&& !after.novels[id].export_pending
            &&& after.novels[id].created_at == now
            &&& after.novels[id].updated_at == now
            &&& after.novels.remove(id) == lib.novels
            &&& exists|s: i64|
                {
                    &&& !lib.sources.contains_key(s)
                    &&& #[trigger] after.sources.contains_key(s)
                    &&& after.sources[s].novel_id == id
                    &&& after.sources[s].name == source
                    &&& after.sources[s].url == meta.source_url
                    &&& after.sources[s].priority == 1
                    &&& after.sources[s].last_seen_chapter is None
                    &&& after.sources[s].last_synced_at is None
                    &&& after.sources.remove(s) == lib.sources
                }
            &&& forall|s: i64, t: i64| #[trigger]
                after.sources.contains_key(s) && #[trigger] after.sources.contains_key(t)
                    && after.sources[s].novel_id == id && after.sources[t].novel_id == id ==> s == t
            &&& after.chapters == lib.chapters
            &&& after.gaps == lib.gaps
            &&& after.meta == lib.meta
        }),
{
    let after = lib.subscribed(meta, source, now);
    let id = after.last_novel_id;
    lemma_has_next_id(lib.sources, i64::MAX as int);
    let s = library::next_id(lib.sources) as i64;
    lemma_next_id_is_free(lib.sources);
    assert(after.sources.contains_key(s));
    assert(after.sources.remove(s) =~= lib.sources);
    assert(after.novels.remove(id) =~= lib.novels);
}

proof fn lemma_next_id_is_free(m: Map<i64, SourceRec>)
    requires
        library::next_id(m) <= i64::MAX,
    ensures
        i64::MIN <= library::next_id(m),
        !m.contains_key(library::next_id(m) as i64),
{
    lemma_has_next_id(m, i64::MAX as int);
    let n = library::next_id(m);
    if m.contains_key(n as i64) {
        assert(n as i64 == n);
    }
}

/// A subscription is refused for an address that is attached already, for a novel of the same
/// title and author, and otherwise only where no id is left.
pub proof fn law_a_work_is_followed_once(lib: Library, meta: MetaView, id: i64, s: i64)
    ensures
        lib.novels.contains_key(id) && text::lower(lib.novels[id].title) == text::lower(meta.title)
            && lib.novels[id].author == meta.author ==> lib.subscribe_refusal(meta) is Some,
        lib.sources.contains_key(s) && lib.sources[s].url == meta.source_url
            ==> lib.subscribe_refusal(meta) == Some("already subscribed to this source URL"@),
        lib.subscribe_refusal(meta) is Some ==> {
            ||| exists|t: i64|
                #[trigger] lib.sources.contains_key(t) && lib.sources[t].url == meta.source_url
            ||| exists|n: i64|
                #[trigger] lib.novels.contains_key(n) && text::lower(lib.novels[n].title)
                    == text::lower(meta.title)
            ||| lib.last_novel_id == i64::MAX
            ||| lib.sources.contains_key(i64::MAX)
        },
{
    let p = library::same_work(meta.title, meta.author);
    if lib.novels.contains_key(id) && p(lib.novels[id]) {
        lemma_has_first_novel(lib.novels, p, id);
    }
    if let Some(f) = library::first_novel(lib.novels, p) {
        assert(library::is_first_novel(lib.novels, p, f));
    }
    lemma_has_next_id(lib.sources, i64::MAX as int);
    if library::next_id(lib.sources) > i64::MAX {
        let k = choose|k: i64|
            lib.sources.contains_key(k) && k + 1 == library::next_id(lib.sources);
        assert(k == i64::MAX);
    }
    if lib.has_url(meta.source_url) {
        let t = choose|t: i64|
            lib.sources.contains_key(t) && (#[trigger] lib.sources[t]).url == meta.source_url;
        assert(lib.sources.contains_key(t));
    }
}

/// A source added to a novel has the given name and address and comes behind every source the
/// novel had; the first one of all comes first. Nothing else changes.
pub proof fn law_an_added_source_comes_last(
    lib: Library,
    novel: i64,
    name: Seq<char>,
    url: Seq<char>,
)
    requires
        lib.add_source_refusal(novel, url) is None,
    ensures
        ({
            let after = lib.with_source(novel, name, url);
            &&& exists|s: i64|
                {
                    &&& !lib.sources.contains_key(s)
                    &&& #[trigger] after.sources.contains_key(s)
                    &&& after.sources[s].novel_id == novel
                    &&& after.sources[s].name == name
                    &&& after.sources[s].url == url
                    &&& after.sources[s].last_seen_chapter is None
                    &&& after.sources[s].last_synced_at is None
                    &&& forall|t: i64| #[trigger]
                        lib.sources.contains_key(t) && lib.sources[t].novel_id == novel
                            ==> lib.sources[t].priority < after.sources[s].priority
                    &&& (forall|t: i64| #[trigger]
                        lib.sources.contains_key(t) ==> lib.sources[t].novel_id != novel)
                        ==> after.sources[s].priority == 1
                    &&& after.sources.remove(s) == lib.sources
                }
            &&& after.novels == lib.novels
            &&& after.chapters == lib.chapters
            &&& after.gaps == lib.gaps
            &&& after.meta == lib.meta
        }),
{
    let after = lib.with_source(novel, name, url);
    lemma_next_id_is_free(lib.sources);
    lemma_has_last_priority(lib, novel, i64::MAX as int);
    let s = library::next_id(lib.sources) as i64;
    assert(after.sources.contains_key(s));
    assert(after.sources.remove(s) =~= lib.sources);
    let p = lib.last_priority(novel);
    assert(i64::MIN <= p < i64::MAX);
}

/// A source is refused where its address is attached already, or the novel is not there, and
/// otherwise only where no id or priority is left.
pub proof fn law_a_source_is_refused_for_a_reason(lib: Library, novel: i64, url: Seq<char>)
    ensures
        lib.add_source_refusal(novel, url) is Some <==> {
            ||| exists|s: i64| #[trigger] lib.sources.contains_key(s) && lib.sources[s].url == url
            ||| !lib.novels.contains_key(novel)
            ||| lib.sources.contains_key(i64::MAX)
            ||| exists|s: i64|
                #[trigger] lib.sources.contains_key(s) && lib.sources[s].novel_id == novel
                    && lib.sources[s].priority == i64::MAX
        },
{
    lemma_has_next_id(lib.sources, i64::MAX as int);
    lemma_has_last_priority(lib, novel, i64::MAX as int);
    if lib.has_url(url) {
        let t = choose|t: i64| lib.sources.contains_key(t) && (#[trigger] lib.sources[t]).url == url;
        assert(lib.sources.contains_key(t));
    }
    if exists|s: i64| #[trigger] lib.sources.contains_key(s) && lib.sources[s].url == url {
        let t = choose|s: i64| #[trigger] lib.sources.contains_key(s) && lib.sources[s].url == url;
        assert(lib.sources[t].url == url);
    }
    if lib.sources.contains_key(i64::MAX) {
        assert(library::next_id(lib.sources) > i64::MAX);
    }
    if library::next_id(lib.sources) > i64::MAX {
        let k = choose|k: i64|
            lib.sources.contains_key(k) && k + 1 == library::next_id(lib.sources);
        assert(k == i64::MAX);
    }
    if lib.last_priority(novel) + 1 > i64::MAX {
        let s = choose|s: i64|
            lib.sources.contains_key(s) && (#[trigger] lib.sources[s]).novel_id == novel
                && lib.sources[s].priority == lib.last_priority(novel);
        assert(lib.sources.contains_key(s));
    }
}

/// Paragraphs are stored whole and in order, with a blank line between neighbours.
pub proof fn law_bodies_hold_every_paragraph(paragraphs: Seq<Seq<char>>, p: Seq<char>)
    ensures
        library::body_of(seq![p]) == p,
        paragraphs.len() > 0 ==> library::body_of(paragraphs.push(p)) == library::body_of(
            paragraphs,
        ) + seq!['\n', '\n'] + p,
{
    reveal_strlit("\n\n");
    assert("\n\n"@ =~= seq!['\n', '\n']);
    text::law_joining_part_by_part(paragraphs, p, library::paragraph_break());
}

/// A chapter that is stored stands under its novel and number with its title, its text, the
/// source it came from and the time it came, still to be exported. No other record changes.
pub proof fn law_a_stored_chapter_is_on_record(
    lib: Library,
    novel: i64,
    source: i64,
    c: ChapterView,
    now: i64,
)
    requires
        !lib.chapters.contains_key((novel, c.number)),
    ensures
        ({
            let k = (novel, c.number);
            let after = lib.with_chapter(novel, source, c, now);
            &&& after.chapters.contains_key(k)
            &&& after.chapters[k].title == c.title
            &&& after.chapters[k].body == text::join(c.paragraphs, seq!['\n', '\n'])
            &&& after.chapters[k].source_id == Some(source)
            &&& after.chapters[k].fetched_at == now
            &&& !after.chapters[k].exported
            &&& after.chapters[k].exported_at is None
            &&& after.chapters.remove(k) == lib.chapters
            &&& after.novels == lib.novels
            &&& after.sources == lib.sources
            &&& after.gaps == lib.gaps
            &&& after.meta == lib.meta
            &&& after.last_novel_id == lib.last_novel_id
        }),
{
    reveal_strlit("\n\n");
    assert("\n\n"@ =~= seq!['\n', '\n']);
    let after = lib.with_chapter(novel, source, c, now);
    assert(after.chapters.remove((novel, c.number)) =~= lib.chapters);
}

/// A chapter that is replaced takes over the new title, text and source, and is to be exported
/// again; when it first came stays on record. A chapter that is not stored is not added.
pub proof fn law_a_replaced_chapter_is_on_record(
    lib: Library,
    novel: i64,
    source: i64,
    c: ChapterView,
)
    ensures
        ({
            let k = (novel, c.number);
            let after = lib.with_content(novel, source, c);
            &&& after.chapters.dom() == lib.chapters.dom()
            &&& lib.chapters.contains_key(k) ==> {
                &&& after.chapters[k].title == c.title
                &&& after.chapters[k].body == text::join(c.paragraphs, seq!['\n', '\n'])
                &&& after.chapters[k].source_id == Some(source)
                &&& after.chapters[k].fetched_at == lib.chapters[k].fetched_at
                &&& !after.chapters[k].exported
                &&& after.chapters[k].exported_at is None
            }
            &&& forall|q: Key| #[trigger]
                lib.chapters.contains_key(q) && q != k ==> after.chapters[q] == lib.chapters[q]
            &&& after.novels == lib.novels
            &&& after.sources == lib.sources
            &&& after.gaps == lib.gaps
        }),
{
    reveal_strlit("\n\n");
    assert("\n\n"@ =~= seq!['\n', '\n']);
    let after = lib.with_content(novel, source, c);
    assert(after.chapters.dom() =~= lib.chapters.dom());
}

/// A new text or title of a stored chapter takes the place of the old one and touches nothing
/// but the mark that the chapter is exported. The same text or title again changes nothing.
pub proof fn law_a_rewritten_chapter_is_on_record(
    lib: Library,
    k: Key,
    body: Seq<char>,
    title: Seq<char>,
)
    ensures
        lib.with_body(k, body).chapters.dom() == lib.chapters.dom(),
        lib.with_title(k, title).chapters.dom() == lib.chapters.dom(),
        lib.chapters.contains_key(k) ==> {
            &&& lib.with_body(k, body).chapters[k].body == body
            &&& lib.with_body(k, body).chapters[k].title == lib.chapters[k].title
            &&& lib.with_body(k, body).chapters[k].source_id == lib.chapters[k].source_id
            &&& lib.with_body(k, body).chapters[k].fetched_at == lib.chapters[k].fetched_at
            &&& lib.with_title(k, title).chapters[k].title == title
            &&& lib.with_title(k, title).chapters[k].body == lib.chapters[k].body
            &&& lib.with_title(k, title).chapters[k].source_id == lib.chapters[k].source_id
            &&& lib.with_title(k, title).chapters[k].fetched_at == lib.chapters[k].fetched_at
            &&& lib.chapters[k].body == body ==> lib.with_body(k, body) == lib
            &&& lib.chapters[k].title == title ==> lib.with_title(k, title) == lib
            &&& lib.body_differs(k, body) <==> lib.chapters[k].body != body
            &&& lib.title_differs(k, title) <==> lib.chapters[k].title != title
        },
        !lib.chapters.contains_key(k) ==> !lib.body_differs(k, body) && !lib.title_differs(
            k,
            title,
        ),
        forall|q: Key|
            q != k && #[trigger] lib.chapters.contains_key(q) ==> lib.with_body(k, body).chapters[q]
                == lib.chapters[q] && lib.with_title(k, title).chapters[q] == lib.chapters[q],
        lib.with_body(k, body).novels == lib.novels,
        lib.with_body(k, body).sources == lib.sources,
        lib.with_title(k, title).novels == lib.novels,
        lib.with_title(k, title).sources == lib.sources,
{
    assert(lib.with_body(k, body).chapters.dom() =~= lib.chapters.dom());
    assert(lib.with_title(k, title).chapters.dom() =~= lib.chapters.dom());
}

/// A refresh takes over the author, cover, genre and status the page states.
pub proof fn law_a_refresh_takes_what_the_page_says(
    lib: Library,
    novel: i64,
    meta: MetaView,
    now: i64,
)
    requires
        lib.novels.contains_key(novel),
    ensures
        ({
            let after = lib.with_meta(novel, meta, now).novels[novel];
            &&& after.author == meta.author
            &&& after.cover_url == meta.cover_url
            &&& after.genre == meta.genre
            &&& after.status_hint == meta.status_hint
            &&& after.updated_at == now
            &&& after.created_at == lib.novels[novel].created_at
        }),
{
}

/// A novel's state and its pending export are set to what is given, and nothing else of it or
/// of another novel changes.
pub proof fn law_state_and_pending_are_set_alone(
    lib: Library,
    novel: i64,
    state: DerivedState,
    pending: bool,
    now: i64,
)
    requires
        lib.novels.contains_key(novel),
    ensures
        ({
            let a = lib.with_state(novel, state, now);
            let b = lib.with_pending(novel, pending);
            let n = lib.novels[novel];
            &&& a.novels == lib.novels.insert(
                novel,
                NovelRec { derived_state: state, updated_at: now, ..n },
            )
            &&& a == (Library { novels: a.novels, ..lib })
            &&& b.novels == lib.novels.insert(novel, NovelRec { export_pending: pending, ..n })
            &&& b == (Library { novels: b.novels, ..lib })
        }),
{
}

/// A source's progress is the chapter it was seen to reach and the time of it.
pub proof fn law_progress_is_on_record(lib: Library, source: i64, last_seen: u32, now: i64)
    ensures
        ({
            let after = lib.with_progress(source, last_seen, now);
            &&& lib.sources.contains_key(source) ==> {
                &&& after.sources[source].last_seen_chapter == Some(last_seen)
                &&& after.sources[source].last_synced_at == Some(now)
                &&& after.sources[source].novel_id == lib.sources[source].novel_id
                &&& after.sources[source].name == lib.sources[source].name
                &&& after.sources[source].url == lib.sources[source].url
                &&& after.sources[source].priority == lib.sources[source].priority
            }
            &&& after.sources.dom() == lib.sources.dom()
            &&& forall|s: i64|
                s != source && #[trigger] lib.sources.contains_key(s) ==> after.sources[s]
                    == lib.sources[s]
            &&& after.novels == lib.novels
            &&& after.chapters == lib.chapters
            &&& after.gaps == lib.gaps
        }),
{
    assert(lib.with_progress(source, last_seen, now).sources.dom() =~= lib.sources.dom());
}

/// A gap stays on record from when it was first seen until it is cleared, for its own chapter
/// alone.
pub proof fn law_gaps_are_kept_until_cleared(lib: Library, k: Key, now: i64)
    ensures
        lib.with_gap(k, now).gaps.contains_key(k),
        lib.with_gap(k, now).gaps.dom() == lib.gaps.dom().insert(k),
        !lib.gaps.contains_key(k) ==> lib.with_gap(k, now).gaps[k] == now,
        forall|q: Key| #[trigger]
            lib.gaps.contains_key(q) ==> lib.with_gap(k, now).gaps[q] == lib.gaps[q],
        lib.without_gap(k).gaps == lib.gaps.remove(k),
        lib.with_gap(k, now).chapters == lib.chapters,
        lib.without_gap(k).chapters == lib.chapters,
        lib.gap_numbers(k.0).contains(k.1) <==> lib.gaps.contains_key(k),
        lib.stored(k.0).contains(k.1) <==> lib.chapters.contains_key(k),
{
    assert(lib.with_gap(k, now).gaps.dom() =~= lib.gaps.dom().insert(k));
}

/// An export marks every chapter of its novel with its time, and touches no text and no other
/// novel's chapters.
pub proof fn law_an_export_marks_every_chapter(lib: Library, novel: i64, now: i64, k: Key)
    requires
        lib.chapters.contains_key(k),
    ensures
        ({
            let after = lib.exported(novel, now);
            &&& after.chapters.contains_key(k)
            &&& after.chapters.dom() == lib.chapters.dom()
            &&& k.0 == novel ==> after.chapters[k].exported && after.chapters[k].exported_at
                == Some(now)
            &&& k.0 != novel ==> after.chapters[k] == lib.chapters[k]
            &&& after.chapters[k].title == lib.chapters[k].title
            &&& after.chapters[k].body == lib.chapters[k].body
            &&& after.chapters[k].source_id == lib.chapters[k].source_id
            &&& after.chapters[k].fetched_at == lib.chapters[k].fetched_at
            &&& after.novels == lib.novels
            &&& after.sources == lib.sources
        }),
{
    assert(lib.exported(novel, now).chapters.dom() =~= lib.chapters.dom());
}

/// Retention drops a chapter of a likely complete novel once its export is so many days old,
/// and keeps it a second before.
pub proof fn law_retention_drops_what_is_due(lib: Library, now: i64, days: u32, k: Key, at: i64)
    requires
        lib.chapters.contains_key(k),
        lib.chapters[k].exported,
        lib.chapters[k].exported_at == Some(at),
        lib.novels[k.0].derived_state == DerivedState::LikelyComplete,
    ensures
        at + days * 86_400 <= now <==> !lib.purged(now, days).chapters.contains_key(k),
        at + days * 86_400 <= now <==> lib.purgeable(k, now, days),
{
}

/// A live novel that is labelled complete and has been silent for so many days is likely
/// complete; no other novel changes its state by this.
pub proof fn law_label_and_silence_complete_a_live_novel(
    lib: Library,
    novel: i64,
    now: i64,
    days: u32,
    n: u32,
)
    ensures
        lib.novels[novel].derived_state == DerivedState::Live && lib.novels[novel].status_hint
            == NovelStatus::Completed && lib.chapters.contains_key((novel, n)) && (forall|m: u32|
         #[trigger]
            lib.chapters.contains_key((novel, m)) ==> lib.chapters[(novel, m)].fetched_at + days
                * 86_400 <= now) ==> lib.reevaluated_state(novel, now, days)
            == DerivedState::LikelyComplete,
        lib.novels[novel].derived_state != DerivedState::Live ==> lib.reevaluated_state(
            novel,
            now,
            days,
        ) == lib.novels[novel].derived_state,
        lib.reevaluated_state(novel, now, days) != lib.novels[novel].derived_state
            ==> lib.reevaluated_state(novel, now, days) == DerivedState::LikelyComplete,
{
}

/// Removing a novel takes its own records and no other's: every source, chapter and gap of
/// another novel stays as it was.
pub proof fn law_removal_touches_no_other_novel(lib: Library, novel: i64, s: i64, k: Key)
    ensures
        ({
            let after = lib.without_novel(novel);
            &&& after.novels == lib.novels.remove(novel)
            &&& after.sources.contains_key(s) <==> lib.sources.contains_key(s)
                && lib.sources[s].novel_id != novel
            &&& after.sources.contains_key(s) ==> after.sources[s] == lib.sources[s]
            &&& after.chapters.contains_key(k) <==> lib.chapters.contains_key(k) && k.0 != novel
            &&& after.chapters.contains_key(k) ==> after.chapters[k] == lib.chapters[k]
            &&& after.gaps.contains_key(k) <==> lib.gaps.contains_key(k) && k.0 != novel
            &&& after.meta == lib.meta
            &&& after.last_novel_id == lib.last_novel_id
        }),
{
}

/// A removal is refused exactly where another novel holds a chapter from one of its sources.
pub proof fn law_lent_sources_keep_a_novel(lib: Library, novel: i64)
    ensures
        lib.lends_sources(novel) <==> exists|k: Key|
            {
                &&& #[trigger] lib.chapters.contains_key(k)
                &&& k.0 != novel
                &&& lib.chapters[k].source_id is Some
                &&& lib.sources[lib.chapters[k].source_id->0].novel_id == novel
            },
{
    if lib.lends_sources(novel) {
        let k = choose|k: Key| #[trigger]
            lib.chapters.contains_key(k) && k.0 != novel && lib.comes_from(k, novel);
        assert(lib.chapters.contains_key(k));
    }
    if exists|k: Key|
        {
            &&& #[trigger] lib.chapters.contains_key(k)
            &&& k.0 != novel
            &&& lib.chapters[k].source_id is Some
            &&& lib.sources[lib.chapters[k].source_id->0].novel_id == novel
        } {
        let k = choose|k: Key|
            {
                &&& #[trigger] lib.chapters.contains_key(k)
                &&& k.0 != novel
                &&& lib.chapters[k].source_id is Some
                &&& lib.sources[lib.chapters[k].source_id->0].novel_id == novel
            };
        assert(lib.comes_from(k, novel));
    }
}

/// A novel is shown with what the library holds of it: its record, its sources by priority with
/// the lowest first, and the number of its chapters.
pub proof fn law_a_novel_is_shown_as_stored(lib: Library, v: store::NovelView, i: int, s: i64)
    requires
        store::shows(lib, v),
    ensures
        lib.novels.contains_key(v.id),
        v.title == lib.novels[v.id].title,
        v.author == lib.novels[v.id].author,
        v.cover_url == lib.novels[v.id].cover_url,
        v.genre == lib.novels[v.id].genre,
        v.status_hint == lib.novels[v.id].status_hint,
        v.derived_state == lib.novels[v.id].derived_state,
        v.export_pending == lib.novels[v.id].export_pending,
        v.chapter_count == lib.stored(v.id).len(),
        0 <= i < v.sources.len() ==> {
            &&& lib.sources.contains_key(v.sources[i].id)
            &&& lib.sources[v.sources[i].id].novel_id == v.id
            &&& v.sources[i].name == lib.sources[v.sources[i].id].name
            &&& v.sources[i].url == lib.sources[v.sources[i].id].url
            &&& v.sources[i].priority == lib.sources[v.sources[i].id].priority
            &&& v.sources[i].last_seen_chapter == lib.sources[v.sources[i].id].last_seen_chapter
        },
        0 < i < v.sources.len() ==> v.sources[i - 1].priority < v.sources[i].priority || (
        v.sources[i - 1].priority == v.sources[i].priority && v.sources[i - 1].id
            < v.sources[i].id),
        lib.sources.contains_key(s) && lib.sources[s].novel_id == v.id ==> exists|j: int|
            0 <= j < v.sources.len() && (#[trigger] v.sources[j]).id == s,
{
    if 0 < i < v.sources.len() {
        assert(store::ranks_before(v.sources[i - 1], v.sources[i]));
    }
    if lib.sources.contains_key(s) && lib.sources[s].novel_id == v.id {
        assert(store::has_id(v.sources, s));
    }
}

/// A selector that is a known id names that novel; any other names the first novel of that
/// title, in any ASCII case.
pub proof fn law_a_selector_names_an_id_or_a_title(lib: Library, selector: Seq<char>, id: i64)
    ensures
        text::parsed_int(selector) == Some(id as int) && lib.novels.contains_key(id)
            ==> store::selected(lib, selector) == Some(id),
        text::parsed_int(selector) is None && lib.novels.contains_key(id) && text::lower(
            lib.novels[id].title,
        ) == text::lower(selector) ==> (store::selected(lib, selector) matches Some(f) && f <= id),
        store::selected(lib, selector) matches Some(f) ==> lib.novels.contains_key(f) && (
        text::parsed_int(selector) == Some(f as int) || text::lower(lib.novels[f].title)
            == text::lower(selector)),
{
    let p = library::titled(selector);
    if lib.novels.contains_key(id) && p(lib.novels[id]) {
        lemma_has_first_novel(lib.novels, p, id);
    }
    if let Some(f) = library::first_novel(lib.novels, p) {
        assert(library::is_first_novel(lib.novels, p, f));
    }
}

/// A source's address finds its novel, with or without a final slash.
pub proof fn law_an_address_finds_its_novel(lib: Library, s: i64, url: Seq<char>)
    requires
        lib.valid(),
        lib.sources.contains_key(s),
    ensures
        lib.sources[s].url == url ==> store::lenient_url_owner(lib, url) == Some(
            lib.sources[s].novel_id,
        ),
        store::lenient_url_owner(lib, url) matches Some(id) ==> exists|t: i64|
            {
                &&& #[trigger] lib.sources.contains_key(t)
                &&& lib.sources[t].novel_id == id
                &&& {
                    ||| lib.sources[t].url == url
                    ||| lib.sources[t].url == text::without_trailing(url, '/')
                    ||| lib.sources[t].url == text::without_trailing(url, '/').push('/')
                }
            },
        !lib.has_url(url) && lib.sources[s].url == text::without_trailing(url, '/')
            ==> store::lenient_url_owner(lib, url) == Some(lib.sources[s].novel_id),
        !lib.has_url(url) && !lib.has_url(text::without_trailing(url, '/')) && lib.sources[s].url
            == text::without_trailing(url, '/').push('/') ==> store::lenient_url_owner(lib, url)
            == Some(lib.sources[s].novel_id),
{
    reveal_strlit("/");
    let bare = text::without_trailing(url, '/');
    assert(bare + "/"@ =~= bare.push('/'));
    lemma_url_owner(lib, url);
    lemma_url_owner(lib, bare);
    lemma_url_owner(lib, bare.push('/'));
    if lib.sources[s].url == url || lib.sources[s].url == bare || lib.sources[s].url == bare.push(
        '/',
    ) {
        assert(lib.has_url(lib.sources[s].url));
    }
}

proof fn lemma_url_owner(lib: Library, url: Seq<char>)
    requires
        lib.valid(),
    ensures
        store::url_owner(lib, url) is Some == lib.has_url(url),
        forall|s: i64| #[trigger]
            lib.sources.contains_key(s) && lib.sources[s].url == url ==> store::url_owner(lib, url)
                == Some(lib.sources[s].novel_id),
        store::url_owner(lib, url) matches Some(id) ==> exists|t: i64| #[trigger]
            lib.sources.contains_key(t) && lib.sources[t].url == url && lib.sources[t].novel_id
                == id,
{
    if lib.has_url(url) {
        let t = choose|s: i64|
            lib.sources.contains_key(s) && (#[trigger] lib.sources[s]).url == url;
        assert(lib.sources.contains_key(t));
    }
}

/// A title finds the first novel whose title has the same letters and digits.
pub proof fn law_a_title_finds_its_novel(lib: Library, title: Seq<char>, id: i64)
    ensures
        util::normalized(title).len() > 0 && lib.novels.contains_key(id) && util::normalized(
            lib.novels[id].title,
        ) == util::normalized(title) ==> (store::with_normalized_title(lib, title) matches Some(f)
            && f <= id),
        store::with_normalized_title(lib, title) matches Some(f) ==> lib.novels.contains_key(f)
            && util::normalized(lib.novels[f].title) == util::normalized(title),
        util::normalized(title).len() == 0 ==> store::with_normalized_title(lib, title) is None,
{
    let p = library::normalized_to(util::normalized(title));
    if lib.novels.contains_key(id) && p(lib.novels[id]) {
        lemma_has_first_novel(lib.novels, p, id);
    }
    if let Some(f) = library::first_novel(lib.novels, p) {
        assert(library::is_first_novel(lib.novels, p, f));
    }
}

/// A source moves to a new address only where no other source has it and it is there.
pub proof fn law_repointing_is_refused_for_a_reason(lib: Library, source: i64, url: Seq<char>)
    ensures
        store::repoint_refusal(lib, source, url) is Some <==> {
            ||| !lib.sources.contains_key(source)
            ||| exists|s: i64| #[trigger]
                lib.sources.contains_key(s) && s != source && lib.sources[s].url == url
        },
{
    if store::attached_elsewhere(lib, source, url) {
        let t = choose|s: i64|
            lib.sources.contains_key(s) && s != source && (#[trigger] lib.sources[s]).url == url;
        assert(lib.sources.contains_key(t));
    }
    if exists|s: i64| #[trigger]
        lib.sources.contains_key(s) && s != source && lib.sources[s].url == url {
        let t = choose|s: i64| #[trigger]
            lib.sources.contains_key(s) && s != source && lib.sources[s].url == url;
        assert(lib.sources[t].url == url);
    }
}

/// Promotion gives every source of the novel its place: the chosen one the first, and the
/// others the places behind it in the order they had. The chapters of the former primary count
/// as the chosen one's, and those of the other sources stay where they were.
pub proof fn law_promotion_places_every_source(
    lib: Library,
    novel: i64,
    order: Seq<SourceView>,
    chosen: int,
    i: int,
    k: Key,
)
    requires
        store::lists_sources(lib, novel, order),
        0 <= chosen < order.len(),
        order.len() < i64::MAX,
        0 <= i < order.len(),
    ensures
        ({
            let after = store::promoted(lib, novel, order, order[chosen].id);
            let moved = after.sources[order[i].id];
            &&& moved.priority == if i == chosen {
                1
            } else if i < chosen {
                i + 2
            } else {
                i + 1
            }
            &&& moved.name == lib.sources[order[i].id].name
            &&& moved.url == lib.sources[order[i].id].url
            &&& moved.novel_id == novel
            &&& moved.last_seen_chapter == lib.sources[order[i].id].last_seen_chapter
            &&& after.sources.dom() == lib.sources.dom()
            &&& forall|s: i64| #[trigger]
                lib.sources.contains_key(s) && lib.sources[s].novel_id != novel ==> after.sources[s]
                    == lib.sources[s]
            &&& after.chapters.dom() == lib.chapters.dom()
            &&& lib.chapters.contains_key(k) ==> after.chapters[k].source_id == (if k.0 == novel
                && lib.chapters[k].source_id == Some(order[0].id) {
                Some(order[chosen].id)
            } else {
                lib.chapters[k].source_id
            })
            &&& after.novels == lib.novels
            &&& after.gaps == lib.gaps
        }),
{
    let after = store::promoted(lib, novel, order, order[chosen].id);
    store::lemma_order_distinct(lib, novel, order);
    assert(store::has_id(order, order[i].id));
    assert(store::has_id(order, order[chosen].id));
    let p = store::source_position(order, order[chosen].id);
    let x = store::source_position(order, order[i].id);
    assert(order[p].id == order[chosen].id && p == chosen);
    assert(order[x].id == order[i].id && x == i);
    assert(after.sources.dom() =~= lib.sources.dom());
    assert(after.chapters.dom() =~= lib.chapters.dom());
    assert forall|s: i64| #[trigger]
        lib.sources.contains_key(s) && lib.sources[s].novel_id != novel implies after.sources[s]
        == lib.sources[s] by {
        if store::has_id(order, s) {
            let y = choose|y: int| 0 <= y < order.len() && (#[trigger] order[y]).id == s;
            assert(order[y].id == s);
        }
    }
}

/// The primary source is one with the lowest priority, and the first of those.
pub proof fn law_the_primary_is_the_first_of_the_lowest(v: Seq<SourceView>, i: int)
    requires
        0 <= i < v.len(),
    ensures
        0 <= store::primary_index(v) < v.len(),
        v[store::primary_index(v)].priority <= v[i].priority,
        i < store::primary_index(v) ==> v[store::primary_index(v)].priority < v[i].priority,
    decreases v.len(),
{
    if v.len() > 1 {
        let t = v.drop_last();
        let j = store::primary_index(t);
        law_the_primary_is_the_first_of_the_lowest(t, if i < t.len() {
            i
        } else {
            0
        });
        assert(t[j] == v[j]);
        if i < t.len() {
            assert(t[i] == v[i]);
        }
    }
}

/// A chapter is short if what stands before its first NUL has fewer characters than asked for.
pub proof fn law_short_chapters_are_the_short_ones(
    lib: Library,
    novel: i64,
    n: u32,
    max: usize,
)
    requires
        lib.chapters.contains_key((novel, n)),
        forall|i: int|
            0 <= i < lib.chapters[(novel, n)].body.len() ==> #[trigger] lib.chapters[(
                novel,
                n,
            )].body[i] != '\0',
        max <= i64::MAX,
    ensures
        store::short_chapter(lib, novel, n, max) <==> lib.chapters[(novel, n)].body.len() < max,
{
    let b = lib.chapters[(novel, n)].body;
    text::lemma_span(b, text::not('\0'));
    let k = text::span(b, text::not('\0'));
    if k < b.len() {
        assert(!text::not('\0')(b[k]));
    }
}

/// The chapters from elsewhere are those whose record names another source or none.
pub proof fn law_foreign_chapters_came_from_elsewhere(
    lib: Library,
    novel: i64,
    source: i64,
    n: u32,
)
    ensures
        store::foreign_chapters(lib, novel, source).contains(n) <==> lib.chapters.contains_key(
            (novel, n),
        ) && lib.chapters[(novel, n)].source_id != Some(source),
{
}

/// Reading a stored text as paragraphs loses nothing of it.
pub proof fn law_reading_paragraphs_loses_nothing(body: Seq<char>)
    ensures
        library::body_of(library::paragraphs_of(body)) == body,
        library::paragraphs_of(body).len() > 0,
    decreases body.len(),
{
    reveal_strlit("\n\n");
    let sep = library::paragraph_break();
    text::lemma_find_from(body, sep, 0);
    let parts = library::paragraphs_of(body);
    match text::find_from(body, sep, 0) {
        None => {
            assert(parts =~= seq![body]);
        },
        Some(i) => {
            let rest = body.skip(i + sep.len());
            law_reading_paragraphs_loses_nothing(rest);
            let tail = library::paragraphs_of(rest);
            assert(parts =~= seq![body.take(i)] + tail);
            assert(parts.drop_first() =~= tail);
            lemma_join_front(parts, sep);
            assert(body.subrange(i, i + sep.len()) == sep);
            assert(body =~= body.take(i) + sep + rest);
        },
    }
}

/// A stored paragraph holds no blank line.
pub proof fn law_paragraphs_hold_no_blank_line(body: Seq<char>, k: int, j: int)
    requires
        0 <= k < library::paragraphs_of(body).len(),
        0 <= j,
    ensures
        !text::occurs_at(library::paragraphs_of(body)[k], seq!['\n', '\n'], j),
    decreases body.len(),
{
    reveal_strlit("\n\n");
    assert("\n\n"@ =~= seq!['\n', '\n']);
    let sep = library::paragraph_break();
    text::lemma_find_from(body, sep, 0);
    match text::find_from(body, sep, 0) {
        None => {},
        Some(i) => {
            let first = body.take(i);
            if k == 0 {
                if text::occurs_at(first, sep, j) {
                    assert(first.subrange(j, j + 2) =~= body.subrange(j, j + 2));
                    assert(text::occurs_at(body, sep, j));
                }
            } else {
                law_paragraphs_hold_no_blank_line(body.skip(i + sep.len()), k - 1, j);
            }
        },
    }
}

/// A source is shown with what the library records of it.
pub proof fn law_a_source_is_shown_as_stored(lib: Library, id: i64)
    ensures
        store::source_view(lib, id).id == id,
        store::source_view(lib, id).name == lib.sources[id].name,
        store::source_view(lib, id).url == lib.sources[id].url,
        store::source_view(lib, id).priority == lib.sources[id].priority,
        store::source_view(lib, id).last_seen_chapter == lib.sources[id].last_seen_chapter,
{
}

/// A stored chapter is read with its number, its title, and its text as paragraphs.
pub proof fn law_a_chapter_is_read_as_stored(lib: Library, novel: i64, n: u32)
    ensures
        lib.chapter(novel, n).number == n,
        lib.chapter(novel, n).title == lib.chapters[(novel, n)].title,
        text::join(lib.chapter(novel, n).paragraphs, seq!['\n', '\n']) == lib.chapters[(
            novel,
            n,
        )].body,
{
    reveal_strlit("\n\n");
    assert("\n\n"@ =~= seq!['\n', '\n']);
    law_reading_paragraphs_loses_nothing(lib.chapters[(novel, n)].body);
}

/// Promotion asks for one of the novel's sources; the one that leads already stays, and nothing
/// changes.
pub proof fn law_promotion_is_for_the_novels_own_sources(
    lib: Library,
    novel: i64,
    order: Seq<SourceView>,
    source: i64,
)
    requires
        order == store::source_order(lib, novel),
        store::lists_sources(lib, novel, order),
    ensures
        !(lib.sources.contains_key(source) && lib.sources[source].novel_id == novel)
            ==> store::promotion(lib, novel, source) is None,
        order.len() > 0 && order[0].id == source ==> store::promotion(lib, novel, source) == Some(
            lib,
        ),
        lib.sources.contains_key(source) && lib.sources[source].novel_id == novel && order[0].id
            != source && order.len() < i64::MAX ==> store::promotion(lib, novel, source) == Some(
            store::promoted(lib, novel, order, source),
        ),
{
    if store::has_id(order, source) {
        let i = choose|i: int| 0 <= i < order.len() && (#[trigger] order[i]).id == source;
        assert(order[i].id == source);
    }
    if order.len() > 0 && order[0].id == source {
        assert(store::has_id(order, source));
    }
}

/// A chapter whose export has no time on record is kept, and so is every chapter that was not
/// exported.
pub proof fn law_retention_needs_the_time_of_the_export(
    lib: Library,
    now: i64,
    days: u32,
    k: Key,
)
    requires
        lib.chapters.contains_key(k),
        !lib.chapters[k].exported || lib.chapters[k].exported_at is None,
    ensures
        lib.purged(now, days).chapters.contains_key(k),
        !lib.purgeable(k, now, days),
{
}

/// A live novel without chapters that is labelled complete counts as silent since the epoch.
pub proof fn law_a_novel_without_chapters_is_silent_since_the_epoch(
    lib: Library,
    novel: i64,
    now: i64,
    days: u32,
)
    requires
        lib.novels[novel].derived_state == DerivedState::Live,
        lib.novels[novel].status_hint == NovelStatus::Completed,
        forall|n: u32| !#[trigger] lib.chapters.contains_key((novel, n)),
    ensures
        lib.reevaluated_state(novel, now, days) == DerivedState::LikelyComplete <==> now >= days
            * 86_400,
{
}

/// The new ids follow the highest that was ever handed out, for novels, and the highest in use, for
/// sources.
pub proof fn law_new_ids_are_above_those_in_use(lib: Library, s: i64)
    requires
        lib.sources.contains_key(s),
    ensures
        library::next_id(lib.sources) > s,
        exists|t: i64|
            #[trigger] lib.sources.contains_key(t) && t + 1 == library::next_id(lib.sources),
{
    lemma_has_next_id(lib.sources, i64::MAX as int);
    let n = library::next_id(lib.sources);
    let t = choose|t: i64| lib.sources.contains_key(t) && t + 1 == n;
    assert(lib.sources.contains_key(t));
}

} // verus!
