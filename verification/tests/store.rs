use std::collections::BTreeSet;

use vesper::store::{ChapterRow, NovelRow, SourceRow};
use vesper::table::Table;
use vesper::{Chapter, DerivedState, NovelMeta, NovelStatus, Store};

/// The rows of a library written before novel ids came from a counter: the
/// counter is then taken from the highest id.
fn legacy_store() -> Store {
    let mut novels = Table::new();
    novels.insert((1, 0), novel_row("First", "Ann", NovelStatus::Ongoing, DerivedState::Live));
    novels.insert(
        (5, 0),
        novel_row("Second", "Bo", NovelStatus::Completed, DerivedState::LikelyComplete),
    );
    let mut sources = Table::new();
    sources.insert((1, 0), source_row(1, "https://example.com/a.html"));
    sources.insert((2, 0), source_row(5, "https://example.com/b.html"));
    let mut chapters = Table::new();
    chapters.insert((1, 1), chapter_row("One", 1));
    chapters.insert((5, 1), chapter_row("One", 2));
    chapters.insert((5, 2), chapter_row("Two", 2));
    let mut gaps = Table::new();
    gaps.insert((5, 3), 100);
    Store::from_rows(novels, sources, chapters, gaps, Vec::new(), 0).unwrap()
}

fn novel_row(title: &str, author: &str, hint: NovelStatus, state: DerivedState) -> NovelRow {
    NovelRow {
        title: title.to_string(),
        author: Some(author.to_string()),
        cover_url: None,
        genre: None,
        status_hint: hint,
        derived_state: state,
        export_pending: false,
        created_at: 100,
        updated_at: 100,
    }
}

fn source_row(novel_id: i64, url: &str) -> SourceRow {
    SourceRow {
        novel_id,
        name: "example".to_string(),
        url: url.to_string(),
        priority: 1,
        last_seen_chapter: None,
        last_synced_at: None,
    }
}

fn chapter_row(title: &str, source_id: i64) -> ChapterRow {
    ChapterRow {
        title: title.to_string(),
        body: "body".to_string(),
        source_id: Some(source_id),
        fetched_at: 100,
        exported: false,
        exported_at: None,
    }
}

#[test]
fn legacy_db_gains_autoincrement_without_losing_data() {
    let s = legacy_store();
    assert_eq!(s.last_novel_id(), 5, "the counter starts at the highest id");

    let ids: Vec<i64> = s.list_subscriptions().iter().map(|n| n.id).collect();
    assert_eq!(ids, vec![1, 5]);

    assert_eq!(s.load_chapters(1).len(), 1);
    assert_eq!(s.load_chapters(5).len(), 2);
    assert_eq!(s.unfilled_gaps(5), BTreeSet::from([3]));
    let novel = s.find_novel("5").unwrap();
    assert_eq!(novel.author.as_deref(), Some("Bo"));
    assert_eq!(novel.sources.len(), 1);
    assert_eq!(novel.derived_state, DerivedState::LikelyComplete);
}

#[test]
fn cascade_still_works_after_the_rebuild() {
    let mut s = legacy_store();
    s.remove_subscription(5).unwrap();
    assert!(s.load_chapters(5).is_empty());
    assert!(s.unfilled_gaps(5).is_empty());
    assert_eq!(s.load_chapters(1).len(), 1);
}

#[test]
fn top_id_is_never_reused_after_unsubscribe() {
    let mut s = Store::open_in_memory();
    let a = s.subscribe(&sample_meta("https://example.com/a.html"), "example").unwrap();
    let mut second = sample_meta("https://example.com/b.html");
    second.title = "Another Novel".into();
    let b = s.subscribe(&second, "example").unwrap();
    assert_eq!((a, b), (1, 2));

    s.remove_subscription(b).unwrap();
    let mut third = sample_meta("https://example.com/c.html");
    third.title = "Third Novel".into();
    let c = s.subscribe(&third, "example").unwrap();
    assert_eq!(c, 3, "id {b} was handed out twice");
}

#[test]
fn migrated_db_continues_past_the_old_maximum() {
    let mut s = legacy_store();
    let mut fresh = sample_meta("https://example.com/new.html");
    fresh.title = "Brand New".into();
    assert_eq!(s.subscribe(&fresh, "example").unwrap(), 6);
}

fn sample_meta(url: &str) -> NovelMeta {
    NovelMeta {
        title: "Test Novel".into(),
        author: Some("An Author".into()),
        cover_url: None,
        genre: None,
        status_hint: NovelStatus::Ongoing,
        source_url: url.into(),
    }
}

fn chapter(n: u32) -> Chapter {
    Chapter {
        number: n,
        title: format!("Chapter {n}"),
        paragraphs: vec!["Para one.".into(), "Para two.".into()],
    }
}

#[test]
fn subscribe_creates_novel_and_primary_source() {
    let mut s = Store::open_in_memory();
    let id = s.subscribe(&sample_meta("https://example.com/a.html"), "example").unwrap();
    let novel = s.find_novel(&id.to_string()).unwrap();
    assert_eq!(novel.title, "Test Novel");
    assert_eq!(novel.sources.len(), 1);
    assert_eq!(novel.primary_source().unwrap().priority, 1);
    assert_eq!(novel.derived_state, DerivedState::Backfilling);
}

#[test]
fn duplicate_url_is_rejected() {
    let mut s = Store::open_in_memory();
    s.subscribe(&sample_meta("https://example.com/a.html"), "example").unwrap();
    let err = s.subscribe(&sample_meta("https://example.com/a.html"), "example").unwrap_err();
    assert!(err.contains("already subscribed"));
}

#[test]
fn subscriptions_list_in_id_order() {
    let mut s = Store::open_in_memory();
    let mut zed = sample_meta("https://example.com/z.html");
    zed.title = "Zebra Chronicles".into();
    let mut abe = sample_meta("https://example.com/a.html");
    abe.title = "Abacus Diaries".into();

    let first = s.subscribe(&zed, "example").unwrap();
    let second = s.subscribe(&abe, "example").unwrap();

    let ids: Vec<i64> = s.list_subscriptions().iter().map(|n| n.id).collect();
    assert_eq!(ids, vec![first, second]);
}

#[test]
fn normalized_title_matches_across_formatting() {
    let mut s = Store::open_in_memory();
    let id = s.subscribe(&sample_meta("https://example.com/a.html"), "example").unwrap();
    let found = s.find_novel_by_normalized_title("test-novel!");
    assert_eq!(found.map(|n| n.id), Some(id));
    assert!(s.find_novel_by_normalized_title("Other Story").is_none());
}

#[test]
fn chapters_insert_is_idempotent_for_resume() {
    let mut s = Store::open_in_memory();
    let id = s.subscribe(&sample_meta("https://example.com/a.html"), "example").unwrap();
    let src = s.find_novel(&id.to_string()).unwrap().primary_source().unwrap().id;

    assert!(s.insert_chapter_if_absent(id, src, &chapter(1)).unwrap());
    assert!(!s.insert_chapter_if_absent(id, src, &chapter(1)).unwrap());
    assert!(s.insert_chapter_if_absent(id, src, &chapter(2)).unwrap());

    assert_eq!(s.stored_chapter_numbers(id), [1, 2].into_iter().collect());
    let loaded = s.load_chapters(id);
    assert_eq!(loaded.len(), 2);
    assert_eq!(loaded[0].paragraphs, vec!["Para one.", "Para two."]);
}

#[test]
fn retitle_overwrites_and_marks_for_re_export() {
    let mut s = Store::open_in_memory();
    let id = s.subscribe(&sample_meta("https://example.com/a.html"), "example").unwrap();
    let src = s.find_novel(&id.to_string()).unwrap().primary_source().unwrap().id;
    s.insert_chapter_if_absent(id, src, &chapter(1)).unwrap();
    s.mark_all_exported(id);

    assert!(s.update_chapter_title(id, 1, "The Three Wives"));
    assert_eq!(s.load_chapters(id)[0].title, "The Three Wives");
    assert_eq!(s.load_chapters(id)[0].paragraphs, vec!["Para one.", "Para two."]);

    assert!(!s.update_chapter_title(id, 1, "The Three Wives"));
    assert!(!s.update_chapter_title(id, 99, "Nope"));
}

#[test]
fn add_source_appends_at_next_priority() {
    let mut s = Store::open_in_memory();
    let id = s.subscribe(&sample_meta("https://example.com/a.html"), "example").unwrap();
    s.add_source(id, "othersite", "https://other.example/a.html").unwrap();

    let novel = s.find_novel(&id.to_string()).unwrap();
    assert_eq!(novel.sources.len(), 2);
    assert_eq!(novel.primary_source().unwrap().priority, 1);
    let fallback = novel.sources.iter().find(|s| s.priority == 2).unwrap();
    assert_eq!(fallback.name, "othersite");

    let err = s
        .add_source(id, "example", "https://example.com/a.html")
        .unwrap_err();
    assert!(err.contains("already in the library"));
}

#[test]
fn promote_makes_a_fallback_primary_and_keeps_the_rest_in_order() {
    let mut s = Store::open_in_memory();
    let id = s.subscribe(&sample_meta("https://example.com/a.html"), "example").unwrap();
    s.add_source(id, "freewebnovel", "https://freewebnovel.com/novel/a").unwrap();
    s.add_source(id, "royalroad", "https://royalroad.com/fiction/1/a").unwrap();

    let fwn = s.find_novel(&id.to_string()).unwrap().sources[1].id;
    assert!(s.promote_source(id, fwn).unwrap());

    let novel = s.find_novel(&id.to_string()).unwrap();
    assert_eq!(novel.primary_source().unwrap().name, "freewebnovel");
    let order: Vec<&str> = novel.sources.iter().map(|s| s.name.as_str()).collect();
    assert_eq!(order, vec!["freewebnovel", "example", "royalroad"]);
    assert_eq!(novel.sources.iter().map(|s| s.priority).collect::<Vec<_>>(), vec![1, 2, 3]);

    assert!(!s.promote_source(id, fwn).unwrap());
}

#[test]
fn promote_does_not_leave_stored_chapters_pending_re_download() {
    let mut s = Store::open_in_memory();
    let id = s.subscribe(&sample_meta("https://example.com/a.html"), "example").unwrap();
    let old_primary = primary_source_id(&s, id);
    s.add_source(id, "freewebnovel", "https://freewebnovel.com/novel/a").unwrap();
    for n in 1..=3 {
        s.insert_chapter_if_absent(id, old_primary, &chapter(n)).unwrap();
    }
    let fwn = s.find_novel(&id.to_string()).unwrap().sources[1].id;

    assert!(s.chapters_from_other_sources(id, old_primary).is_empty());

    s.promote_source(id, fwn).unwrap();

    assert!(
        s.chapters_from_other_sources(id, fwn).is_empty(),
        "chapters were re-attributed, so the upgrade pass has nothing to do"
    );
    assert_eq!(s.load_chapters(id).len(), 3);
    assert_eq!(s.load_chapters(id)[0].paragraphs, vec!["Para one.", "Para two."]);
}

#[test]
fn promote_rejects_a_source_from_another_novel() {
    let mut s = Store::open_in_memory();
    let a = s.subscribe(&sample_meta("https://example.com/a.html"), "example").unwrap();
    let mut other = sample_meta("https://example.com/b.html");
    other.title = "Other Novel".into();
    let b = s.subscribe(&other, "example").unwrap();
    let b_source = primary_source_id(&s, b);

    let err = s.promote_source(a, b_source).unwrap_err();
    assert!(err.contains("does not belong"), "{err}");
    assert_eq!(s.find_novel(&b.to_string()).unwrap().sources[0].priority, 1);
}

#[test]
fn finds_a_subscription_by_its_source_url() {
    let mut s = Store::open_in_memory();
    let id = s
        .subscribe(&sample_meta("https://example.com/a.html"), "example")
        .unwrap();

    assert_eq!(
        s.find_novel_by_source_url("https://example.com/a.html").map(|n| n.id),
        Some(id)
    );
    assert_eq!(
        s.find_novel_by_source_url("https://example.com/a.html/").map(|n| n.id),
        Some(id)
    );
    assert!(s
        .find_novel_by_source_url("https://example.com/never-seen.html")
        .is_none());
}

#[test]
fn find_by_title_is_case_insensitive() {
    let mut s = Store::open_in_memory();
    s.subscribe(&sample_meta("https://example.com/a.html"), "example").unwrap();
    assert!(s.find_novel("test novel").is_some());
    assert!(s.find_novel("NONEXISTENT").is_none());
}

fn completed_meta(url: &str) -> NovelMeta {
    NovelMeta {
        title: "Done Novel".into(),
        author: Some("A".into()),
        cover_url: None,
        genre: None,
        status_hint: NovelStatus::Completed,
        source_url: url.into(),
    }
}

fn primary_source_id(s: &Store, id: i64) -> i64 {
    s.find_novel(&id.to_string())
        .unwrap()
        .primary_source()
        .unwrap()
        .id
}

#[test]
fn retention_purges_only_exported_likely_complete_chapters() {
    let mut s = Store::open_in_memory();
    let id = s.subscribe(&sample_meta("https://example.com/a.html"), "example").unwrap();
    let src = primary_source_id(&s, id);
    s.insert_chapter_if_absent(id, src, &chapter(1)).unwrap();
    s.insert_chapter_if_absent(id, src, &chapter(2)).unwrap();

    assert_eq!(s.apply_retention(0), 0);

    s.mark_all_exported(id);
    assert_eq!(s.apply_retention(0), 0);

    s.set_derived_state(id, DerivedState::LikelyComplete);
    assert_eq!(s.apply_retention(0), 2);
    assert!(s.stored_chapter_numbers(id).is_empty());
}

#[test]
fn retention_never_purges_unexported_chapters() {
    let mut s = Store::open_in_memory();
    let id = s.subscribe(&sample_meta("https://example.com/a.html"), "example").unwrap();
    let src = primary_source_id(&s, id);
    s.insert_chapter_if_absent(id, src, &chapter(1)).unwrap();
    s.set_derived_state(id, DerivedState::LikelyComplete);
    assert_eq!(s.apply_retention(0), 0);
    assert_eq!(s.stored_chapter_numbers(id).len(), 1);
}

#[test]
fn retention_respects_grace_days() {
    let mut s = Store::open_in_memory();
    let id = s.subscribe(&sample_meta("https://example.com/a.html"), "example").unwrap();
    let src = primary_source_id(&s, id);
    s.insert_chapter_if_absent(id, src, &chapter(1)).unwrap();
    s.mark_all_exported(id);
    s.set_derived_state(id, DerivedState::LikelyComplete);
    assert_eq!(s.apply_retention(30), 0);
    assert_eq!(s.stored_chapter_numbers(id).len(), 1);
}

#[test]
fn reevaluate_marks_quiet_completed_novel() {
    let mut s = Store::open_in_memory();
    let id = s.subscribe(&completed_meta("https://example.com/done.html"), "example").unwrap();
    s.set_derived_state(id, DerivedState::Live);
    assert_eq!(
        s.reevaluate_completion(id, 0).unwrap(),
        DerivedState::LikelyComplete
    );
}

#[test]
fn reevaluate_keeps_ongoing_or_recent_novels_live() {
    let mut s = Store::open_in_memory();
    let ongoing = s.subscribe(&sample_meta("https://example.com/a.html"), "example").unwrap();
    s.set_derived_state(ongoing, DerivedState::Live);
    assert_eq!(s.reevaluate_completion(ongoing, 0).unwrap(), DerivedState::Live);

    let done = s.subscribe(&completed_meta("https://example.com/done.html"), "example").unwrap();
    let src = primary_source_id(&s, done);
    s.insert_chapter_if_absent(done, src, &chapter(1)).unwrap();
    s.set_derived_state(done, DerivedState::Live);
    assert_eq!(s.reevaluate_completion(done, 3650).unwrap(), DerivedState::Live);
}

#[test]
fn remove_cascades_chapters() {
    let mut s = Store::open_in_memory();
    let id = s.subscribe(&sample_meta("https://example.com/a.html"), "example").unwrap();
    let src = s.find_novel(&id.to_string()).unwrap().primary_source().unwrap().id;
    s.insert_chapter_if_absent(id, src, &chapter(1)).unwrap();
    s.remove_subscription(id).unwrap();
    assert!(s.find_novel(&id.to_string()).is_none());
    assert!(s.stored_chapter_numbers(id).is_empty());
}

#[test]
fn promotion_keeps_every_chapter_and_source() {
    let mut s = Store::open_in_memory();
    let id = s.subscribe(&sample_meta("https://example.com/a.html"), "example").unwrap();
    let first = primary_source_id(&s, id);
    s.add_source(id, "b", "https://b.example/a").unwrap();
    s.insert_chapter_if_absent(id, first, &chapter(1)).unwrap();
    let second = s.sources_for(id)[1].id;
    s.promote_source(id, second).unwrap();
    let urls: Vec<String> = s.sources_for(id).into_iter().map(|x| x.url).collect();
    assert_eq!(urls, vec!["https://b.example/a", "https://example.com/a.html"]);
    assert_eq!(s.load_chapter(id, 1).unwrap().title, "Chapter 1");
}

#[test]
fn what_is_written_reads_back() {
    let mut s = Store::open_in_memory();
    let id = s.subscribe(&sample_meta("https://example.com/a.html"), "example").unwrap();
    let src = primary_source_id(&s, id);
    s.insert_chapter_at(id, src, &chapter(4), 77).unwrap();
    let back = s.load_chapter(id, 4).unwrap();
    assert_eq!(back.title, "Chapter 4");
    assert_eq!(back.paragraphs, vec!["Para one.", "Para two."]);
    assert_eq!(s.latest_fetch_time(id), Some(77));
    assert!(s.load_chapter(id, 5).is_none());
    s.meta_set("k", "one");
    s.meta_set("k", "two");
    assert_eq!(s.meta_get("k").as_deref(), Some("two"));
    assert_eq!(s.meta_get("other"), None);
}

#[test]
fn chapters_of_an_unknown_novel_or_source_are_refused() {
    let mut s = Store::open_in_memory();
    assert!(s.insert_chapter_if_absent(1, 1, &chapter(1)).is_err());
    assert!(s.record_gap(1, 1).is_err());
    assert!(s.remove_subscription(1).is_ok(), "nothing to remove");
    assert!(s.add_source(1, "x", "https://x.example").is_err());
    assert!(s.reevaluate_completion(1, 0).is_err());
}

#[test]
fn a_repointed_source_keeps_its_row() {
    let mut s = Store::open_in_memory();
    let id = s.subscribe(&sample_meta("https://example.com/a.html"), "example").unwrap();
    let src = primary_source_id(&s, id);
    s.repoint_source(src, "moved", "https://moved.example/a").unwrap();
    let now = s.sources_for(id);
    assert_eq!((now[0].id, now[0].name.as_str(), now[0].priority), (src, "moved", 1));
    assert!(s.repoint_source(src + 9, "x", "https://x.example").is_err());
}

#[test]
fn rows_that_contradict_each_other_are_refused() {
    let mut sources = Table::new();
    sources.insert((1, 0), source_row(7, "https://example.com/a.html"));
    assert!(Store::from_rows(Table::new(), sources, Table::new(), Table::new(), Vec::new(), 0)
        .is_none());
}

#[test]
fn retention_counts_days_from_the_export() {
    let mut s = Store::open_in_memory();
    let id = s.subscribe(&sample_meta("https://example.com/a.html"), "example").unwrap();
    let src = primary_source_id(&s, id);
    s.insert_chapter_at(id, src, &chapter(1), 0).unwrap();
    s.mark_all_exported_at(id, 1000);
    s.set_derived_state_at(id, DerivedState::LikelyComplete, 1000);
    assert_eq!(s.apply_retention_at(2, 1000 + 2 * 86_400 - 1), 0);
    assert_eq!(s.apply_retention_at(2, 1000 + 2 * 86_400), 1);
}

#[test]
fn a_rewritten_chapter_is_due_for_export_again() {
    let mut s = Store::open_in_memory();
    let id = s.subscribe(&sample_meta("https://example.com/a.html"), "example").unwrap();
    let src = primary_source_id(&s, id);
    s.insert_chapter_if_absent(id, src, &chapter(1)).unwrap();
    s.mark_all_exported_at(id, 5);
    assert!(s.chapter_rows().get((id, 1)).unwrap().exported);
    assert!(s.update_chapter_body(id, 1, &["New.".to_string()]));
    assert!(!s.chapter_rows().get((id, 1)).unwrap().exported);
    assert!(!s.update_chapter_body(id, 2, &["New.".to_string()]));
    assert_eq!(s.chapters_shorter_than(id, 10)[0].paragraphs, vec!["New."]);
}

#[test]
fn a_refresh_leaves_chapters_and_title_alone() {
    let mut s = Store::open_in_memory();
    let id = s.subscribe(&sample_meta("https://example.com/a.html"), "example").unwrap();
    let src = primary_source_id(&s, id);
    s.insert_chapter_if_absent(id, src, &chapter(1)).unwrap();
    let mut fresh = completed_meta("https://example.com/other.html");
    fresh.genre = Some("Fantasy".into());
    s.update_novel_meta_at(id, &fresh, 5);
    let novel = s.find_novel(&id.to_string()).unwrap();
    assert_eq!(novel.title, "Test Novel");
    assert_eq!(novel.author.as_deref(), Some("A"));
    assert_eq!(novel.genre.as_deref(), Some("Fantasy"));
    assert_eq!(novel.status_hint, NovelStatus::Completed);
    assert_eq!(novel.sources[0].url, "https://example.com/a.html");
    assert_eq!(s.load_chapters(id).len(), 1);
}

#[test]
fn states_and_statuses_read_back_from_their_names() {
    for s in [NovelStatus::Ongoing, NovelStatus::Completed, NovelStatus::Unknown] {
        assert_eq!(NovelStatus::from_str(s.as_str()), s);
    }
    for s in [DerivedState::Backfilling, DerivedState::Live, DerivedState::LikelyComplete] {
        assert_eq!(DerivedState::from_str(s.as_str()), s);
    }
    assert_eq!(NovelStatus::from_str("nonsense"), NovelStatus::Unknown);
}

#[test]
fn a_novel_is_found_by_a_title_that_is_a_number() {
    let mut s = Store::open_in_memory();
    let mut meta = sample_meta("https://example.com/a.html");
    meta.title = "1984".to_string();
    let id = s.subscribe(&meta, "example").unwrap();
    assert_eq!(id, 1);
    assert_eq!(s.find_novel("1984").unwrap().id, id);
    assert_eq!(s.find_novel("1").unwrap().id, id);
    let mut other = sample_meta("https://example.com/b.html");
    other.title = "1".to_string();
    let second = s.subscribe(&other, "example").unwrap();
    assert_eq!(s.find_novel("1").unwrap().id, id, "an id comes first");
    assert_eq!(s.find_novel(&second.to_string()).unwrap().title, "1");
    assert!(s.find_novel("7").is_none());
}
