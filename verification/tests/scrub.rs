use vesper::scrub::scrub_novel;
use vesper::{Chapter, NovelMeta, NovelStatus, Store};

fn store_with_chapter(paragraphs: &[&str]) -> (Store, i64) {
    let mut store = Store::open_in_memory();
    let meta = NovelMeta {
        title: "Marked Novel".into(),
        author: Some("An Author".into()),
        cover_url: None,
        genre: None,
        status_hint: NovelStatus::Ongoing,
        source_url: "https://freewebnovel.com/novel/marked".into(),
    };
    let id = store.subscribe(&meta, "freewebnovel").unwrap();
    let source = store
        .find_novel(&id.to_string())
        .unwrap()
        .primary_source()
        .unwrap()
        .id;
    let chapter = Chapter {
        number: 1,
        title: "One".into(),
        paragraphs: paragraphs.iter().map(|s| s.to_string()).collect(),
    };
    store.insert_chapter_if_absent(id, source, &chapter).unwrap();
    (store, id)
}

#[test]
fn removes_both_forms_and_leaves_the_prose() {
    let (mut store, id) = store_with_chapter(&[
        "He drew his sword.",
        "Enjoy more content from freewebnovel",
        "The blade sang. Stay updated with freewebnovel",
    ]);

    let report = scrub_novel(&mut store, id, false);
    assert_eq!(report.chapters, vec![1]);
    assert_eq!(report.marks, 2);
    assert_eq!(
        store.load_chapters(id)[0].paragraphs,
        vec!["He drew his sword.", "The blade sang."]
    );

    // Nothing left to find, so a second pass is a no-op.
    assert!(scrub_novel(&mut store, id, false).is_empty());
}

#[test]
fn a_dry_run_reports_without_writing() {
    let (mut store, id) = store_with_chapter(&["Prose.", "Read the latest on freewebnovel"]);

    let report = scrub_novel(&mut store, id, true);
    assert_eq!(report.marks, 1);
    assert_eq!(store.load_chapters(id)[0].paragraphs.len(), 2);
}

#[test]
fn a_clean_novel_is_untouched() {
    let (mut store, id) = store_with_chapter(&[
        "The Empire had fallen.",
        "\"Was it just the nine of you against the entire Empire?\"",
    ]);
    assert!(scrub_novel(&mut store, id, false).is_empty());
    assert_eq!(store.load_chapters(id)[0].paragraphs.len(), 2);
}

#[test]
fn a_chapter_of_marks_alone_is_kept() {
    let (mut store, id) = store_with_chapter(&["Read the latest on freewebnovel"]);
    assert!(scrub_novel(&mut store, id, false).is_empty());
    assert_eq!(store.load_chapters(id)[0].paragraphs.len(), 1);
}
