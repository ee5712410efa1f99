use vesper::fetch::Failure;
use vesper::retitle::RetitleJob;
use vesper::{Chapter, ChapterRef, NovelMeta, NovelStatus, Store, SyncProgress};

fn chapter(number: u32, title: &str, body: &str) -> Chapter {
    Chapter { number, title: title.to_string(), paragraphs: vec![body.to_string()] }
}

fn listed(number: u32) -> ChapterRef {
    ChapterRef {
        number,
        title: format!("Chapter {number}"),
        url: format!("https://example.com/n/{number}"),
    }
}

fn store() -> (Store, i64) {
    let mut store = Store::open_in_memory();
    let meta = NovelMeta {
        title: "N".to_string(),
        author: None,
        cover_url: None,
        genre: None,
        status_hint: NovelStatus::Ongoing,
        source_url: "https://example.com/n".to_string(),
    };
    let id = store.subscribe(&meta, "example").unwrap();
    let source = store.sources_for(id)[0].id;
    for n in [1, 2, 4] {
        store
            .insert_chapter_if_absent(id, source, &chapter(n, &format!("Chapter {n}"), "Prose."))
            .unwrap();
    }
    store.mark_all_exported(id);
    (store, id)
}

#[test]
fn only_stored_chapters_are_asked_for_and_only_titles_are_kept() {
    let (mut store, id) = store();
    let mut job = RetitleJob::start(&store, id, (1..=5).map(listed).collect());
    let mut asked = Vec::new();
    while let Some(c) = job.next() {
        match job.progress() {
            SyncProgress::Upgrading { done, total } => assert_eq!((done, total), (asked.len() + 1, 3)),
            other => panic!("{other:?}"),
        }
        asked.push(c.number);
        let answer = match c.number {
            1 => Ok(chapter(1, "Dawn", "Another text.")),
            2 => Ok(chapter(2, "Chapter 2", "Another text.")),
            _ => Err(Failure::other("gone".to_string())),
        };
        job.on_fetched(&mut store, answer);
    }
    assert_eq!(asked, vec![1, 2, 4]);
    assert_eq!(job.fixed(), 1);
    let kept = store.load_chapters(id);
    assert_eq!(
        kept.iter().map(|c| c.title.as_str()).collect::<Vec<_>>(),
        vec!["Dawn", "Chapter 2", "Chapter 4"]
    );
    assert!(kept.iter().all(|c| c.paragraphs == vec!["Prose."]));
    assert!(!store.chapter_rows().get((id, 1)).unwrap().exported, "due for export again");
    assert!(store.chapter_rows().get((id, 2)).unwrap().exported);
}

#[test]
fn a_second_reading_of_titles_changes_nothing() {
    let (mut store, id) = store();
    for expected in [1, 0] {
        let mut job = RetitleJob::start(&store, id, vec![listed(1)]);
        job.on_fetched(&mut store, Ok(chapter(1, "Dawn", "Prose.")));
        assert!(job.next().is_none());
        assert_eq!(job.fixed(), expected);
    }
}
