use std::collections::{BTreeMap, BTreeSet};

use vesper::fetch::Failure;
use vesper::job::Action;
use vesper::refetch::{same_text, RefetchJob, RefetchReport};
use vesper::{Chapter, ChapterRef, DerivedState, NovelMeta, NovelStatus, Store, StoredSource};

struct MockSource {
    name: String,
    bodies: BTreeMap<u32, String>,
    broken: BTreeSet<u32>,
    dead: bool,
    fetches: std::sync::Arc<std::sync::atomic::AtomicUsize>,
}

impl MockSource {
    fn new(name: &str, bodies: &[(u32, &str)]) -> Self {
        Self {
            name: name.into(),
            bodies: bodies.iter().map(|(n, b)| (*n, b.to_string())).collect(),
            broken: BTreeSet::new(),
            dead: false,
            fetches: std::sync::Arc::new(std::sync::atomic::AtomicUsize::new(0)),
        }
    }

    fn failing(mut self, numbers: &[u32]) -> Self {
        self.broken = numbers.iter().copied().collect();
        self
    }

    fn unreachable(name: &str) -> Self {
        Self {
            name: name.into(),
            bodies: BTreeMap::new(),
            broken: BTreeSet::new(),
            dead: true,
            fetches: std::sync::Arc::new(std::sync::atomic::AtomicUsize::new(0)),
        }
    }
}

impl MockSource {
    fn discover_chapters(&self) -> Result<Vec<ChapterRef>, Failure> {
        if self.dead {
            return Err(Failure::other(format!("{} is unreachable", self.name)));
        }
        Ok(self
            .bodies
            .keys()
            .map(|n| ChapterRef {
                number: *n,
                title: format!("Ch {n}"),
                url: format!("mock://{}/{n}", self.name),
            })
            .collect())
    }

    fn fetch_chapter(&self, c: &ChapterRef) -> Result<Chapter, Failure> {
        self.fetches.fetch_add(1, std::sync::atomic::Ordering::SeqCst);
        if self.broken.contains(&c.number) {
            return Err(Failure::other(format!("ch.{} timed out", c.number)));
        }
        let body = match self.bodies.get(&c.number) {
            Some(body) => body,
            None => return Err(Failure::other(format!("mock lacks ch.{}", c.number))),
        };
        Ok(Chapter {
            number: c.number,
            title: format!("Ch {}", c.number),
            paragraphs: vec![body.clone()],
        })
    }
}

/// Runs a re-download to its end against the mocks, in memory.
fn refetch_novel(
    store: &mut Store,
    id: i64,
    sources: &[(StoredSource, MockSource)],
    wanted: Option<&BTreeSet<u32>>,
    dry_run: bool,
    mut progress: impl FnMut(u32, usize, usize),
) -> Result<RefetchReport, String> {
    let rows: Vec<StoredSource> = sources.iter().map(|(row, _)| row.clone()).collect();
    let wanted = wanted.map(|set| set.iter().copied().collect());
    let mut job = RefetchJob::start(id, rows, wanted, dry_run)?;
    loop {
        match job.next() {
            Action::Discover { source } => {
                let answer = sources[source].1.discover_chapters();
                job.on_discovered(store, answer)?;
            }
            Action::Announce { number, position, total } => {
                progress(number, position, total);
                job.on_announced(store);
            }
            Action::Fetch { source, chapter } => {
                let answer = sources[source].1.fetch_chapter(&chapter);
                job.on_fetched(store, answer, 1000)?;
            }
            Action::Finish => return Ok(job.finish(store, 1000)),
        }
    }
}

fn setup(stored: &[(u32, &str)]) -> (Store, i64, i64) {
    let mut store = Store::open_in_memory();
    let meta = NovelMeta {
        title: "Mock Novel".into(),
        author: Some("A".into()),
        cover_url: None,
        genre: None,
        status_hint: NovelStatus::Ongoing,
        source_url: "https://primary.example/n".into(),
    };
    let id = store.subscribe(&meta, "primary").unwrap();
    let src = store
        .find_novel(&id.to_string())
        .unwrap()
        .primary_source()
        .unwrap()
        .id;
    for (n, body) in stored {
        store
            .insert_chapter_if_absent(
                id,
                src,
                &Chapter {
                    number: *n,
                    title: format!("Ch {n}"),
                    paragraphs: vec![(*body).to_string()],
                },
            )
            .unwrap();
    }
    store.set_derived_state(id, DerivedState::Live);
    (store, id, src)
}

fn pair(store: &Store, id: i64, mocks: Vec<MockSource>) -> Vec<(StoredSource, MockSource)> {
    let novel = store.find_novel(&id.to_string()).unwrap();
    novel.sources.into_iter().zip(mocks).collect()
}

fn body_of(store: &Store, id: i64, number: u32) -> String {
    store
        .load_chapter(id, number)
        .unwrap()
        .paragraphs
        .join(" ")
}

#[test]
fn rewrites_chapters_the_site_has_corrected() {
    let (mut store, id, _) = setup(&[(152, "dup"), (153, "dup"), (154, "dup")]);
    let sources = pair(
        &store,
        id,
        vec![MockSource::new(
            "primary",
            &[(152, "dup"), (153, "real 153"), (154, "real 154")],
        )],
    );
    let targets: BTreeSet<u32> = [152, 153, 154].into_iter().collect();

    let r = refetch_novel(&mut store, id, &sources, Some(&targets), false, |_, _, _| {}).unwrap();

    assert_eq!(r.replaced, vec![153, 154]);
    assert_eq!(r.unchanged, vec![152], "identical text is not rewritten");
    assert_eq!(body_of(&store, id, 153), "real 153");
    assert_eq!(body_of(&store, id, 154), "real 154");
}

#[test]
fn a_rewrite_marks_the_novel_for_re_export() {
    let (mut store, id, _) = setup(&[(1, "old")]);
    store.mark_all_exported(id);
    let sources = pair(&store, id, vec![MockSource::new("primary", &[(1, "new")])]);
    let targets: BTreeSet<u32> = [1].into_iter().collect();

    refetch_novel(&mut store, id, &sources, Some(&targets), false, |_, _, _| {}).unwrap();

    let exported: i64 = store
        .load_chapters(id)
        .len() as i64;
    assert_eq!(exported, 1);
    assert_eq!(store.apply_retention(0), 0, "un-exported, so not purgeable");
}

#[test]
fn dry_run_reports_without_writing() {
    let (mut store, id, _) = setup(&[(1, "old")]);
    let sources = pair(&store, id, vec![MockSource::new("primary", &[(1, "new")])]);

    let r = refetch_novel(&mut store, id, &sources, None, true, |_, _, _| {}).unwrap();
    assert_eq!(r.replaced, vec![1]);
    assert_eq!(body_of(&store, id, 1), "old", "dry run must not write");
}

#[test]
fn a_failed_fetch_leaves_the_stored_chapter_intact() {
    let (mut store, id, _) = setup(&[(1, "one"), (2, "two")]);
    let sources = pair(
        &store,
        id,
        vec![MockSource::new("primary", &[(1, "one"), (2, "two v2")]).failing(&[2])],
    );

    let r = refetch_novel(&mut store, id, &sources, None, false, |_, _, _| {}).unwrap();

    assert_eq!(body_of(&store, id, 2), "two", "stored text left intact");
    assert!(r.skipped.iter().any(|(n, _)| *n == 2));
}

#[test]
fn refuses_to_run_when_no_source_can_be_read() {
    let (mut store, id, _) = setup(&[(1, "one")]);
    let sources = pair(&store, id, vec![MockSource::unreachable("primary")]);

    let err = refetch_novel(&mut store, id, &sources, None, false, |_, _, _| {}).unwrap_err();
    assert!(err.contains("could not read the chapter list"), "{err}");
    assert_eq!(body_of(&store, id, 1), "one", "nothing touched");
}

#[test]
fn falls_back_and_refuses_a_placeholder() {
    const GATE: &str = "This chapter requires a free account to read.";
    let (mut store, id, _) = setup(&[(1, "real text")]);
    store.add_source(id, "fallback", "https://fallback.example/n").unwrap();
    let sources = pair(
        &store,
        id,
        vec![
            MockSource::new("primary", &[(1, GATE)]),
            MockSource::new("fallback", &[(1, "fuller text")]),
        ],
    );

    let r = refetch_novel(&mut store, id, &sources, None, false, |_, _, _| {}).unwrap();

    assert_eq!(r.replaced, vec![1]);
    assert_eq!(body_of(&store, id, 1), "fuller text", "came from the fallback");
}

#[test]
fn an_unfillable_hole_sends_the_novel_back_to_backfilling() {
    let (mut store, id, _) = setup(&[(1, "one")]);
    let sources = pair(
        &store,
        id,
        vec![MockSource::new("primary", &[(1, "one"), (2, "two")]).failing(&[2])],
    );

    refetch_novel(&mut store, id, &sources, None, false, |_, _, _| {}).unwrap();

    let novel = store.find_novel(&id.to_string()).unwrap();
    assert_eq!(novel.derived_state, DerivedState::Backfilling);
}

#[test]
fn a_plain_dry_run_still_compares_text() {
    let (mut store, id, _) = setup(&[(1, "one")]);
    let mock = MockSource::new("primary", &[(1, "one v2")]);
    let counter = mock.fetches.clone();
    let sources = pair(&store, id, vec![mock]);

    let r = refetch_novel(&mut store, id, &sources, None, true, |_, _, _| {}).unwrap();
    assert_eq!(r.replaced, vec![1]);
    assert_eq!(counter.load(std::sync::atomic::Ordering::SeqCst), 1);
}

#[test]
fn a_dry_refetch_leaves_the_library_as_it_was() {
    let (mut store, id, _) = setup(&[(1, "one")]);
    let sources = pair(&store, id, vec![MockSource::new("primary", &[(1, "one"), (2, "two")])]);
    let r = refetch_novel(&mut store, id, &sources, None, true, |_, _, _| {}).unwrap();
    assert_eq!((r.unchanged.clone(), r.added.clone()), (vec![1], vec![2]));
    assert!(r.changed());
    assert_eq!(store.stored_list(id), vec![1]);
}

#[test]
fn a_novel_without_sources_is_refused() {
    assert!(RefetchJob::start(1, Vec::new(), None, false).is_err());
}

#[test]
fn a_chapter_no_source_lists_is_left_out() {
    let (mut store, id, _) = setup(&[(1, "one")]);
    let sources = pair(&store, id, vec![MockSource::new("primary", &[(1, "one")])]);
    let targets: BTreeSet<u32> = [1, 8].into_iter().collect();
    let mut seen = Vec::new();
    let r = refetch_novel(&mut store, id, &sources, Some(&targets), false, |n, i, total| {
        seen.push((n, i, total))
    })
    .unwrap();
    assert_eq!(r.unchanged, vec![1]);
    assert!(r.skipped.is_empty(), "nothing was tried, so nothing failed");
    assert_eq!(seen, vec![(1, 1, 2), (8, 2, 2)]);
    assert_eq!(store.load_novel_by_id(id).unwrap().derived_state, DerivedState::Live);
    assert!(!r.changed());
}

#[test]
fn text_is_compared_with_its_title() {
    let a = Chapter { number: 1, title: "t".to_string(), paragraphs: vec!["p".to_string()] };
    let mut b = a.clone();
    assert!(same_text(&a, &b));
    b.paragraphs.push("q".to_string());
    assert!(!same_text(&a, &b));
}
