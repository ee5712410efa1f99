use std::collections::{BTreeMap, BTreeSet};
use std::ops::ControlFlow;

use vesper::fetch::Failure;
use vesper::sync::{SyncAction, SyncJob};
use vesper::{
    Chapter, ChapterRef, DerivedState, NovelMeta, NovelStatus, Store, StoredSource, SyncProgress,
    SyncReport,
};

struct MockSource {
    name: String,
    bodies: BTreeMap<u32, String>,
    broken: bool,
    latest_window: Option<usize>,
    holes: BTreeSet<u32>,
}

impl MockSource {
    fn new(name: &str, numbers: &[u32]) -> Self {
        let bodies = numbers
            .iter()
            .map(|n| (*n, format!("{name} body {n}")))
            .collect();
        Self {
            name: name.into(),
            bodies,
            broken: false,
            latest_window: None,
            holes: BTreeSet::new(),
        }
    }

    fn with_holes(mut self, holes: &[u32]) -> Self {
        self.holes = holes.iter().copied().collect();
        self
    }

    fn with_body(mut self, number: u32, body: &str) -> Self {
        self.bodies.insert(number, body.to_string());
        self
    }

    fn with_latest_window(mut self, n: usize) -> Self {
        self.latest_window = Some(n);
        self
    }

    fn broken(name: &str) -> Self {
        Self {
            name: name.into(),
            bodies: BTreeMap::new(),
            broken: true,
            latest_window: None,
            holes: BTreeSet::new(),
        }
    }

    fn discovered_numbers(&self) -> BTreeSet<u32> {
        self.bodies.keys().copied().chain(self.holes.iter().copied()).collect()
    }

    fn refs_for<'a>(&self, numbers: impl Iterator<Item = &'a u32>) -> Vec<ChapterRef> {
        numbers
            .map(|n| ChapterRef {
                number: *n,
                title: format!("Ch {n}"),
                url: format!("mock://{}/{n}", self.name),
            })
            .collect()
    }
}

impl MockSource {
    fn discover_chapters(&self) -> Result<Vec<ChapterRef>, Failure> {
        if self.broken {
            return Err(Failure::other(format!("{} is unreachable", self.name)));
        }
        let nums = self.discovered_numbers();
        Ok(self.refs_for(nums.iter()))
    }

    fn discover_latest(&self) -> Result<Vec<ChapterRef>, Failure> {
        match self.latest_window {
            Some(k) => {
                let nums = self.discovered_numbers();
                let tail: Vec<&u32> = nums.iter().rev().take(k).collect();
                Ok(self.refs_for(tail.into_iter().rev()))
            }
            None => self.discover_chapters(),
        }
    }

    fn fetch_chapter(&self, chapter: &ChapterRef) -> Result<Chapter, Failure> {
        if self.holes.contains(&chapter.number) {
            return Err(Failure {
                message: format!("GET {} returned HTTP 404", chapter.url),
                not_found: true,
            });
        }
        let body = match self.bodies.get(&chapter.number) {
            Some(body) => body,
            None => return Err(Failure::other(format!("mock lacks ch.{}", chapter.number))),
        };
        Ok(Chapter {
            number: chapter.number,
            title: chapter.title.clone(),
            paragraphs: vec![body.clone()],
        })
    }
}

/// Runs a pass to its end against the mocks, in memory.
fn sync_novel(
    store: &mut Store,
    id: i64,
    state: DerivedState,
    sources: &[(StoredSource, MockSource)],
    limit: usize,
    mut on_progress: impl FnMut(SyncProgress) -> ControlFlow<()>,
) -> Result<SyncReport, String> {
    let rows: Vec<StoredSource> = sources.iter().map(|(row, _)| row.clone()).collect();
    let mut job = SyncJob::start(store, id, state, rows, limit);
    loop {
        match job.next() {
            SyncAction::Discover { source, full } => {
                let mock = &sources[source].1;
                let answer = if full { mock.discover_chapters() } else { mock.discover_latest() };
                job.on_discovered(store, answer);
            }
            SyncAction::Fetch { source, chapter } => {
                let answer = sources[source].1.fetch_chapter(&chapter);
                job.on_fetched(store, answer, 1000)?;
            }
            SyncAction::Report(progress) => {
                let stop = on_progress(progress).is_break();
                job.on_reported(store, stop);
            }
            SyncAction::Finish => return Ok(job.finish(store, 1000)),
        }
    }
}

fn subscribe(store: &mut Store) -> i64 {
    let meta = NovelMeta {
        title: "Mock Novel".into(),
        author: Some("A".into()),
        cover_url: None,
        genre: None,
        status_hint: NovelStatus::Ongoing,
        source_url: "https://primary.example/n".into(),
    };
    store.subscribe(&meta, "primary").unwrap()
}

fn pair(store: &Store, id: i64, mocks: Vec<MockSource>) -> Vec<(StoredSource, MockSource)> {
    let novel = store.find_novel(&id.to_string()).unwrap();
    novel.sources.into_iter().zip(mocks).collect()
}

#[test]
fn fallback_fills_chapters_the_primary_lacks() {
    let mut store = Store::open_in_memory();
    let id = subscribe(&mut store);
    store.add_source(id, "fallback", "https://fallback.example/n").unwrap();
    let sources = pair(
        &store,
        id,
        vec![
            MockSource::new("primary", &[1, 2, 3]),
            MockSource::new("fallback", &[1, 2, 3, 4, 5]),
        ],
    );

    let report = sync_novel(&mut store, id, DerivedState::Backfilling, &sources, 0, |_| ControlFlow::Continue(())).unwrap();

    assert_eq!(report.newly_fetched, 5);
    assert_eq!(report.from_fallback, 2, "ch.4 and ch.5 come from the fallback");
    assert!(report.failures.is_empty());
    assert!(report.warnings.iter().any(|w| w.contains("different latest")));

    let ch4 = store.load_chapters(id).into_iter().find(|c| c.number == 4).unwrap();
    assert_eq!(ch4.paragraphs, vec!["fallback body 4"]);
    let ch1 = store.load_chapters(id).into_iter().find(|c| c.number == 1).unwrap();
    assert_eq!(ch1.paragraphs, vec!["primary body 1"]);
}

#[test]
fn fetch_progress_counts_up_to_total() {
    let mut store = Store::open_in_memory();
    let id = subscribe(&mut store);
    let numbers: Vec<u32> = (1..=60).collect();
    let sources = pair(&store, id, vec![MockSource::new("primary", &numbers)]);

    let mut events: Vec<SyncProgress> = Vec::new();
    let report = sync_novel(&mut store, id, DerivedState::Backfilling, &sources, 0, |p| {
        events.push(p);
        ControlFlow::Continue(())
    }).unwrap();
    assert_eq!(report.newly_fetched, 60);

    let fetching: Vec<(usize, usize)> = events
        .iter()
        .filter_map(|p| match p {
            SyncProgress::Fetching { done, total } => Some((*done, *total)),
            _ => None,
        })
        .collect();
    assert_eq!(fetching.len(), 60);
    assert!(fetching.iter().all(|(_, total)| *total == 60), "total is constant");
    assert_eq!(fetching.first(), Some(&(1, 60)));
    assert_eq!(fetching.last(), Some(&(60, 60)), "reaches total");
    let dones: Vec<usize> = fetching.iter().map(|(d, _)| *d).collect();
    assert!(dones.windows(2).all(|w| w[1] == w[0] + 1), "monotonic 1..=60");
}

#[test]
fn break_from_callback_stops_early_and_preserves_chapters() {
    let mut store = Store::open_in_memory();
    let id = subscribe(&mut store);
    let numbers: Vec<u32> = (1..=60).collect();
    let sources = pair(&store, id, vec![MockSource::new("primary", &numbers)]);

    let report = sync_novel(&mut store, id, DerivedState::Backfilling, &sources, 0, |p| match p {
        SyncProgress::Fetching { done, .. } if done >= 10 => ControlFlow::Break(()),
        _ => ControlFlow::Continue(()),
    }).unwrap();

    assert!(report.interrupted, "the pass reports it was interrupted");
    assert_eq!(report.newly_fetched, 10, "stopped after the 10th chapter");
    assert_eq!(store.stored_chapter_numbers(id).len(), 10, "fetched chapters persisted");
    assert_eq!(
        report.new_state,
        DerivedState::Backfilling,
        "an interrupted backfill does not transition to Live"
    );
}

#[test]
fn permanent_gap_does_not_wedge_backfill() {
    let mut store = Store::open_in_memory();
    let id = subscribe(&mut store);
    let sources = pair(
        &store,
        id,
        vec![MockSource::new("primary", &[1, 2, 4, 5]).with_holes(&[3])],
    );
    let report = sync_novel(&mut store, id, DerivedState::Backfilling, &sources, 0, |_| {
        ControlFlow::Continue(())
    }).unwrap();

    assert_eq!(report.newly_fetched, 4, "the 4 real chapters are fetched");
    assert_eq!(report.gaps, vec![3], "ch.3 recorded as a permanent gap");
    assert!(report.failures.is_empty(), "a 404 is a gap, not a transient failure");
    assert_eq!(
        report.new_state,
        DerivedState::Live,
        "completes despite the hole instead of wedging in Backfilling"
    );
    assert_eq!(store.gaps(id).into_iter().collect::<Vec<_>>(), vec![3]);
}

#[test]
fn gap_filled_from_fallback_is_recorded_but_not_surfaced() {
    let mut store = Store::open_in_memory();
    let id = subscribe(&mut store);
    store.add_source(id, "fallback", "https://fallback.example/n").unwrap();
    let sources = pair(
        &store,
        id,
        vec![
            MockSource::new("primary", &[1, 2, 4, 5]).with_holes(&[3]),
            MockSource::new("fallback", &[3]),
        ],
    );
    let report = sync_novel(&mut store, id, DerivedState::Backfilling, &sources, 0, |_| {
        ControlFlow::Continue(())
    }).unwrap();

    assert_eq!(report.newly_fetched, 5);
    assert_eq!(report.from_fallback, 1, "ch.3 came from the fallback");
    assert_eq!(store.gaps(id).into_iter().collect::<Vec<_>>(), vec![3]);
    assert!(report.gaps.is_empty(), "filled, so nothing is surfaced as missing");
    assert!(store.unfilled_gaps(id).is_empty());
    assert_eq!(report.new_state, DerivedState::Live);
}

#[test]
fn primary_hole_filled_from_fallback_is_not_re_upgraded() {
    let mut store = Store::open_in_memory();
    let id = subscribe(&mut store);
    store.add_source(id, "fallback", "https://fallback.example/n").unwrap();
    let backfill = pair(
        &store,
        id,
        vec![
            MockSource::new("primary", &[1, 3]).with_holes(&[2]),
            MockSource::new("fallback", &[1, 2, 3]),
        ],
    );
    let r1 = sync_novel(&mut store, id, DerivedState::Backfilling, &backfill, 0, |_| {
        ControlFlow::Continue(())
    }).unwrap();
    assert_eq!(r1.from_fallback, 1, "ch.2 filled from fallback");
    assert_eq!(store.gaps(id).into_iter().collect::<Vec<_>>(), vec![2]);
    assert_eq!(r1.upgraded, 0);

    let again = pair(
        &store,
        id,
        vec![
            MockSource::new("primary", &[1, 3]).with_holes(&[2]),
            MockSource::new("fallback", &[1, 2, 3]),
        ],
    );
    let r2 = sync_novel(&mut store, id, DerivedState::Live, &again, 0, |_| {
        ControlFlow::Continue(())
    }).unwrap();
    assert_eq!(r2.upgraded, 0);
    assert!(
        !r2.warnings.iter().any(|w| w.contains("upgrade")),
        "no futile upgrade attempt: {:?}",
        r2.warnings
    );
}

#[test]
fn gap_clears_when_chapter_reappears() {
    let mut store = Store::open_in_memory();
    let id = subscribe(&mut store);
    let s1 = pair(
        &store,
        id,
        vec![MockSource::new("primary", &[1, 2, 4, 5]).with_holes(&[3])],
    );
    let r1 = sync_novel(&mut store, id, DerivedState::Backfilling, &s1, 0, |_| {
        ControlFlow::Continue(())
    }).unwrap();
    assert_eq!(r1.gaps, vec![3]);
    assert_eq!(store.gaps(id).len(), 1);

    let s2 = pair(&store, id, vec![MockSource::new("primary", &[1, 2, 3, 4, 5])]);
    let r2 = sync_novel(&mut store, id, DerivedState::Backfilling, &s2, 0, |_| {
        ControlFlow::Continue(())
    }).unwrap();
    assert_eq!(r2.newly_fetched, 1, "ch.3 now fetched");
    assert!(r2.gaps.is_empty(), "gap cleared once the chapter reappears");
    assert!(store.gaps(id).is_empty());
}

#[test]
fn backfill_completes_then_transitions_to_live() {
    let mut store = Store::open_in_memory();
    let id = subscribe(&mut store);
    let sources = pair(&store, id, vec![MockSource::new("primary", &[1, 2, 3])]);

    let report = sync_novel(&mut store, id, DerivedState::Backfilling, &sources, 0, |_| ControlFlow::Continue(())).unwrap();
    assert_eq!(report.newly_fetched, 3);
    assert_eq!(report.new_state, DerivedState::Live, "caught up => Live");
    assert!(!report.delta_mode, "backfill uses a full walk");
}

#[test]
fn partial_backfill_stays_backfilling() {
    let mut store = Store::open_in_memory();
    let id = subscribe(&mut store);
    let sources = pair(&store, id, vec![MockSource::new("primary", &[1, 2, 3, 4, 5])]);

    let report = sync_novel(&mut store, id, DerivedState::Backfilling, &sources, 2, |_| ControlFlow::Continue(())).unwrap();
    assert_eq!(report.newly_fetched, 2);
    assert_eq!(report.new_state, DerivedState::Backfilling, "still missing chapters");
}

#[test]
fn live_delta_fetches_only_the_new_tail() {
    let mut store = Store::open_in_memory();
    let id = subscribe(&mut store);
    let backfill = pair(&store, id, vec![MockSource::new("primary", &[1, 2, 3])]);
    sync_novel(&mut store, id, DerivedState::Backfilling, &backfill, 0, |_| ControlFlow::Continue(())).unwrap();

    let live = pair(
        &store,
        id,
        vec![MockSource::new("primary", &[1, 2, 3, 4, 5]).with_latest_window(3)],
    );
    let report = sync_novel(&mut store, id, DerivedState::Live, &live, 0, |_| ControlFlow::Continue(())).unwrap();

    assert!(report.delta_mode, "Live novel uses delta discovery");
    assert_eq!(report.newly_fetched, 2, "only ch.4 and ch.5 are new");
    assert_eq!(report.new_state, DerivedState::Live);
}

#[test]
fn live_delta_falls_back_on_a_gap() {
    let mut store = Store::open_in_memory();
    let id = subscribe(&mut store);
    let backfill = pair(&store, id, vec![MockSource::new("primary", &[1, 2, 3])]);
    sync_novel(&mut store, id, DerivedState::Backfilling, &backfill, 0, |_| ControlFlow::Continue(())).unwrap();

    let live = pair(
        &store,
        id,
        vec![MockSource::new("primary", &[1, 2, 3, 4, 5, 6]).with_latest_window(1)],
    );
    let report = sync_novel(&mut store, id, DerivedState::Live, &live, 0, |_| ControlFlow::Continue(())).unwrap();

    assert!(!report.delta_mode, "gap forced a full-walk fallback");
    assert!(report.warnings.iter().any(|w| w.contains("falling back to a full walk")));
    assert_eq!(report.newly_fetched, 3, "ch.4, 5, 6 all filled");
}

#[test]
fn primary_upgrades_fallback_sourced_chapters_when_it_catches_up() {
    let mut store = Store::open_in_memory();
    let id = subscribe(&mut store);
    store.add_source(id, "fallback", "https://fallback.example/n").unwrap();

    let backfill = pair(
        &store,
        id,
        vec![
            MockSource::new("primary", &[1, 2, 3]),
            MockSource::new("fallback", &[1, 2, 3, 4, 5]),
        ],
    );
    let r1 = sync_novel(&mut store, id, DerivedState::Backfilling, &backfill, 0, |_| ControlFlow::Continue(())).unwrap();
    assert_eq!(r1.from_fallback, 2);
    let ch4 = store.load_chapters(id).into_iter().find(|c| c.number == 4).unwrap();
    assert_eq!(ch4.paragraphs, vec!["fallback body 4"]);

    let caught_up = pair(
        &store,
        id,
        vec![
            MockSource::new("primary", &[1, 2, 3, 4, 5]),
            MockSource::new("fallback", &[1, 2, 3, 4, 5]),
        ],
    );
    let r2 = sync_novel(&mut store, id, DerivedState::Live, &caught_up, 0, |_| ControlFlow::Continue(())).unwrap();
    assert_eq!(r2.newly_fetched, 0, "nothing new");
    assert_eq!(r2.upgraded, 2, "ch.4 and ch.5 upgraded to primary");

    let ch4 = store.load_chapters(id).into_iter().find(|c| c.number == 4).unwrap();
    assert_eq!(ch4.paragraphs, vec!["primary body 4"]);

    let again = pair(
        &store,
        id,
        vec![
            MockSource::new("primary", &[1, 2, 3, 4, 5]),
            MockSource::new("fallback", &[1, 2, 3, 4, 5]),
        ],
    );
    let r3 = sync_novel(&mut store, id, DerivedState::Live, &again, 0, |_| ControlFlow::Continue(())).unwrap();
    assert_eq!(r3.upgraded, 0);
}

#[test]
fn a_gated_primary_does_not_clobber_a_real_fallback_chapter() {
    const STUB: &str = "This chapter requires a free account to read. \
                        Sign up or log in to continue reading.";
    let mut store = Store::open_in_memory();
    let id = subscribe(&mut store);
    store.add_source(id, "fallback", "https://fallback.example/n").unwrap();

    let backfill = pair(
        &store,
        id,
        vec![
            MockSource::new("primary", &[1]),
            MockSource::new("fallback", &[1, 2]),
        ],
    );
    let r1 = sync_novel(&mut store, id, DerivedState::Backfilling, &backfill, 0, |_| {
        ControlFlow::Continue(())
    }).unwrap();
    assert_eq!(r1.from_fallback, 1, "ch.2 came from the fallback");

    let gated = pair(
        &store,
        id,
        vec![
            MockSource::new("primary", &[1, 2]).with_body(2, STUB),
            MockSource::new("fallback", &[1, 2]),
        ],
    );
    let r2 = sync_novel(&mut store, id, DerivedState::Live, &gated, 0, |_| {
        ControlFlow::Continue(())
    }).unwrap();

    assert_eq!(r2.upgraded, 0, "the placeholder is not an upgrade");
    let ch2 = store.load_chapters(id).into_iter().find(|c| c.number == 2).unwrap();
    assert_eq!(ch2.paragraphs, vec!["fallback body 2"], "real chapter survived");

    assert!(store.gaps(id).contains(&2));
    assert!(store.unfilled_gaps(id).is_empty());
    assert!(r2.gaps.is_empty());

    let again = pair(
        &store,
        id,
        vec![
            MockSource::new("primary", &[1, 2]).with_body(2, STUB),
            MockSource::new("fallback", &[1, 2]),
        ],
    );
    let r3 = sync_novel(&mut store, id, DerivedState::Live, &again, 0, |_| {
        ControlFlow::Continue(())
    }).unwrap();
    assert_eq!(r3.upgraded, 0);
    let ch2 = store.load_chapters(id).into_iter().find(|c| c.number == 2).unwrap();
    assert_eq!(ch2.paragraphs, vec!["fallback body 2"]);
}

#[test]
fn second_sync_is_a_noop_resume() {
    let mut store = Store::open_in_memory();
    let id = subscribe(&mut store);
    let sources = pair(&store, id, vec![MockSource::new("primary", &[1, 2, 3])]);
    sync_novel(&mut store, id, DerivedState::Backfilling, &sources, 0, |_| ControlFlow::Continue(())).unwrap();

    let again = pair(&store, id, vec![MockSource::new("primary", &[1, 2, 3])]);
    let report = sync_novel(&mut store, id, DerivedState::Live, &again, 0, |_| ControlFlow::Continue(())).unwrap();
    assert_eq!(report.newly_fetched, 0);
}

#[test]
fn broken_fallback_does_not_sink_the_primary() {
    let mut store = Store::open_in_memory();
    let id = subscribe(&mut store);
    store.add_source(id, "fallback", "https://fallback.example/n").unwrap();
    let sources = pair(
        &store,
        id,
        vec![
            MockSource::new("primary", &[1, 2, 3]),
            MockSource::broken("fallback"),
        ],
    );

    let report = sync_novel(&mut store, id, DerivedState::Backfilling, &sources, 0, |_| ControlFlow::Continue(())).unwrap();
    assert_eq!(report.newly_fetched, 3, "primary still fully synced");
    assert!(report.warnings.iter().any(|w| w.contains("discovery failed")));
}

#[test]
fn a_pass_never_drops_a_stored_chapter() {
    let mut store = Store::open_in_memory();
    let id = subscribe(&mut store);
    let first = pair(&store, id, vec![MockSource::new("primary", &[1, 2, 3])]);
    sync_novel(&mut store, id, DerivedState::Backfilling, &first, 0, |_| ControlFlow::Continue(()))
        .unwrap();
    let gone = pair(&store, id, vec![MockSource::new("primary", &[9])]);
    sync_novel(&mut store, id, DerivedState::Backfilling, &gone, 0, |_| ControlFlow::Continue(()))
        .unwrap();
    assert_eq!(store.stored_list(id), vec![1, 2, 3, 9]);
}

#[test]
fn every_source_down_is_a_warning_not_a_loss() {
    let mut store = Store::open_in_memory();
    let id = subscribe(&mut store);
    let down = pair(&store, id, vec![MockSource::broken("primary")]);
    let report =
        sync_novel(&mut store, id, DerivedState::Backfilling, &down, 0, |_| ControlFlow::Continue(()))
            .unwrap();
    assert_eq!(report.newly_fetched, 0);
    assert_eq!(report.new_state, DerivedState::Backfilling);
    assert!(report.warnings.iter().any(|w| w.contains("primary is unreachable")));
}

#[test]
fn a_failed_fetch_is_no_gap() {
    let mut store = Store::open_in_memory();
    let id = subscribe(&mut store);
    let mut flaky = MockSource::new("primary", &[1, 2]);
    flaky.holes.insert(3);
    let rows = pair(&store, id, vec![flaky]);
    let mut job = SyncJob::start(
        &store,
        id,
        DerivedState::Backfilling,
        rows.iter().map(|(r, _)| r.clone()).collect(),
        0,
    );
    loop {
        match job.next() {
            SyncAction::Discover { source, .. } => {
                let answer = rows[source].1.discover_chapters();
                job.on_discovered(&store, answer);
            }
            SyncAction::Fetch { chapter, .. } if chapter.number == 3 => {
                job.on_fetched(&mut store, Err(Failure::other("timed out".to_string())), 1).unwrap();
            }
            SyncAction::Fetch { source, chapter } => {
                let answer = rows[source].1.fetch_chapter(&chapter);
                job.on_fetched(&mut store, answer, 1).unwrap();
            }
            SyncAction::Report(_) => job.on_reported(&store, false),
            SyncAction::Finish => break,
        }
    }
    let report = job.finish(&mut store, 1);
    assert_eq!(report.failures, vec![3]);
    assert!(report.gaps.is_empty());
    assert!(store.gaps(id).is_empty());
    assert_eq!(report.new_state, DerivedState::Backfilling, "ch.3 is still wanted");
}

#[test]
fn pruned_chapters_come_back_when_they_are_listed() {
    let mut store = Store::open_in_memory();
    let id = subscribe(&mut store);
    let first = pair(&store, id, vec![MockSource::new("primary", &[1, 2])]);
    sync_novel(&mut store, id, DerivedState::Backfilling, &first, 0, |_| ControlFlow::Continue(()))
        .unwrap();
    store.mark_all_exported_at(id, 0);
    store.set_derived_state(id, DerivedState::LikelyComplete);
    assert_eq!(store.apply_retention_at(0, 1), 2);
    let again = pair(&store, id, vec![MockSource::new("primary", &[1, 2, 3])]);
    let report = sync_novel(
        &mut store,
        id,
        DerivedState::LikelyComplete,
        &again,
        0,
        |_| ControlFlow::Continue(()),
    )
    .unwrap();
    assert_eq!(report.newly_fetched, 3);
    assert_eq!(report.new_state, DerivedState::Live, "it came back to life");
}
