use vesper::fetch::Failure;
use vesper::job::Action;
use vesper::repair::{acceptable_replacement, RepairJob, STUB_MAX_CHARS};
use vesper::{
    looks_like_gate_stub, Chapter, ChapterRef, NovelMeta, NovelStatus, RepairReport, Store,
    StoredSource,
};

fn paras(s: &str) -> Vec<String> {
    s.split("\n\n").map(str::to_string).collect()
}

#[test]
fn recognises_a_gating_placeholder() {
    // The exact shape found in a real library.
    let stub = paras(
        "This chapter requires a free account to read. Sign up or log in to \
         continue reading \"Cultivation Online\".",
    );
    assert!(looks_like_gate_stub(&stub));
}

/// The case that makes length-based detection unsafe: a real, short
/// author's note. Deleting one of these to "repair" it is a pure loss.
#[test]
fn leaves_a_genuinely_short_chapter_alone() {
    let note = paras(
        "Hello guys, how have you been?\n\nIt's me, the author.\n\nThanks for \
         waiting and supporting till now.\n\nSorry for the late update and the \
         bad news.",
    );
    assert!(!looks_like_gate_stub(&note));
}

/// A long chapter that merely mentions signing in is prose, not a gate.
#[test]
fn a_long_chapter_is_never_a_stub() {
    let mut body = "He had to log in to continue the simulation. ".repeat(80);
    body.push_str("The ");
    body.push_str("gate closed behind him.");
    assert!(body.chars().count() > STUB_MAX_CHARS);
    assert!(!looks_like_gate_stub(&paras(&body)));
}

fn chapter(number: u32, body: &str) -> Chapter {
    Chapter {
        number,
        title: format!("Ch {number}"),
        paragraphs: paras(body),
    }
}

/// A source serving canned bodies per chapter number.
struct MockSource {
    name: String,
    bodies: std::collections::BTreeMap<u32, String>,
}

impl MockSource {
    fn new(name: &str, bodies: &[(u32, &str)]) -> Self {
        Self {
            name: name.into(),
            bodies: bodies.iter().map(|(n, b)| (*n, b.to_string())).collect(),
        }
    }
}

impl MockSource {
    fn discover_chapters(&self) -> Result<Vec<ChapterRef>, Failure> {
        Ok(self
            .bodies
            .keys()
            .map(|n| ChapterRef {
                number: *n,
                title: format!("Ch {n}"),
                url: format!("mock://{}/{n}", self.name),
            })
            .collect())
    }

    fn fetch_chapter(&self, c: &ChapterRef) -> Result<Chapter, Failure> {
        match self.bodies.get(&c.number) {
            Some(body) => Ok(chapter(c.number, body)),
            None => Err(Failure::other(format!("mock lacks ch.{}", c.number))),
        }
    }
}

/// Runs a repair to its end against the mocks, in memory.
fn repair_novel(
    store: &mut Store,
    id: i64,
    sources: &[(StoredSource, MockSource)],
    only: Option<u32>,
    dry_run: bool,
    mut progress: impl FnMut(u32, usize, usize),
) -> Result<RepairReport, String> {
    let rows: Vec<StoredSource> = sources.iter().map(|(row, _)| row.clone()).collect();
    let mut job = RepairJob::start(store, id, rows, only, dry_run)?;
    loop {
        match job.next() {
            Action::Discover { source } => {
                let answer = sources[source].1.discover_chapters();
                job.on_discovered(answer);
            }
            Action::Announce { number, position, total } => {
                progress(number, position, total);
                job.on_announced();
            }
            Action::Fetch { source, chapter } => {
                let answer = sources[source].1.fetch_chapter(&chapter);
                job.on_fetched(store, answer)?;
            }
            Action::Finish => return Ok(job.finish()),
        }
    }
}

const GATED: &str = "This chapter requires a free account to read. \
                     Sign up or log in to continue reading \"Mock Novel\".";
const REAL: &str = "The morning broke over the ruined city, and Sunny woke to \
                    the sound of the Nightmare Spell calling his name again.";

fn store_with_gated_chapter() -> (Store, i64, i64) {
    let mut store = Store::open_in_memory();
    let meta = NovelMeta {
        title: "Mock Novel".into(),
        author: Some("A".into()),
        cover_url: None,
        genre: None,
        status_hint: NovelStatus::Ongoing,
        source_url: "https://primary.example/n".into(),
    };
    let id = store.subscribe(&meta, "primary").unwrap();
    let primary = store.find_novel("1").unwrap().primary_source().unwrap().id;
    store.insert_chapter_if_absent(id, primary, &chapter(1, GATED)).unwrap();
    (store, id, primary)
}

/// The question this answers: if the primary is still gated but a fallback
/// carries the full text, does repair reach the fallback? It must — falling
/// through on a rejected replacement is the whole point of trying each
/// source in turn.
#[test]
fn falls_through_to_a_fallback_when_the_primary_is_still_gated() {
    let (mut store, id, _) = store_with_gated_chapter();
    store.add_source(id, "fallback", "https://fallback.example/n").unwrap();
    let novel = store.find_novel(&id.to_string()).unwrap();
    let sources: Vec<(StoredSource, MockSource)> = novel
        .sources
        .into_iter()
        .zip(vec![
            MockSource::new("primary", &[(1, GATED)]),
            MockSource::new("fallback", &[(1, REAL)]),
        ])
        .collect();

    let report = repair_novel(&mut store, id, &sources, None, false, |_, _, _| {}).unwrap();

    assert_eq!(report.repaired, vec![1], "repaired from the fallback");
    let stored = store.load_chapter(id, 1).unwrap();
    assert_eq!(stored.paragraphs.join(" "), REAL);
}

/// With every source gated there is nothing to repair from, and the stored
/// chapter must be left exactly as it was rather than churned.
#[test]
fn leaves_the_chapter_alone_when_every_source_is_gated() {
    let (mut store, id, _) = store_with_gated_chapter();
    store.add_source(id, "fallback", "https://fallback.example/n").unwrap();
    let novel = store.find_novel(&id.to_string()).unwrap();
    let sources: Vec<(StoredSource, MockSource)> = novel
        .sources
        .into_iter()
        .zip(vec![
            MockSource::new("primary", &[(1, GATED)]),
            MockSource::new("fallback", &[(1, GATED)]),
        ])
        .collect();

    let report = repair_novel(&mut store, id, &sources, None, false, |_, _, _| {}).unwrap();

    assert!(report.repaired.is_empty());
    assert_eq!(report.skipped.len(), 1);
    assert!(report.skipped[0].1.contains("placeholder"), "{:?}", report.skipped);
    assert_eq!(store.load_chapter(id, 1).unwrap().paragraphs.join(" "), GATED);
}

/// A dry run reports what it would do and writes nothing.
#[test]
fn dry_run_changes_nothing() {
    let (mut store, id, _) = store_with_gated_chapter();
    let novel = store.find_novel(&id.to_string()).unwrap();
    let sources: Vec<(StoredSource, MockSource)> = novel
        .sources
        .into_iter()
        .zip(vec![MockSource::new("primary", &[(1, REAL)])])
        .collect();

    let report = repair_novel(&mut store, id, &sources, None, true, |_, _, _| {}).unwrap();
    assert_eq!(report.repaired, vec![1]);
    assert_eq!(
        store.load_chapter(id, 1).unwrap().paragraphs.join(" "),
        GATED,
        "dry run must not write"
    );
}

#[test]
fn refuses_to_overwrite_prose_with_a_placeholder() {
    let stored = chapter(1, "A real chapter with actual prose in it.");
    let gated = chapter(1, "This chapter requires a free account to read.");
    let err = acceptable_replacement(&stored, &gated).unwrap_err();
    assert!(err.contains("placeholder"), "{err}");
}

#[test]
fn refuses_a_replacement_that_is_not_an_improvement() {
    let stored = chapter(1, "This chapter requires a free account to read.");
    let shorter = chapter(1, "Nope.");
    assert!(acceptable_replacement(&stored, &shorter).is_err());
    // A real chapter is longer, so it goes through.
    let real = chapter(1, "The morning broke over the ruined city, and Sunny woke.");
    assert!(acceptable_replacement(&stored, &real).is_ok());
}

#[test]
fn a_named_chapter_that_is_not_stored_is_skipped() {
    let (mut store, id, _) = store_with_gated_chapter();
    let rows = store.sources_for(id);
    let sources: Vec<(StoredSource, MockSource)> =
        rows.into_iter().zip(vec![MockSource::new("primary", &[(1, REAL)])]).collect();
    let none = repair_novel(&mut store, id, &sources, Some(9), false, |_, _, _| {}).unwrap();
    assert_eq!(none.skipped, vec![(9, "not stored for this novel".to_string())]);
    let r = repair_novel(&mut store, id, &sources, Some(1), false, |_, _, _| {}).unwrap();
    assert_eq!(r.repaired, vec![1]);
    assert!(RepairReport::default().is_empty());
    assert!(!r.is_empty());
}

#[test]
fn only_shorter_bodies_are_stubs() {
    let body = |n: usize| vec![format!("log in to continue{}", "x".repeat(n - 18))];
    assert!(looks_like_gate_stub(&body(STUB_MAX_CHARS - 1)));
    assert!(!looks_like_gate_stub(&body(STUB_MAX_CHARS)));
}
