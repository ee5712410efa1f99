use std::collections::HashMap;
use std::sync::Mutex;

use vesper::chikari::{
    match_slug_by_title, novel_api_url, novel_url, parse_novel, parse_response, search_url,
    slug_from_url,
};
use vesper::fetch::Failure;
use vesper::migrate::{is_pending, record, MigrationAction, MigrationJob, MIGRATION_KEY};
use vesper::{
    Chapter, ChikariSource, MigrationOutcome, MigrationReport, NovelMeta, NovelStatus, Store,
};

struct CannedFetcher {
    responses: HashMap<String, String>,
    unreachable: Vec<String>,
    requested: Mutex<Vec<String>>,
}

impl CannedFetcher {
    fn new() -> Self {
        Self {
            responses: HashMap::new(),
            unreachable: Vec::new(),
            requested: Mutex::new(Vec::new()),
        }
    }

    fn with(mut self, url: &str, body: &str) -> Self {
        self.responses.insert(url.to_string(), body.to_string());
        self
    }

    fn with_novel(self, slug: &str, title: &str) -> Self {
        let body = format!(
            r#"{{"slug":"{slug}","title":"{title}","status":"releasing","authors":[]}}"#
        );
        self.with(&format!("https://chikari.moe/api/novels/{slug}"), &body)
    }

    fn down(mut self, url: &str) -> Self {
        self.unreachable.push(url.to_string());
        self
    }
}

impl CannedFetcher {
    fn get(&self, url: &str) -> Result<String, Failure> {
        self.requested.lock().unwrap().push(url.to_string());
        if self.unreachable.iter().any(|u| url.starts_with(u.as_str())) {
            return Err(Failure::other("connection timed out".to_string()));
        }
        match self.responses.get(url) {
            Some(body) => Ok(body.clone()),
            None => Err(Failure {
                message: format!("GET {url} returned HTTP 404"),
                not_found: true,
            }),
        }
    }
}

fn fetch_novel(chikari: &ChikariSource<CannedFetcher>, url: &str) -> Result<NovelMeta, Failure> {
    let slug = slug_from_url(url).map_err(Failure::other)?;
    let body = chikari.fetcher.get(&novel_api_url(&slug))?;
    let json = parse_response(&body, url).map_err(Failure::other)?;
    parse_novel(&json, &novel_url(&slug)).map_err(Failure::other)
}

fn find_slug_by_title(
    chikari: &ChikariSource<CannedFetcher>,
    title: &str,
) -> Result<Option<String>, Failure> {
    let url = search_url(title);
    let body = chikari.fetcher.get(&url)?;
    let json = parse_response(&body, &url).map_err(Failure::other)?;
    Ok(match_slug_by_title(&json, title))
}

/// Runs the migration to its end against canned answers, in memory.
fn migrate_with(
    store: &mut Store,
    chikari: &ChikariSource<CannedFetcher>,
) -> Result<MigrationReport, String> {
    let mut job = MigrationJob::start(store);
    loop {
        match job.next() {
            MigrationAction::FetchNovel { url } => {
                let answer = fetch_novel(chikari, &url);
                job.on_novel(store, answer);
            }
            MigrationAction::FindSlug { title } => {
                let answer = find_slug_by_title(chikari, &title);
                job.on_search(store, answer);
            }
            MigrationAction::Finish => return Ok(job.finish()),
        }
    }
}

fn source_name_for(url: &str) -> String {
    url::Url::parse(url)
        .ok()
        .and_then(|u| u.host_str().map(str::to_string))
        .and_then(|h| {
            h.trim_start_matches("www.")
                .split('.')
                .next()
                .map(str::to_string)
        })
        .unwrap_or_else(|| "other".into())
}

fn store_with(subs: &[(&str, &str)]) -> Store {
    let mut store = Store::open_in_memory();
    for (title, url) in subs {
        let meta = NovelMeta {
            title: (*title).to_string(),
            author: Some("A".into()),
            cover_url: None,
            genre: None,
            status_hint: NovelStatus::Ongoing,
            source_url: (*url).to_string(),
        };
        store.subscribe(&meta, &source_name_for(url)).unwrap();
    }
    store
}

fn primary_id(store: &Store, novel_id: i64) -> i64 {
    store
        .find_novel(&novel_id.to_string())
        .unwrap()
        .primary_source()
        .unwrap()
        .id
}

fn source_url(store: &Store, novel_id: i64) -> String {
    store
        .find_novel(&novel_id.to_string())
        .unwrap()
        .primary_source()
        .unwrap()
        .url
        .clone()
}

#[test]
fn repoints_a_subscription_whose_slug_carried_over() {
    let mut store = store_with(&[("Shadow Slave", "https://lightnovelworld.org/novel/shadow-slave/")]);
    let fetcher = CannedFetcher::new().with_novel("shadow-slave", "Shadow Slave");
    let chikari = ChikariSource::new(fetcher);

    let report = migrate_with(&mut store, &chikari).unwrap();
    assert!(report.complete);
    assert_eq!(report.moved().len(), 1);
    assert_eq!(source_url(&store, 1), "https://chikari.moe/novels/shadow-slave");
}

#[test]
fn stored_chapters_keep_their_source_and_are_not_orphaned() {
    let mut store = store_with(&[("Shadow Slave", "https://lightnovelworld.org/novel/shadow-slave/")]);
    let source_id = store
        .find_novel("1")
        .unwrap()
        .primary_source()
        .unwrap()
        .id;
    for n in 1..=3 {
        store
            .insert_chapter_if_absent(
                1,
                source_id,
                &Chapter {
                    number: n,
                    title: format!("Ch {n}"),
                    paragraphs: vec!["prose".into()],
                },
            )
            .unwrap();
    }

    let chikari = ChikariSource::new(CannedFetcher::new().with_novel("shadow-slave", "Shadow Slave"));
    migrate_with(&mut store, &chikari).unwrap();

    let novel = store.find_novel("1").unwrap();
    let primary = novel.primary_source().unwrap();
    assert_eq!(primary.id, source_id, "same row, so chapters stay attributed");
    assert_eq!(primary.name, "chikari");
    assert_eq!(novel.chapter_count, 3, "chapters survived untouched");
    assert!(store.chapters_from_other_sources(1, source_id).is_empty());
}

#[test]
fn recovers_a_changed_slug_by_title_search() {
    let mut store = store_with(&[("Reverend Insanity", "https://lightnovelworld.org/novel/reverend-insanity-old/")]);
    let fetcher = CannedFetcher::new()
        .with_novel("reverend-insanity", "Reverend Insanity")
        .with(
            "https://chikari.moe/api/novels/search?q=Reverend+Insanity&limit=20",
            r#"[{"slug":"reverend-insanity","title":"Reverend Insanity"}]"#,
        );
    let chikari = ChikariSource::new(fetcher);

    let report = migrate_with(&mut store, &chikari).unwrap();
    assert!(report.complete);
    assert!(matches!(
        report.outcomes[0],
        MigrationOutcome::Moved { via_title_search: true, .. }
    ));
    assert_eq!(source_url(&store, 1), "https://chikari.moe/novels/reverend-insanity");
}

#[test]
fn leaves_a_novel_chikari_lacks_alone() {
    let mut store = store_with(&[("Obscure Web Serial", "https://lightnovelworld.org/novel/obscure-web-serial/")]);
    let fetcher = CannedFetcher::new().with(
        "https://chikari.moe/api/novels/search?q=Obscure+Web+Serial&limit=20",
        "[]",
    );
    let chikari = ChikariSource::new(fetcher);

    let report = migrate_with(&mut store, &chikari).unwrap();
    assert!(matches!(report.outcomes[0], MigrationOutcome::NotOnChikari { .. }));
    assert!(report.complete, "a definite 'not there' still settles the question");
    assert_eq!(
        source_url(&store, 1),
        "https://lightnovelworld.org/novel/obscure-web-serial/",
        "left working on the old site"
    );
}

#[test]
fn a_novel_left_behind_promotes_its_surviving_source() {
    let mut store = store_with(&[("Obscure Serial", "https://lightnovelworld.org/novel/obscure-serial/")]);
    let dead = primary_id(&store, 1);
    store
        .add_source(1, "freewebnovel", "https://freewebnovel.com/novel/obscure-serial")
        .unwrap();
    for n in 1..=3 {
        store
            .insert_chapter_if_absent(1, dead, &Chapter {
                number: n,
                title: format!("Ch {n}"),
                paragraphs: vec!["prose".into()],
            })
            .unwrap();
    }
    let chikari = ChikariSource::new(CannedFetcher::new().with(
        "https://chikari.moe/api/novels/search?q=Obscure+Serial&limit=20",
        "[]",
    ));

    let report = migrate_with(&mut store, &chikari).unwrap();
    assert!(matches!(
        report.outcomes[0],
        MigrationOutcome::NotOnChikari { promoted: Some(ref s), .. } if s == "freewebnovel"
    ));

    let novel = store.find_novel("1").unwrap();
    let primary = novel.primary_source().unwrap();
    assert_eq!(primary.name, "freewebnovel");
    assert_eq!(novel.chapter_count, 3, "chapters kept");
    assert!(
        store.chapters_from_other_sources(1, primary.id).is_empty(),
        "and not queued for a pointless re-download"
    );
    assert_eq!(novel.sources.len(), 2);
    assert!(novel.sources.iter().any(|s| s.priority == 2 && s.url.contains("lightnovelworld")));
}

#[test]
fn a_novel_left_behind_with_no_other_source_is_untouched() {
    let mut store = store_with(&[("Only Here", "https://lightnovelworld.org/novel/only-here/")]);
    let chikari = ChikariSource::new(
        CannedFetcher::new()
            .with("https://chikari.moe/api/novels/search?q=Only+Here&limit=20", "[]"),
    );

    let report = migrate_with(&mut store, &chikari).unwrap();
    assert!(matches!(
        report.outcomes[0],
        MigrationOutcome::NotOnChikari { promoted: None, .. }
    ));
    assert_eq!(source_url(&store, 1), "https://lightnovelworld.org/novel/only-here/");
}

#[test]
fn a_dead_fallback_does_not_disturb_a_working_primary() {
    let mut store = store_with(&[("Kept", "https://www.royalroad.com/fiction/1/kept")]);
    store
        .add_source(1, "lightnovelworld", "https://lightnovelworld.org/novel/kept/")
        .unwrap();
    let chikari = ChikariSource::new(
        CannedFetcher::new().with("https://chikari.moe/api/novels/search?q=Kept&limit=20", "[]"),
    );

    let report = migrate_with(&mut store, &chikari).unwrap();
    assert!(matches!(
        report.outcomes[0],
        MigrationOutcome::NotOnChikari { promoted: None, .. }
    ));
    let novel = store.find_novel("1").unwrap();
    assert_eq!(novel.primary_source().unwrap().name, "royalroad");
}

#[test]
fn a_slug_collision_does_not_retarget_the_subscription() {
    let mut store = store_with(&[("The Innkeeper", "https://lightnovelworld.org/novel/the-innkeeper/")]);
    let fetcher = CannedFetcher::new()
        .with_novel("the-innkeeper", "The Innkeeper's Daughter")
        .with(
            "https://chikari.moe/api/novels/search?q=The+Innkeeper&limit=20",
            "[]",
        );
    let chikari = ChikariSource::new(fetcher);

    let report = migrate_with(&mut store, &chikari).unwrap();
    assert!(matches!(report.outcomes[0], MigrationOutcome::NotOnChikari { .. }));
    assert_eq!(
        source_url(&store, 1),
        "https://lightnovelworld.org/novel/the-innkeeper/",
        "not silently bound to a different novel"
    );
}

#[test]
fn an_unreachable_site_defers_instead_of_deciding() {
    let mut store = store_with(&[("Shadow Slave", "https://lightnovelworld.org/novel/shadow-slave/")]);
    let chikari = ChikariSource::new(CannedFetcher::new().down("https://chikari.moe/"));

    let report = migrate_with(&mut store, &chikari).unwrap();
    assert!(matches!(report.outcomes[0], MigrationOutcome::Undetermined { .. }));
    assert!(!report.complete, "so the marker isn't set and it runs again");
    assert_eq!(source_url(&store, 1), "https://lightnovelworld.org/novel/shadow-slave/");
}

#[test]
fn other_sites_are_untouched_and_cost_no_requests() {
    let mut store = store_with(&[
        ("A ScribbleHub Novel", "https://www.scribblehub.com/series/1/a-scribblehub-novel/"),
        ("A Royal Road Novel", "https://royalroad.com/fiction/1/x"),
    ]);
    let fetcher = CannedFetcher::new();
    let chikari = ChikariSource::new(fetcher);

    let report = migrate_with(&mut store, &chikari).unwrap();
    assert!(report.is_empty());
    assert!(report.complete);
    assert_eq!(
        source_url(&store, 1),
        "https://www.scribblehub.com/series/1/a-scribblehub-novel/"
    );
}

#[test]
fn a_lightnovelworld_fallback_moves_and_keeps_its_priority() {
    let mut store = store_with(&[("Shadow Slave", "https://freewebnovel.com/novel/shadow-slave")]);
    store
        .add_source(1, "lightnovelworld", "https://lightnovelworld.org/novel/shadow-slave/")
        .unwrap();
    let chikari = ChikariSource::new(CannedFetcher::new().with_novel("shadow-slave", "Shadow Slave"));

    let report = migrate_with(&mut store, &chikari).unwrap();
    assert_eq!(report.moved().len(), 1);

    let novel = store.find_novel("1").unwrap();
    assert_eq!(novel.primary_source().unwrap().url, "https://freewebnovel.com/novel/shadow-slave");
    let fallback = novel.sources.iter().find(|s| s.priority == 2).unwrap();
    assert_eq!(fallback.url, "https://chikari.moe/novels/shadow-slave");
    assert_eq!(fallback.name, "chikari");
}

#[test]
fn an_existing_chikari_source_is_reported_not_clobbered() {
    let mut store = store_with(&[("Shadow Slave", "https://lightnovelworld.org/novel/shadow-slave/")]);
    store
        .add_source(1, "chikari", "https://chikari.moe/novels/shadow-slave")
        .unwrap();
    let chikari = ChikariSource::new(CannedFetcher::new().with_novel("shadow-slave", "Shadow Slave"));

    let report = migrate_with(&mut store, &chikari).unwrap();
    assert!(matches!(report.outcomes[0], MigrationOutcome::Undetermined { .. }));
    let novel = store.find_novel("1").unwrap();
    assert_eq!(novel.sources.len(), 2, "both rows survive");
}

#[test]
fn the_marker_stops_it_running_twice() {
    let mut store = store_with(&[("Shadow Slave", "https://lightnovelworld.org/novel/shadow-slave/")]);
    assert!(store.meta_get(MIGRATION_KEY).is_none());

    let chikari = ChikariSource::new(CannedFetcher::new().with_novel("shadow-slave", "Shadow Slave"));
    let report = migrate_with(&mut store, &chikari).unwrap();
    assert!(report.complete);
    record(&mut store, &report);
    assert_eq!(store.meta_get(MIGRATION_KEY).as_deref(), Some("done"));

    assert!(!is_pending(&store));
}

#[test]
fn an_undetermined_run_is_not_marked_done() {
    let mut store = store_with(&[("Shadow Slave", "https://lightnovelworld.org/novel/shadow-slave/")]);
    let chikari = ChikariSource::new(CannedFetcher::new().down("https://chikari.moe/"));
    let report = migrate_with(&mut store, &chikari).unwrap();
    record(&mut store, &report);
    assert!(is_pending(&store));
    assert_eq!(
        *chikari.fetcher.requested.lock().unwrap(),
        vec!["https://chikari.moe/api/novels/shadow-slave"]
    );
}

#[test]
fn a_migration_accounts_for_every_source_in_order() {
    let mut store = store_with(&[
        ("Shadow Slave", "https://lightnovelworld.org/novel/shadow-slave/"),
        ("No Slug", "https://lightnovelworld.org/"),
        ("Elsewhere", "https://example.com/novel/elsewhere/"),
        ("Gone", "https://lightnovelworld.org/novel/gone/"),
    ]);
    let mut job = MigrationJob::start(&store);
    let mut steps = 0;
    loop {
        steps += 1;
        match job.next() {
            MigrationAction::FetchNovel { url } if url.ends_with("/shadow-slave") => {
                let meta = NovelMeta {
                    title: "Shadow Slave".into(),
                    author: None,
                    cover_url: None,
                    genre: None,
                    status_hint: NovelStatus::Ongoing,
                    source_url: url,
                };
                job.on_novel(&mut store, Ok(meta));
            }
            MigrationAction::FetchNovel { .. } => {
                job.on_novel(&mut store, Err(Failure { message: "404".into(), not_found: true }));
            }
            MigrationAction::FindSlug { .. } => job.on_search(&mut store, Ok(None)),
            MigrationAction::Finish => break,
        }
    }
    assert_eq!(steps, 4);
    let report = job.finish();
    assert!(!report.complete);
    assert_eq!(report.outcomes.len(), 3);
    assert!(matches!(&report.outcomes[0], MigrationOutcome::Moved { novel_id: 1, .. }));
    assert!(matches!(&report.outcomes[1], MigrationOutcome::Undetermined { novel_id: 2, .. }));
    assert!(matches!(&report.outcomes[2], MigrationOutcome::NotOnChikari { novel_id: 4, .. }));
}
