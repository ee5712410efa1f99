use vesper::messages::{
    author_change, describe_config, describe_duplicate, describe_fetch, describe_gaps,
    describe_mismatch, describe_pause, describe_profile, describe_progress, describe_refresh,
    describe_refresh_row, describe_refresh_totals, describe_remaining_gaps, describe_retitle,
    describe_retitle_row, describe_status, describe_subscription, describe_sync, describe_total,
    digest_log, log_sync, log_total,
};
use vesper::schedule::{
    conclude_pass, find_source, reopen_for_gaps, rests, settle_export, should_export,
};
use vesper::service::{
    check, manager, read_status, Invocation, Manager, ServiceManager, ServiceStep,
};
use vesper::{
    Chapter, Config, DerivedState, NovelMeta, NovelStatus, Store, SyncProgress, SyncReport,
};

fn report() -> SyncReport {
    SyncReport {
        newly_fetched: 3,
        from_fallback: 1,
        upgraded: 2,
        new_state: DerivedState::Live,
        delta_mode: false,
        warnings: Vec::new(),
        failures: Vec::new(),
        gaps: vec![4],
        interrupted: false,
    }
}

fn store() -> (Store, i64) {
    let mut store = Store::open_in_memory();
    let meta = NovelMeta {
        title: "Some Novel".to_string(),
        author: None,
        cover_url: None,
        genre: None,
        status_hint: NovelStatus::Ongoing,
        source_url: "https://example.com/a.html".to_string(),
    };
    let id = store.subscribe(&meta, "example").unwrap();
    store.add_source(id, "other", "https://other.example/a").unwrap();
    (store, id)
}

#[test]
fn gaps_are_counted_and_cut_short() {
    assert_eq!(describe_gaps(&[]), "");
    assert_eq!(describe_gaps(&[3, 9]), "2 unavailable at source (404): ch. 3, 9");
    let many: Vec<u32> = (1..=40).collect();
    let line = describe_gaps(&many);
    assert!(line.starts_with("40 unavailable at source (404): ch. 1, 2, "), "{line}");
    assert!(line.ends_with(" more)"), "{line}");
}

#[test]
fn progress_is_told_in_place() {
    assert_eq!(
        describe_progress(SyncProgress::Fetching { done: 2, total: 9 }),
        "  Fetching 2/9..."
    );
    assert_eq!(
        describe_progress(SyncProgress::Upgrading { done: 1, total: 1 }),
        "  Upgrading 1/1..."
    );
}

#[test]
fn a_subscription_is_listed_with_its_sources() {
    let (mut store, id) = store();
    let primary = store.sources_for(id)[0].id;
    store.update_source_progress_at(primary, 12, 5);
    store.set_export_pending(id, true);
    let novel = store.load_novel_by_id(id).unwrap();
    assert_eq!(
        describe_subscription(&novel, &[2]),
        vec![
            "#1  Some Novel — Unknown Author  [0 chapters, backfilling, export pending]",
            "    gaps: 1 unavailable at source (404): ch. 2",
            "    [primary] example — https://example.com/a.html (last seen ch.12)",
            "    [fallback] other — https://other.example/a (not yet synced)",
        ]
    );
    assert_eq!(
        describe_status(&novel, &[]),
        vec!["  #1 Some Novel — 0 chapters [backfilling, export pending]"]
    );
    let text = describe_duplicate("some-novel", &novel, "https://third.example/a");
    assert!(text.starts_with(
        "\"some-novel\" looks like #1 \"Some Novel\" (from example), which you already follow."
    ));
    assert!(text.contains("vesper add-source 1 https://third.example/a"));
}

#[test]
fn a_changed_author_is_noticed() {
    assert_eq!(author_change(&None, &None), None);
    assert_eq!(author_change(&None, &Some("Unknown Author".to_string())), None);
    assert_eq!(
        author_change(&None, &Some("Ann".to_string())),
        Some(("Unknown Author".to_string(), "Ann".to_string()))
    );
}

#[test]
fn a_source_with_another_title_is_warned_about() {
    assert_eq!(describe_mismatch("Shadow Slave!", "shadow slave"), None);
    assert_eq!(
        describe_mismatch("A", "B").as_deref(),
        Some(
            "warning: this source's title is \"A\", but the novel is \"B\". \
             Proceeding since you asked to link them."
        )
    );
}

#[test]
fn a_profile_is_one_line() {
    assert_eq!(describe_profile(&vesper::profiles::novgo()), "  novgo.net — novgo");
}

#[test]
fn a_pass_is_summed_up() {
    let r = report();
    assert_eq!(
        describe_fetch("N", &r, 10),
        "Fetched 3 new chapters for \"N\" (1 from fallback sources), 2 upgraded from primary \
         (now 10 stored) [full scan]."
    );
    assert_eq!(
        describe_pause(7, "N", &r, 10),
        "Paused \"N\": 3 new chapter(s) saved (now 10 stored). Resume with `vesper fetch 7`."
    );
    assert_eq!(describe_sync("N", &r), "  N: +3 new chapters [full]");
    assert_eq!(
        log_sync("N", &r),
        "  N: +3 new [full], 2 upgraded, 1 unavailable at source (404): ch. 4"
    );
    assert_eq!(describe_remaining_gaps(7, &[]), None);
    assert!(describe_remaining_gaps(7, &[4]).unwrap().contains("`vesper add-source 7`"));
}

#[test]
fn a_log_is_digested() {
    let log = "a\nsync complete: 1\r\nb\nsync complete: 2\nc\n";
    let d = digest_log(log);
    assert_eq!(d.tail.last().map(String::as_str), Some("c"));
    assert!(d.tail.iter().any(|l| l == "sync complete: 1"), "{:?}", d.tail);
    assert!(digest_log("").last_complete.is_none());
    assert!(digest_log("").tail.is_empty());
}

#[test]
fn a_configuration_is_shown_line_by_line() {
    let c = Config::defaults("/lib".to_string(), "/log".to_string());
    let lines = describe_config(&c);
    assert_eq!(lines[0], "  output_dir            = /lib");
    assert_eq!(lines[1], "  request_delay_ms      = 1500");
    assert_eq!(lines[6], "  auto_export           = false");
    assert_eq!(lines[9], "  log_path              = /log");
}

#[test]
fn a_refresh_is_told() {
    let change = Some(("Unknown Author".to_string(), "Ann".to_string()));
    assert_eq!(
        describe_refresh(4, "N", &change),
        vec![
            "Refreshed \"N\": author Unknown Author -> Ann.",
            "Run `vesper export 4` to rebuild the EPUB under the new author folder.",
        ]
    );
    assert_eq!(describe_refresh(4, "N", &None), vec!["Refreshed \"N\": author unchanged."]);
    assert_eq!(describe_refresh_row("N", &change), "  N — author: Unknown Author -> Ann");
    assert_eq!(describe_refresh_row("N", &None), "  N — no author change");
    assert_eq!(describe_retitle_row("N", 0), "  N — chapter titles already correct");
    assert_eq!(describe_retitle_row("N", 3), "  N — 3 chapter title(s) corrected");
    assert_eq!(describe_retitle(4, 0), vec!["Chapter titles already correct."]);
    assert_eq!(
        describe_retitle(4, 2),
        vec!["Corrected 2 chapter title(s).", "Run `vesper export 4` to rebuild the EPUB."]
    );
    assert!(describe_refresh_totals(0, 0).is_empty());
    assert_eq!(
        describe_refresh_totals(0, 2),
        vec!["2 chapter title(s) corrected — re-export to update the EPUBs."]
    );
    assert_eq!(describe_refresh_totals(1, 2).len(), 2);
}

#[test]
fn a_complete_sync_is_found_in_the_log() {
    assert_eq!(describe_total(7, 2), "Sync complete: 7 new chapter(s) across 2 novel(s).");
    let line = format!("[2026-01-01 00:00:00] {}", log_total(7, 2));
    assert_eq!(line, "[2026-01-01 00:00:00] sync complete: 7 new across 2 novels");
    let d = digest_log(&format!("older\n{line}\nnewer\n"));
    assert_eq!(d.last_complete, Some(line));
}

#[test]
fn a_pass_leads_to_a_state_and_an_export() {
    let (mut store, id) = store();
    let mut c = Config::defaults("/lib".to_string(), "/log".to_string());
    c.auto_export = true;
    store.set_derived_state(id, DerivedState::Live);
    let end = conclude_pass(&mut store, &c, id, DerivedState::Backfilling, &report(), 9).unwrap();
    assert_eq!(end.state, DerivedState::Live);
    assert!(end.export);
    let later = conclude_pass(&mut store, &c, id, DerivedState::Live, &report(), 9).unwrap();
    assert!(!later.export);
    assert!(conclude_pass(&mut store, &c, id + 1, DerivedState::Live, &report(), 9).is_err());
}

#[test]
fn only_a_finished_novel_rests() {
    let day = 86_400;
    assert!(rests(DerivedState::LikelyComplete, Some(0), 7 * day - 1, 7));
    assert!(!rests(DerivedState::LikelyComplete, Some(0), 7 * day, 7));
    assert!(!rests(DerivedState::LikelyComplete, None, 0, 7));
    assert!(!rests(DerivedState::Live, Some(0), 0, 7));
    assert!(!rests(DerivedState::Backfilling, Some(0), 0, 7));
}

#[test]
fn exports_are_opt_in() {
    let mut c = Config::defaults("/lib".to_string(), "/log".to_string());
    let r = report();
    assert!(!should_export(&c, DerivedState::Backfilling, &r, false));
    assert!(should_export(&c, DerivedState::Backfilling, &r, true));
    c.auto_export = true;
    assert!(should_export(&c, DerivedState::Backfilling, &r, false));
    assert!(!should_export(&c, DerivedState::Live, &r, false));
    c.auto_append = true;
    assert!(should_export(&c, DerivedState::Live, &r, false));
    let mut idle = report();
    idle.newly_fetched = 0;
    idle.upgraded = 0;
    assert!(!should_export(&c, DerivedState::Live, &idle, false));
    let mut filling = report();
    filling.new_state = DerivedState::Backfilling;
    assert!(!should_export(&c, DerivedState::Backfilling, &filling, false));
}

#[test]
fn a_failed_export_stays_pending() {
    let (mut store, id) = store();
    settle_export(&mut store, id, None);
    assert!(store.load_novel_by_id(id).unwrap().export_pending);
    settle_export(&mut store, id, Some(1));
    assert!(!store.load_novel_by_id(id).unwrap().export_pending);
}

#[test]
fn a_new_source_reopens_a_novel_with_holes() {
    let (mut store, id) = store();
    store.set_derived_state(id, DerivedState::Live);
    assert!(!reopen_for_gaps(&mut store, id, 9));
    store.record_gap(id, 3).unwrap();
    assert!(reopen_for_gaps(&mut store, id, 9));
    assert_eq!(store.load_novel_by_id(id).unwrap().derived_state, DerivedState::Backfilling);
    let primary = store.sources_for(id)[0].id;
    let filled = Chapter { number: 3, title: "t".to_string(), paragraphs: vec!["p".to_string()] };
    store.insert_chapter_if_absent(id, primary, &filled).unwrap();
    assert!(!reopen_for_gaps(&mut store, id, 9));
}

#[test]
fn a_source_is_found_by_name_or_address() {
    let (mut store, id) = store();
    let sources = store.sources_for(id);
    assert_eq!(find_source(&sources, "OTHER"), Ok(sources[1].id));
    assert_eq!(find_source(&sources, "https://example.com/a.html"), Ok(sources[0].id));
    assert_eq!(find_source(&sources, "nope"), Err("no source matches \"nope\"".to_string()));
    store.add_source(id, "other", "https://other.example/b").unwrap();
    assert_eq!(
        find_source(&store.sources_for(id), "other"),
        Err("\"other\" is attached more than once; give the URL instead".to_string())
    );
}

fn written(steps: &[ServiceStep]) -> Vec<&str> {
    steps
        .iter()
        .filter_map(|s| match s {
            ServiceStep::Write { path, .. } => Some(path.as_str()),
            _ => None,
        })
        .collect()
}

fn removed(steps: &[ServiceStep]) -> Vec<&str> {
    steps
        .iter()
        .filter_map(|s| match s {
            ServiceStep::Remove { path } => Some(path.as_str()),
            _ => None,
        })
        .collect()
}

#[test]
fn uninstalling_removes_what_installing_wrote() {
    for os in ["windows", "linux", "macos"] {
        let m = manager(os, "/d".to_string()).unwrap();
        let install = m.install("/bin/vesper", 30);
        let uninstall = m.uninstall();
        let mut a = written(&install);
        let mut b = removed(&uninstall);
        a.sort();
        b.sort();
        assert!(!a.is_empty());
        assert_eq!(a, b, "{os}");
    }
    assert!(manager("plan9", "/d".to_string()).is_err());
}

#[test]
fn the_windows_task_opens_no_window() {
    let m = manager("windows", "C:\\v".to_string()).unwrap();
    assert!(matches!(m, Manager::Windows(_)));
    let steps = m.install("C:\\v\\vesper.exe", 45);
    match &steps[0] {
        ServiceStep::Write { path, content } => {
            assert_eq!(path, "C:\\v\\sync-hidden.vbs");
            assert_eq!(
                content,
                "CreateObject(\"WScript.Shell\").Run \"\"\"C:\\v\\vesper.exe\"\" sync\", 0, False\r\n"
            );
        }
        other => panic!("{other:?}"),
    }
    match &steps[1] {
        ServiceStep::Run(run) => {
            assert_eq!(run.program, "schtasks");
            assert_eq!(run.args[8], "45");
        }
        other => panic!("{other:?}"),
    }
}

#[test]
fn a_failed_step_is_told() {
    let step = Invocation {
        program: "schtasks".to_string(),
        args: Vec::new(),
        label: "schtasks /Create".to_string(),
    };
    assert_eq!(check(&step, true, "ignored"), Ok(()));
    assert_eq!(
        check(&step, false, " denied\n"),
        Err("schtasks /Create failed: denied".to_string())
    );
    assert!(!read_status(false, "x").installed);
    assert!(read_status(true, "Ready").installed);
}
