use vesper::chikari::{
    is_chikari_host, match_slug_by_title, novel_url, parse_chapter_page, parse_latest, parse_novel,
    parse_read, parse_response, read_url, search_url, slug_from_url, strip_inline_markup,
    ListingWalk,
};
use vesper::fetch::{Duration, Failure};
use vesper::json::{parse_json, Json};
use vesper::{is_not_found, ChapterRef, ChikariSource, CurlFetcher, NovelStatus};

fn json(s: &str) -> Json {
    parse_json(s).unwrap()
}

fn novel_json() -> Json {
    json(
        r#"{
            "id": 50,
            "slug": "shadow-slave",
            "title": "Shadow Slave",
            "status": "releasing",
            "chapter_count": 3150,
            "stored_chapter_count": 3150,
            "latest_number": 3150.0,
            "cover_url": "https://cdn.chikari.moe/novels/53/cover.webp",
            "genres": [{"slug": "action", "name": "Action"}, {"slug": "fantasy", "name": "Fantasy"}],
            "authors": [
                {"name": "Some Translator", "slug": "t", "role": "translator"},
                {"name": "GuiltyThree", "slug": "guiltythree", "role": "author"}
            ]
        }"#,
    )
}

#[test]
fn chikari_parses_novel_metadata() {
    let meta = parse_novel(&novel_json(), &novel_url("shadow-slave")).unwrap();
    assert_eq!(meta.title, "Shadow Slave");
    assert_eq!(meta.author.as_deref(), Some("GuiltyThree"), "the author, not the translator");
    assert_eq!(
        meta.cover_url.as_deref(),
        Some("https://cdn.chikari.moe/novels/53/cover.webp")
    );
    assert_eq!(meta.genre.as_deref(), Some("Action, Fantasy"));
    assert_eq!(meta.status_hint, NovelStatus::Ongoing, "\"releasing\" is ongoing");
    assert_eq!(meta.source_url, "https://chikari.moe/novels/shadow-slave");
}

#[test]
fn falls_back_to_the_first_author_when_no_role_is_credited() {
    let v = json(r#"{"title": "X", "authors": [{"name": "Only One", "slug": "o"}]}"#);
    assert_eq!(parse_novel(&v, "u").unwrap().author.as_deref(), Some("Only One"));
}

#[test]
fn slugs_come_from_novel_and_chapter_urls() {
    assert_eq!(slug_from_url("https://chikari.moe/novels/shadow-slave").unwrap(), "shadow-slave");
    assert_eq!(slug_from_url("https://chikari.moe/novels/shadow-slave/").unwrap(), "shadow-slave");
    assert_eq!(slug_from_url("https://chikari.moe/novels/shadow-slave/42").unwrap(), "shadow-slave");
    assert_eq!(slug_from_url("https://chikari.moe/novel/shadow-slave").unwrap(), "shadow-slave");
    assert!(slug_from_url("https://chikari.moe/series/one-piece").is_err());
    assert!(slug_from_url("https://chikari.moe/novels").is_err());
}

#[test]
fn discovery_lists_only_the_numbers_the_site_reports() {
    let page = json(
        r#"{
            "items": [
                {"number": 1.0, "title": "Chapter 1 - 1: Nightmare Begins"},
                {"number": 2.0, "title": "Chapter 2 Slave Caravan"},
                {"number": 4.0, "title": "Chapter 4: The Fourth"}
            ],
            "total": 3
        }"#,
    );
    let (refs, total) = parse_chapter_page(&page, "shadow-slave").unwrap();
    assert_eq!(total, 3);
    assert_eq!(refs.iter().map(|c| c.number).collect::<Vec<_>>(), vec![1, 2, 4]);
    assert_eq!(refs[0].title, "Nightmare Begins", "doubled \"N:\" prefix stripped");
    assert_eq!(refs[1].title, "Slave Caravan");
    assert_eq!(refs[2].title, "The Fourth");
    assert_eq!(refs[0].url, "https://chikari.moe/api/novels/shadow-slave/chapters/1/read");
}

#[test]
fn fractional_chapter_numbers_are_skipped_not_rounded() {
    let page = json(
        r#"{
            "items": [
                {"number": 12.0, "title": "Chapter 12"},
                {"number": 12.5, "title": "Chapter 12.5 Interlude"},
                {"number": 13.0, "title": "Chapter 13"}
            ],
            "total": 3
        }"#,
    );
    let (refs, _) = parse_chapter_page(&page, "x").unwrap();
    assert_eq!(refs.iter().map(|c| c.number).collect::<Vec<_>>(), vec![12, 13]);
}

#[test]
fn keeps_a_bare_chapter_label_when_there_is_no_name() {
    let page = json(r#"{"items": [{"number": 7.0, "title": "Chapter 7"}], "total": 1}"#);
    let (refs, _) = parse_chapter_page(&page, "x").unwrap();
    assert_eq!(refs[0].title, "Chapter 7");
    let page = json(r#"{"items": [{"number": 8.0}], "total": 1}"#);
    let (refs, _) = parse_chapter_page(&page, "x").unwrap();
    assert_eq!(refs[0].title, "Chapter 8");
}

fn a_ref(number: u32) -> ChapterRef {
    ChapterRef {
        number,
        title: format!("Chapter {number}"),
        url: read_url("x", number),
    }
}

#[test]
fn reads_a_chapter_body_into_paragraphs() {
    let v = json(
        r#"{
            "number": 1.0,
            "title": "Chapter 1 - 1: Nightmare Begins",
            "body": "First paragraph.\n\nSecond paragraph.\n\n  \n Third paragraph. "
        }"#,
    );
    let ch = parse_read(&v, &a_ref(1)).unwrap();
    assert_eq!(ch.number, 1);
    assert_eq!(ch.title, "Nightmare Begins");
    assert_eq!(
        ch.paragraphs,
        vec!["First paragraph.", "Second paragraph.", "Third paragraph."]
    );
}

#[test]
fn strips_inline_markup_but_keeps_stray_angle_brackets() {
    let v = json(
        r#"{
            "number": 2.0,
            "title": "Chapter 2",
            "body": "He <em>ran</em> fast.<br/>\nShe said <i>no</i>.\nDamage: 5 < 10 and a <notatag> stays."
        }"#,
    );
    let ch = parse_read(&v, &a_ref(2)).unwrap();
    assert_eq!(
        ch.paragraphs,
        vec![
            "He ran fast.",
            "She said no.",
            "Damage: 5 < 10 and a <notatag> stays."
        ]
    );
}

#[test]
fn non_ascii_prose_is_not_mangled() {
    let v = json(r#"{"number": 3.0, "title": "", "body": "「こんにちは」と<b>言った</b>。\nDash — and é."}"#);
    let ch = parse_read(&v, &a_ref(3)).unwrap();
    assert_eq!(ch.paragraphs, vec!["「こんにちは」と言った。", "Dash — and é."]);
    assert_eq!(ch.title, "Chapter 3");
}

#[test]
fn locked_chapter_is_a_retryable_error() {
    let v = json(
        r#"{
            "number": 9.0,
            "title": "Chapter 9",
            "body": "",
            "locked": true,
            "lock_reason": "early access"
        }"#,
    );
    let err = parse_read(&v, &a_ref(9)).unwrap_err();
    assert!(err.contains("locked"), "{err}");
    assert!(!is_not_found(&Failure::other(err)), "a lock is not a 404 gap");
}

#[test]
fn empty_body_is_rejected_rather_than_stored() {
    let v = json(r#"{"number": 4.0, "title": "Chapter 4", "body": "   \n  \n"}"#);
    assert!(parse_read(&v, &a_ref(4)).is_err());
}

#[test]
fn search_matches_on_the_normalized_title_only() {
    let results = json(
        r#"[
            {"slug": "shadow-slave-2", "title": "Shadow Slave: Side Stories"},
            {"slug": "shadow-slave", "title": "Shadow  Slave!"}
        ]"#,
    );
    assert_eq!(
        match_slug_by_title(&results, "Shadow Slave").as_deref(),
        Some("shadow-slave")
    );
    assert_eq!(match_slug_by_title(&results, "Shadow Slaves"), None);
    let enveloped = json(r#"{"items": [{"slug": "x", "title": "A Novel"}]}"#);
    assert_eq!(match_slug_by_title(&enveloped, "A Novel").as_deref(), Some("x"));
}

#[test]
fn matches_only_chikari_hosts() {
    let src = ChikariSource::new(CurlFetcher::new(Duration::zero()));
    assert!(src.matches("https://chikari.moe/novels/x"));
    assert!(src.matches("https://www.chikari.moe/novels/x"));
    assert!(!src.matches("https://lightnovelworld.org/novel/x/"));
    assert!(!src.matches("https://notchikari.moe/novels/x"));
}

#[test]
fn restores_the_space_the_site_dropped_beside_markup() {
    let v = json(
        r#"{
            "number": 5.0,
            "title": "Chapter 5",
            "body": "He said <em>\u201cno\u201d</em>Devon thought.\nAlready <em>spaced</em> here."
        }"#,
    );
    let ch = parse_read(&v, &a_ref(5)).unwrap();
    assert_eq!(
        ch.paragraphs,
        vec![
            "He said \u{201c}no\u{201d} Devon thought.",
            "Already spaced here.",
        ]
    );
}

#[test]
fn does_not_inject_spaces_into_cjk_prose() {
    let v = json(
        r#"{
            "number": 6.0,
            "title": "Chapter 6",
            "body": "\u300c\u3053\u3093\u306b\u3061\u306f\u300d\u3068<b>\u8a00\u3063\u305f</b>\u3002"
        }"#,
    );
    let ch = parse_read(&v, &a_ref(6)).unwrap();
    assert_eq!(
        ch.paragraphs,
        vec!["\u{300c}\u{3053}\u{3093}\u{306b}\u{3061}\u{306f}\u{300d}\u{3068}\u{8a00}\u{3063}\u{305f}\u{3002}"]
    );
}

#[test]
fn spacing_matches_what_the_prose_actually_needs() {
    let cases = [
        ("to finally have a<strong>[+1]</strong>next to it.", "to finally have a [+1] next to it."),
        ("<strong>[Name:</strong>Lisa", "[Name: Lisa"),
        ("<strong>Level:</strong>03", "Level: 03"),
        ("hologram,<strong>Isabella Vance</strong>\u{2019}s heart", "hologram, Isabella Vance\u{2019}s heart"),
        ("with<strong>[Aptitude Lv 2]</strong>, he heard", "with [Aptitude Lv 2], he heard"),
        ("<strong>Status:</strong>Online<strong>]</strong>", "Status: Online]"),
        ("She said <i>no</i>.", "She said no."),
    ];
    for (raw, want) in cases {
        assert_eq!(strip_inline_markup(raw), want, "input: {raw:?}");
    }
}

#[test]
fn a_title_is_encoded_into_the_search_address() {
    assert_eq!(
        search_url("Reverend Insanity & Co"),
        "https://chikari.moe/api/novels/search?q=Reverend+Insanity+%26+Co&limit=20"
    );
}

#[test]
fn a_response_that_is_no_json_is_refused() {
    assert!(parse_response("<html>", "https://chikari.moe/x").is_err());
    assert!(parse_response("{\"a\": [1, null, true, \"x\"]}", "u").is_ok());
}

#[test]
fn hosts_compare_without_case_or_www() {
    assert!(is_chikari_host("WWW.Chikari.MOE") || is_chikari_host("www.Chikari.MOE"));
    assert!(!is_chikari_host("chikari.moe.example"));
}

#[test]
fn a_listing_is_walked_page_by_page() {
    let mut walk = ListingWalk::new("x".to_string(), None);
    let first = walk.next_url().unwrap();
    assert!(first.starts_with("https://chikari.moe/api/novels/x/chapters?"), "{first}");
    walk.accept(&json(
        r#"{"items": [{"number": 2.0}, {"number": 1.0}], "total": 3}"#,
    ))
    .unwrap();
    let second = walk.next_url().unwrap();
    assert_ne!(first, second);
    walk.accept(&json(r#"{"items": [{"number": 3.0}], "total": 3}"#)).unwrap();
    assert_eq!(walk.next_url(), None);
    let numbers: Vec<u32> = walk.finish().iter().map(|c| c.number).collect();
    assert_eq!(numbers, vec![1, 2, 3]);
}

#[test]
fn the_latest_chapters_come_out_ascending() {
    let refs = parse_latest(
        &json(r#"{"items": [{"number": 9.0}, {"number": 8.0}, {"number": 7.0}], "total": 9}"#),
        "x",
    )
    .unwrap();
    assert_eq!(refs.iter().map(|c| c.number).collect::<Vec<_>>(), vec![7, 8, 9]);
}

#[test]
fn a_chapter_that_reads_has_text() {
    let ch = parse_read(&json(r#"{"title": "Chapter 1", "body": "One."}"#), &a_ref(1)).unwrap();
    assert!(!ch.paragraphs.is_empty());
    assert!(ch.paragraphs.iter().all(|p| !p.trim().is_empty()));
}

#[test]
fn a_search_sends_the_title_form_encoded() {
    assert_eq!(
        search_url("A b/\u{e9}*~_-.%+"),
        "https://chikari.moe/api/novels/search?q=A+b%2F%C3%A9*%7E_-.%25%2B&limit=20"
    );
}
