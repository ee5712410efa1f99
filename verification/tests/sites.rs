use vesper::fetch::Duration;
use vesper::lightnovelworld;
use vesper::profiles;
use vesper::royalroad;
use vesper::scribblehub::{
    admin_ajax_url, clean_title, parse_post_id, parse_toc_links, parse_total, to_refs, Request,
    SeriesWalk,
};
use vesper::scribblehub;
use vesper::site::{resolve, Site, Tier};
use vesper::source::{
    novel_base, parse_chapter_body, parse_chapter_links, parse_novel_meta, parse_status_hint,
};
use vesper::{
    build_source, ChapterRef, CurlFetcher, GenericSource, LightNovelWorldSource, NovelStatus,
    RoyalRoadSource, ScribbleHubSource,
};

const LNW_HTML: &str = r#"
    <html><head>
      <meta property="og:title" content="Shadow Slave by Guiltythree - 3105 Chapters">
      <meta property="og:image" content="https://lightnovelworld.org/cover.jpg">
    </head><body>
      <h1 class="novel-title">Shadow Slave</h1>
      <a href="/author/guiltythree/" class="author-link">Guiltythree</a>
      <span class="status-badge ongoing">Ongoing</span>
    </body></html>"#;

#[test]
fn lightnovelworld_parses_novel_metadata() {
    let meta =
        lightnovelworld::parse_novel(LNW_HTML, "https://lightnovelworld.org/novel/shadow-slave/")
            .unwrap();
    assert_eq!(meta.title, "Shadow Slave");
    assert_eq!(meta.author.as_deref(), Some("Guiltythree"));
    assert_eq!(meta.cover_url.as_deref(), Some("https://lightnovelworld.org/cover.jpg"));
    assert_eq!(meta.status_hint, NovelStatus::Ongoing);
}

#[test]
fn lightnovelworld_reads_total_chapters() {
    assert_eq!(lightnovelworld::parse_total_chapters(LNW_HTML), Some(3105));
}

#[test]
fn generates_sequential_chapter_urls() {
    assert_eq!(
        novel_base("https://lightnovelworld.org/novel/shadow-slave/"),
        "https://lightnovelworld.org/novel/shadow-slave"
    );
}

#[test]
fn cleans_doubled_chapter_title() {
    let html = "<html><body><h1 class=\"chapter-title\">Chapter 1 - 1: Nightmare Begins</h1></body></html>";
    assert_eq!(
        lightnovelworld::parse_chapter_title(html).as_deref(),
        Some("Nightmare Begins")
    );
}

#[test]
fn strip_leading_number_colon_cases() {
    assert_eq!(
        lightnovelworld::strip_leading_number_colon("1: Nightmare Begins"),
        "Nightmare Begins"
    );
    assert_eq!(lightnovelworld::strip_leading_number_colon("Just a Title"), "Just a Title");
}

#[test]
fn lightnovelworld_lists_what_the_page_counts() {
    let source = LightNovelWorldSource::new(());
    let refs = source
        .list_chapters(LNW_HTML, "https://lightnovelworld.org/novel/shadow-slave/")
        .unwrap();
    assert_eq!(refs.len(), 3105);
    assert_eq!(refs[0].url, "https://lightnovelworld.org/novel/shadow-slave/chapter/1/");
    assert!(source.list_chapters("<p></p>", "https://lightnovelworld.org/novel/x/").is_err());
    assert!(source.matches("https://lightnovelworld.org/novel/x/"));
    assert_eq!(
        lightnovelworld::slug_from_url("https://lightnovelworld.org/novel/x/chapter/3/").as_deref(),
        Some("x")
    );
    assert_eq!(lightnovelworld::slug_from_url("https://lightnovelworld.org/about"), None);
}

#[test]
fn parses_window_chapters() {
    let html = r#"<html><body><script>
        window.chapters = [
          {"id":301778,"title":"1. Good Morning Brother","order":0,"visible":1,"url":"/fiction/21220/x/chapter/301778/1-good-morning-brother"},
          {"id":301779,"title":"2. Life's Problems","order":1,"visible":1,"url":"/fiction/21220/x/chapter/301779/2-life"},
          {"id":301780,"title":"Hidden","order":2,"visible":0,"url":"/fiction/21220/x/chapter/301780/h"}
        ];
        window.fictionInfo = {};
    </script></body></html>"#;
    let refs = royalroad::parse_chapters(html, "https://www.royalroad.com/fiction/21220/x").unwrap();
    assert_eq!(refs.len(), 2, "visible:0 chapter skipped");
    assert_eq!(refs[0].number, 1);
    assert_eq!(refs[0].title, "Good Morning Brother"); // "1. " stripped
    assert_eq!(refs[1].title, "Life's Problems");
    assert!(refs[0].url.starts_with("https://www.royalroad.com/fiction/"));
}

#[test]
fn skips_decoy_paragraphs() {
    let html = r#"<html><head><style>.deadbeef{ display: none; speak: never; }</style></head>
        <body><div class="chapter-inner chapter-content">
          <p class="aaa">Real paragraph one.</p>
          <p class="deadbeef">Stolen from RoyalRoad decoy text.</p>
          <p class="bbb">Real paragraph two.</p>
        </div></body></html>"#;
    let paras = royalroad::parse_body(html).unwrap();
    assert_eq!(paras, vec!["Real paragraph one.", "Real paragraph two."]);
}

#[test]
fn parses_metadata_and_status() {
    let html = r#"<html><head>
        <title>Mother of Learning | Royal Road</title>
        <meta name="twitter:creator" content="nobody103">
        <meta property="og:image" content="https://cdn/cover.jpg">
        </head><body>
        <span class="label">Fantasy</span>
        <span class="label label-default">COMPLETED</span>
        </body></html>"#;
    let meta = royalroad::parse_novel(html, "https://www.royalroad.com/fiction/21220/x").unwrap();
    assert_eq!(meta.title, "Mother of Learning");
    assert_eq!(meta.author.as_deref(), Some("nobody103"));
    assert_eq!(meta.cover_url.as_deref(), Some("https://cdn/cover.jpg"));
    assert_eq!(meta.status_hint, NovelStatus::Completed);
}

#[test]
fn a_fiction_page_without_a_list_is_an_error() {
    let base = "https://www.royalroad.com/fiction/1/x";
    assert!(royalroad::parse_chapters("<html></html>", base).is_err());
    assert!(royalroad::parse_chapters("<script>window.chapters = [oops];</script>", base).is_err());
    assert!(royalroad::parse_body("<html></html>").is_err());
    assert!(RoyalRoadSource::new(()).matches("https://www.royalroad.com/fiction/1/x"));
}

#[test]
fn cleans_chapter_prefix() {
    assert_eq!(clean_title("Chapter 135. Sting like a bee"), "Sting like a bee");
    assert_eq!(clean_title("Chapter 1. Arrival."), "Arrival.");
    assert_eq!(clean_title("Prologue"), "Prologue");
}

#[test]
fn parses_toc_links_in_reading_order() {
    let refs = to_refs(
        &vec![
            ("https://s/2".to_string(), "Chapter 2. Two".to_string()),
            ("https://s/1".to_string(), "Chapter 1. One".to_string()),
        ],
        41,
    );
    assert_eq!(refs[0].number, 41);
    assert_eq!(refs[0].url, "https://s/1");
    assert_eq!(refs[1].number, 42);
}

#[test]
fn parses_toc_links() {
    let html = r#"<div>
      <a class="toc_a" href="https://www.scribblehub.com/read/1-x/chapter/22/">Chapter 2. Two</a>
      <a class="toc_a" href="https://www.scribblehub.com/read/1-x/chapter/11/">Chapter 1. One</a>
    </div>"#;
    let links = parse_toc_links(html);
    assert_eq!(links.len(), 2);
    // to_refs reverses newest-first -> oldest-first and numbers from `start`.
    let refs = to_refs(&links, 1);
    assert_eq!(refs[0].number, 1);
    assert_eq!(refs[0].title, "One");
    assert_eq!(refs[1].title, "Two");
}

const SERIES: &str = r#"<html><head>
    <meta property="og:title" content="Farming Monster Girls">
    <meta property="og:image" content="https://www.scribblehub.com/img/noimagefound.jpg">
    </head><body>
    <a href="/profile/190510/firlinedboots/">FirLinedBoots</a>
    <input type="hidden" id="mypostid" value="1947818">
    <span class="cnt_toc">145</span>
    </body></html>"#;

#[test]
fn parses_metadata_and_ids() {
    let meta =
        scribblehub::parse_novel(SERIES, "https://www.scribblehub.com/series/1947818/x/").unwrap();
    assert_eq!(meta.title, "Farming Monster Girls");
    assert_eq!(meta.author.as_deref(), Some("FirLinedBoots"));
    assert_eq!(meta.cover_url, None, "noimagefound placeholder is not a cover");
    assert_eq!(parse_post_id(SERIES).as_deref(), Some("1947818"));
    assert_eq!(parse_total(SERIES), Some(145));
}

#[test]
fn a_series_is_walked_through_its_listing() {
    let url = "https://www.scribblehub.com/series/1947818/x/";
    let mut walk = SeriesWalk::latest(url);
    match walk.next_request() {
        Some(Request::Get { url: asked }) => assert_eq!(asked, url),
        other => panic!("{other:?}"),
    }
    walk.accept(SERIES).unwrap();
    match walk.next_request() {
        Some(Request::Post { url: asked, body }) => {
            assert_eq!(asked, admin_ajax_url(url).unwrap());
            assert_eq!(asked, "https://www.scribblehub.com/wp-admin/admin-ajax.php");
            assert!(body.contains("1947818"), "{body}");
        }
        other => panic!("{other:?}"),
    }
    walk.accept(
        r#"<a class="toc_a" href="https://www.scribblehub.com/read/1-x/chapter/22/">Chapter 145. End</a>
           <a class="toc_a" href="https://www.scribblehub.com/read/1-x/chapter/11/">Chapter 144. Before</a>"#,
    )
    .unwrap();
    assert!(walk.next_request().is_none());
    let refs = walk.finish().unwrap();
    assert_eq!(refs.iter().map(|c| c.number).collect::<Vec<_>>(), vec![144, 145]);
    assert_eq!(refs[1].title, "End");
}

#[test]
fn a_series_page_without_an_id_stops_the_walk() {
    let mut walk = SeriesWalk::full("https://www.scribblehub.com/series/1/x/");
    assert!(walk.accept("<html></html>").is_err());
    assert!(ScribbleHubSource::new(()).matches("https://www.scribblehub.com/series/1/x/"));
}

const CHAPTER_HTML: &str = r#"
    <html><head><title>Ch 1</title></head><body>
      <div id="chapter-content" class="chapter-c">
        <p>First paragraph.</p>
        <div class="ads ads-holder"><ins>an advert</ins></div>
        <p>  Second paragraph.  </p>
        <p></p>
      </div>
    </body></html>"#;

const NOVEL_HTML: &str = r#"
    <html><head>
      <meta property="og:novel:novel_name" content="Cultivation Online">
      <meta property="og:novel:author" content="MyLittleBrother">
      <meta property="og:image" content="https://novgo.net/cover.jpg">
      <meta property="og:novel:status" content="1">
    </head><body>
      <a href="/cultivation-online-novel/chapter-1-a.html">Chapter 1 - A</a>
      <a href="/cultivation-online-novel/chapter-2-b.html">Chapter 2 - B</a>
      <a href="/cultivation-online-novel/chapter-2-b.html">Chapter 2 - B (dup)</a>
      <a href="/some/other/page.html">Not a chapter</a>
    </body></html>"#;

#[test]
fn extracts_paragraphs_and_skips_ads_and_blanks() {
    let profile = profiles::novgo();
    let paras =
        parse_chapter_body(CHAPTER_HTML, &profile.content_selector, &profile.paragraph_selector)
            .unwrap();
    assert_eq!(paras, vec!["First paragraph.", "Second paragraph."]);
}

#[test]
fn extracts_novel_metadata() {
    let meta =
        parse_novel_meta(NOVEL_HTML, "https://novgo.net/cultivation-online-novel.html").unwrap();
    assert_eq!(meta.title, "Cultivation Online");
    assert_eq!(meta.author.as_deref(), Some("MyLittleBrother"));
    assert_eq!(meta.cover_url.as_deref(), Some("https://novgo.net/cover.jpg"));
    assert_eq!(meta.status_hint, NovelStatus::Ongoing);
}

#[test]
fn parses_and_resolves_chapter_links() {
    let links =
        parse_chapter_links(NOVEL_HTML, "https://novgo.net/cultivation-online-novel.html").unwrap();
    // Two distinct chapters plus a duplicate; the non-chapter link is skipped.
    assert_eq!(links.len(), 3);
    assert!(links.iter().all(|c| c.url.starts_with("https://novgo.net/")));
    assert_eq!(links[0].number, 1);
}

#[test]
fn a_malformed_selector_or_an_empty_page_is_an_error() {
    assert!(parse_chapter_body(CHAPTER_HTML, "[", "p").is_err());
    assert!(parse_chapter_body("<html></html>", "#chapter-content", "p").is_err());
    assert!(parse_novel_meta("<html></html>", "https://novgo.net/x.html").is_err());
    assert!(parse_chapter_links(NOVEL_HTML, "not a url").is_err());
}

#[test]
fn a_listing_is_walked_until_it_repeats_itself() {
    let source = GenericSource::new(profiles::novgo(), CurlFetcher::new(Duration::zero()));
    assert_eq!(source.name(), profiles::novgo().name);
    let mut walk =
        source.discover_chapters("https://novgo.net/cultivation-online-novel.html", None);
    let first = walk.next_url().unwrap();
    walk.accept(NOVEL_HTML).unwrap();
    let second = walk.next_url().unwrap();
    assert_ne!(first, second);
    walk.accept(NOVEL_HTML).unwrap();
    assert_eq!(walk.next_url(), None, "nothing new on the second page");
    let numbers: Vec<u32> = walk.finish().iter().map(|c| c.number).collect();
    assert_eq!(numbers, vec![1, 2]);
}

#[test]
fn a_walk_stops_at_its_cap() {
    let mut profile = profiles::novgo();
    profile.max_pages = 2;
    let source = GenericSource::new(profile, ());
    let mut walk = source.discover_chapters("https://novgo.net/x.html", None);
    walk.accept(r#"<a href="/x/chapter-1.html">One</a>"#).unwrap();
    assert_eq!(walk.next_url().as_deref(), Some("https://novgo.net/x.html?page=2"));
    walk.accept(r#"<a href="/x/chapter-2.html">Two</a>"#).unwrap();
    assert_eq!(walk.next_url(), None);
    let mut short = source.discover_chapters("https://novgo.net/x.html", Some(1));
    short.accept(r#"<a href="/x/chapter-1.html">One</a>"#).unwrap();
    assert_eq!(short.next_url(), None, "enough chapters are known");
}

#[test]
fn a_chapter_page_reads_under_the_links_title() {
    let source = GenericSource::new(profiles::novgo(), ());
    let wanted = ChapterRef {
        number: 9,
        title: "Nine".to_string(),
        url: "https://novgo.net/x/chapter-9.html".to_string(),
    };
    let ch = source.read_chapter(CHAPTER_HTML, &wanted).unwrap();
    assert_eq!((ch.number, ch.title.as_str(), ch.paragraphs.len()), (9, "Nine", 2));
}

#[test]
fn a_profile_names_the_sites_own_markers() {
    let mut profile = profiles::novgo();
    profile.chapter_marker = "ep-".to_string();
    profile.page_param = "p".to_string();
    let source = GenericSource::new(profile, ());
    let page = r#"<a href="/book/ep-7">Seven</a><a href="/book/chapter-8">Eight</a>"#;
    let refs = source.read_latest(page, "https://site.example/book").unwrap();
    assert_eq!(refs.len(), 1);
    assert_eq!((refs[0].number, refs[0].title.as_str()), (7, "Seven"));
    let mut walk = source.discover_chapters("https://site.example/book", None);
    walk.accept(page).unwrap();
    assert_eq!(walk.next_url().as_deref(), Some("https://site.example/book?p=2"));
}

#[test]
fn a_profile_file_needs_a_name_a_host_and_a_content_selector() {
    let full = profiles::parse_profile(
        "[profile]\nname = mine\nhost = mine.example\ncontent_selector = #text\nmax_pages = 9\n",
    )
    .unwrap();
    assert_eq!((full.name.as_str(), full.host.as_str()), ("mine", "mine.example"));
    assert_eq!(full.content_selector, "#text");
    assert_eq!((full.paragraph_selector.as_str(), full.max_pages), ("p", 9));
    assert_eq!((full.chapter_marker.as_str(), full.page_param.as_str()), ("chapter-", "page"));
    assert_eq!(
        profiles::parse_profile("[profile]\nname = mine\nhost = mine.example\n").unwrap_err(),
        "missing key content_selector"
    );
    assert_eq!(
        profiles::profile_from(&None).unwrap_err(),
        "missing key name"
    );
    assert!(profiles::parse_profile("[profile\n").is_err());
}

#[test]
fn a_bad_profile_is_skipped_and_the_others_load() {
    let good = profiles::parse_profile(
        "[profile]\nname = mine\nhost = mine.example\ncontent_selector = #text\n",
    );
    let (known, warnings) = profiles::merge(vec![
        ("bad.ini".to_string(), Err("missing key name".to_string())),
        ("good.ini".to_string(), good),
    ]);
    assert_eq!(known.iter().map(|p| p.name.as_str()).collect::<Vec<_>>(), vec!["novgo", "mine"]);
    assert_eq!(warnings, vec!["skipping profile bad.ini: missing key name"]);
    assert!(matches!(resolve("https://mine.example/x", &known), Some(Site::Profile(_))));
    assert!(matches!(resolve("https://chikari.moe/novels/x", &known), Some(Site::Chikari)));
    assert!(build_source("https://mine.example/x").is_none());
}

#[test]
fn a_users_profile_does_not_replace_a_built_in_one() {
    let mut mine = profiles::novgo();
    mine.name = "mine".to_string();
    let (known, _) = profiles::merge(vec![("novgo.ini".to_string(), Ok(mine))]);
    match resolve("https://novgo.net/x.html", &known) {
        Some(Site::Profile(p)) => assert_eq!(p.name, "novgo"),
        other => panic!("{other:?}"),
    }
    assert_eq!(profiles::for_url("https://NOVGO.net/x.html").unwrap().name, "novgo");
}

#[test]
fn status_words_are_understood() {
    assert_eq!(parse_status_hint("Completed"), NovelStatus::Completed);
    assert_eq!(parse_status_hint("ONGOING"), NovelStatus::Ongoing);
    assert_eq!(parse_status_hint("who knows"), NovelStatus::Unknown);
}

#[test]
fn each_address_finds_its_site() {
    assert!(matches!(build_source("https://chikari.moe/novels/x"), Some(Site::Chikari)));
    assert!(matches!(
        build_source("https://freewebnovel.com/novel/x"),
        Some(Site::Freewebnovel)
    ));
    assert!(matches!(
        build_source("https://www.royalroad.com/fiction/1/x"),
        Some(Site::RoyalRoad)
    ));
    assert!(matches!(
        build_source("https://www.scribblehub.com/series/1/x/"),
        Some(Site::ScribbleHub)
    ));
    match build_source("https://novgo.net/x.html") {
        Some(Site::Profile(p)) => assert_eq!(p.host, "novgo.net"),
        other => panic!("{other:?}"),
    }
    assert!(build_source("https://nowhere.example/x").is_none());
    assert!(build_source("nonsense").is_none());
    assert_eq!(build_source("https://freewebnovel.com/novel/x").unwrap().tier(), Tier::Curl);
    assert_eq!(build_source("https://novgo.net/x.html").unwrap().tier(), Tier::Http);
}

#[test]
fn only_a_numbering_is_stripped_from_a_title() {
    assert_eq!(royalroad::clean_title("3.5 Interlude"), "3.5 Interlude");
    assert_eq!(royalroad::clean_title(" 12. Arrival "), "Arrival");
    assert_eq!(royalroad::clean_title("12: Arrival"), "Arrival");
    assert_eq!(royalroad::clean_title("12:30"), "12:30");
    assert_eq!(royalroad::clean_title("12."), "12.");
    assert_eq!(clean_title("7. Rain"), "Rain");
    assert_eq!(clean_title("Chapter One"), "Chapter One");
    assert_eq!(clean_title("12-Year-Old Mage"), "12-Year-Old Mage");
    assert_eq!(clean_title("Chapter 12"), "Chapter 12");
}

#[test]
fn only_what_is_not_displayed_is_a_decoy() {
    let page = |css: &str| {
        format!(
            "<style>{css}</style><div class=\"chapter-inner\"><p class=\"a\">One.</p>\
             <p class=\"b\">Two.</p></div>"
        )
    };
    let body = |css: &str| royalroad::parse_body(&page(css)).unwrap();
    assert_eq!(body(".a{display:block;float:none}"), vec!["One.", "Two."]);
    assert_eq!(body(".a { color: red; DISPLAY : None !important }"), vec!["Two."]);
    assert_eq!(body(".x{float:none} .y, .b{speak:never;display:none}"), vec!["One."]);
    assert_eq!(body(".a-display-none{color:red}"), vec!["One.", "Two."]);
}

#[test]
fn a_profile_says_where_a_novels_metadata_stands() {
    let profile = profiles::parse_profile(
        "[profile]\nname = mine\nhost = mine.example\ncontent_selector = #text\n\
         title_selector = h1.name\nauthor_selector = .by\ncover_selector = img.cover\n\
         status_selector = .state\n",
    )
    .unwrap();
    let source = GenericSource::new(profile, ());
    let html = "<meta property=\"og:title\" content=\"Mine - Some Novel\">\
                <meta property=\"og:image\" content=\"https://mine.example/og.jpg\">\
                <h1 class=\"name\"> Some Novel </h1><img class=\"cover\" src=\"/c/1.jpg\">\
                <i class=\"state\">Completed</i>";
    let meta = source.read_novel(html, "https://mine.example/n/1").unwrap();
    assert_eq!(meta.title, "Some Novel");
    assert_eq!(meta.author, None);
    assert_eq!(meta.cover_url.as_deref(), Some("https://mine.example/c/1.jpg"));
    assert_eq!(meta.status_hint, NovelStatus::Completed);
    let bare = "<meta property=\"og:title\" content=\"Mine - Some Novel\">";
    let fallback = source.read_novel(bare, "https://mine.example/n/1").unwrap();
    assert_eq!(fallback.title, "Mine - Some Novel");
    let novgo = GenericSource::new(profiles::novgo(), ());
    assert_eq!(novgo.read_novel(html, "https://novgo.net/x.html").unwrap().title, "Mine - Some Novel");
}

#[test]
fn a_numbering_ends_in_a_dot_or_a_colon() {
    assert_eq!(clean_title("Chapter 5: Foo"), "Foo");
    assert_eq!(clean_title("5: Foo"), "Foo");
    assert_eq!(clean_title("Chapter 5-Foo"), "Foo");
    assert_eq!(clean_title("5-Foo"), "5-Foo");
    assert_eq!(clean_title("CHAPTER 5. "), "CHAPTER 5.");
}

#[test]
fn comments_in_a_style_sheet_say_nothing() {
    let body = |css: &str| {
        royalroad::parse_body(&format!(
            "<style>{css}</style><div class=\"chapter-inner\"><p class=\"a\">One.</p>\
             <p class=\"b\">Two.</p></div>"
        ))
        .unwrap()
    };
    assert_eq!(body(".a{/**/display:none}"), vec!["Two."]);
    assert_eq!(body("/* } */ .a{ display /* ; */ : /* { */ none }"), vec!["Two."]);
    assert_eq!(body("/* .a{display:none} */ .b{color:red}"), vec!["One.", "Two."]);
    assert_eq!(body(".a{display:none} /* .b{display:none}"), vec!["Two."]);
}
