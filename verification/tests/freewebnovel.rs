use vesper::freewebnovel::{
    parse_chapter_title, parse_total_chapters, strip_promo, strip_promo_paragraphs,
    strip_site_suffix,
};
use vesper::source::{novel_base, parse_novel_meta};
use vesper::{ChapterRef, FreewebnovelSource, NovelStatus};


const NOVEL_HTML: &str = r#"
    <html><head>
      <meta property="og:novel:novel_name" content="The Bloodline System">
      <meta property="og:novel:author" content="Timvic">
      <meta property="og:novel:status" content="Completed">
      <meta property="og:image" content="https://freewebnovel.com/cover.jpg">
    </head><body>
      <div id="indexListPage" data-total-chapters="1688" data-total-page="43"></div>
    </body></html>"#;

#[test]
fn freewebnovel_reads_total_chapters() {
    assert_eq!(parse_total_chapters(NOVEL_HTML), Some(1688));
}

#[test]
fn novel_base_strips_query() {
    assert_eq!(
        novel_base("https://freewebnovel.com/novel/the-bloodline-system?page=2"),
        "https://freewebnovel.com/novel/the-bloodline-system"
    );
}

fn title_html(inner: &str) -> String {
    format!("<html><head><title>{inner}</title></head><body></body></html>")
}

#[test]
fn parses_chapter_title_from_title_tag() {
    let html = title_html("The Bloodline System - Chapter 1 - How It All Began | Free Web Novel");
    assert_eq!(parse_chapter_title(&html).as_deref(), Some("How It All Began"));
}

/// The common freewebnovel shape: the chapter name is separated from
/// "Chapter N" by a pipe, the same character the site-name suffix uses.
#[test]
fn parses_chapter_title_separated_by_pipe() {
    let html = title_html(
        "Investing In My Three Crippled Wives Get 10,000x Times Return - Chapter 1 | The Three Wives | Free Web Novel",
    );
    assert_eq!(parse_chapter_title(&html).as_deref(), Some("The Three Wives"));
}

/// A name containing a comma/pipe-free run still survives the end-anchored
/// suffix strip.
#[test]
fn parses_chapter_title_with_punctuation() {
    let html = title_html(
        "Investing In My Three Crippled Wives Get 10,000x Times Return - Chapter 62 | Trouble, Heading To The Hero Association | Free Web Novel",
    );
    assert_eq!(
        parse_chapter_title(&html).as_deref(),
        Some("Trouble, Heading To The Hero Association")
    );
}

/// Some chapters omit the separator entirely.
#[test]
fn parses_chapter_title_separated_by_space() {
    let html = title_html(
        "Investing In My Three Crippled Wives Get 10,000x Times Return - Chapter 61 Gifts & Forgiveness | Free Web Novel",
    );
    assert_eq!(parse_chapter_title(&html).as_deref(), Some("Gifts & Forgiveness"));
}

/// No name on the page — the caller's "Chapter N" placeholder is what we
/// end up with either way.
#[test]
fn unnamed_chapter_falls_back_to_number() {
    let html = title_html("The Bloodline System - Chapter 5 | Free Web Novel");
    assert_eq!(parse_chapter_title(&html).as_deref(), Some("Chapter 5"));
}

#[test]
fn strips_only_the_site_suffix() {
    assert_eq!(strip_site_suffix("A - Chapter 1 | Name | Free Web Novel"), "A - Chapter 1 | Name");
    assert_eq!(strip_site_suffix("A - Chapter 1 | Name"), "A - Chapter 1 | Name");
}

#[test]
fn status_word_form_parses_completed() {
    let meta = parse_novel_meta(NOVEL_HTML, "https://freewebnovel.com/novel/the-bloodline-system").unwrap();
    assert_eq!(meta.title, "The Bloodline System");
    assert_eq!(meta.author.as_deref(), Some("Timvic"));
    assert_eq!(meta.status_hint, NovelStatus::Completed);
}

/// Marks taken verbatim from a real library, mangled spellings included.
const MARKS: &[&str] = &[
    "Enjoy exclusive adventures from freewebnovel",
    "Updates by Freewebnovel. com",
    "Experience exclusive tales on freewebnovel.com",
    "Continue -reading on Freewebnovel.com",
    "Your next journey awaits at freewebnovel",
    "--- Discover stories with empire",
    "Continue your saga on empire",
    "Stay tuned for updates on empire",
    "Read the latest on freewebnovel",
];

/// Real prose from the same library. Every one of these mentions an
/// in-story empire, which is why detection can't just look for the word.
const PROSE: &[&str] = &[
    "Eldorath Empire.",
    "Iron Empire.",
    "\"The Empire is protected by the mighty War God. Of course they're not afraid to burn a temple.\"",
    "Followers of War burned the temples of Shadow, and their empire spread, consuming many weaker realms.\"",
    "'So the Nine were determined to destroy the Empire...'",
    "\"WELCOME, LADIES AND GENTLEMEN, TO THE EMPIRE'S GRAND YOUTH TOURNAMENT!\"",
    "He was a soldier of a militant empire which worshiped War God and had conquered many lands.",
];

#[test]
fn drops_a_paragraph_that_is_only_a_mark() {
    for m in MARKS {
        assert_eq!(strip_promo(m), None, "{m:?} should be dropped");
    }
}

#[test]
fn keeps_prose_about_an_in_story_empire() {
    for p in PROSE {
        assert_eq!(strip_promo(p).as_deref(), Some(*p), "{p:?} is prose");
    }
}

#[test]
fn strips_a_mark_appended_to_a_real_paragraph() {
    assert_eq!(
        strip_promo("\"What do you want, Derek?\" Alice asked coldly. Find more chapters on empire")
            .as_deref(),
        Some("\"What do you want, Derek?\" Alice asked coldly.")
    );
    assert_eq!(
        strip_promo("Bang! Your adventure continues at empire").as_deref(),
        Some("Bang!")
    );
    assert_eq!(
        strip_promo(
            "Max sighed. \"Thorne Family sure is rich,\" he muttered, smiling. \
             Find your next read on freewebnovel.com"
        )
        .as_deref(),
        Some("Max sighed. \"Thorne Family sure is rich,\" he muttered, smiling.")
    );
}

#[test]
fn filters_a_whole_chapter() {
    let paragraphs: Vec<String> = [
        "He drew his sword.",
        "Enjoy more content from freewebnovel",
        "The blade sang. Stay updated with freewebnovel",
    ]
    .iter()
    .map(|s| s.to_string())
    .collect();
    assert_eq!(
        strip_promo_paragraphs(&paragraphs),
        vec!["He drew his sword.".to_string(), "The blade sang.".to_string()]
    );
}

/// Marks that survived the first pass, because it looked for a mark after a
/// full stop and a space. The site also appends after a bracket, an
/// ellipsis or a dash, glues one on with no space at all, and drops a bare
/// decorated domain between two sentences.
#[test]
fn strips_marks_the_punctuation_hid() {
    let cases = [
        (
            "Then\u{2014}without hesitation\u{2014} Enjoy exclusive content from freewebnovel",
            "Then\u{2014}without hesitation\u{2014}",
        ),
        (
            "[Energy decreased by 0.1] Discover more stories at freewebnovel",
            "[Energy decreased by 0.1]",
        ),
        (
            "Just when the countdown reach 10, 9, 8\u{2026} Find your next read on empire",
            "Just when the countdown reach 10, 9, 8\u{2026}",
        ),
        ("[Max] Explore stories at empire", "[Max]"),
        (
            "\u{2013} Battle Coins: [9240] Stay updated via empire",
            "\u{2013} Battle Coins: [9240]",
        ),
        (
            "See you in the Battle Realm at noon tomorrow.] Read exclusive adventures at empire",
            "See you in the Battle Realm at noon tomorrow.]",
        ),
        (
            "ordinary people would not last so long.\u{201c}Please reading on Freewebnovel.com >\u{201d}",
            "ordinary people would not last so long.",
        ),
        (
            "Those were the Mad Blood weapons. \u{2018}Freewebnovel.com*\u{2019}It turned out that they were gone.",
            "Those were the Mad Blood weapons. It turned out that they were gone.",
        ),
    ];
    for (raw, want) in cases {
        assert_eq!(strip_promo(raw).as_deref(), Some(want), "input: {raw:?}");
    }
}

/// The reason `empire` has to end the paragraph: mid-sentence it is prose,
/// preposition in front of it or not.
#[test]
fn keeps_an_empire_that_the_sentence_carries_past() {
    for prose in [
        "In the war with empire forces, the column marched on.",
        "He rode to empire lands and never came back.",
    ] {
        assert_eq!(strip_promo(prose).as_deref(), Some(prose), "{prose:?}");
    }
}

/// Prose that has a mark's exact shape: capitalised word, lowercase words,
/// preposition, then a bare lower-case "empire" at the end of the
/// paragraph. Only the pitch vocabulary tells this from an advert.
#[test]
fn keeps_prose_shaped_like_a_mark() {
    for prose in [
        "The road to empire.",
        "Their long march to empire.",
        "A thousand years of war, and every step on the road to empire.",
    ] {
        assert_eq!(strip_promo(prose).as_deref(), Some(prose), "{prose:?}");
    }
}

/// Every distinct `empire` mark the library held, so tightening the pitch
/// list can't quietly stop catching one.
#[test]
fn catches_every_observed_empire_mark() {
    for mark in [
        "Continue reading on empire",
        "Continue your saga on empire",
        "Discover hidden content at empire",
        "Discover more stories at empire",
        "Discover stories with empire",
        "Enjoy exclusive content from empire",
        "Enjoy more content from empire",
        "Enjoy new chapters from empire",
        "Experience more on empire",
        "Experience tales at empire",
        "Explore more at empire",
        "Explore stories at empire",
        "Find adventures on empire",
        "Find more chapters on empire",
        "Find your next adventure on empire",
        "Find your next read at empire",
        "Find your next read on empire",
        "Read exclusive adventures at empire",
        "Read new adventures at empire",
        "Read the latest on empire",
        "Stay tuned for updates on empire",
        "Stay updated through empire",
        "Stay updated via empire",
        "Your adventure continues at empire",
    ] {
        assert_eq!(strip_promo(mark), None, "{mark:?} should be dropped");
        let appended = format!("She turned away. {mark}");
        assert_eq!(
            strip_promo(&appended).as_deref(),
            Some("She turned away."),
            "{appended:?}"
        );
    }
}

/// A chapter that is nothing but marks keeps its text: losing the advert is
/// not worth losing the chapter.
#[test]
fn a_chapter_of_nothing_but_marks_is_left_alone() {
    let only = vec!["Read the latest on freewebnovel".to_string()];
    assert_eq!(strip_promo_paragraphs(&only), only);
}

#[test]
fn chapters_are_listed_from_the_total() {
    let source = FreewebnovelSource::new(());
    let refs = source
        .list_chapters(
            "<div data-total-chapters=\"3\"></div>",
            "https://freewebnovel.com/novel/x?page=2",
        )
        .unwrap();
    assert_eq!(refs.len(), 3);
    assert_eq!(refs[2].number, 3);
    assert_eq!(refs[2].title, "Chapter 3");
    assert_eq!(refs[2].url, "https://freewebnovel.com/novel/x/chapter-3");
    assert!(source.list_chapters("<p>nothing</p>", "https://freewebnovel.com/novel/x").is_err());
    assert!(source.matches("https://freewebnovel.com/novel/x"));
    assert!(!source.matches("https://example.com/novel/x"));
}

#[test]
fn a_chapter_page_is_read_without_its_marks() {
    let source = FreewebnovelSource::new(());
    let page = r#"<html><head><title>Book - Chapter 4 - Dawn | Free Web Novel</title></head>
        <body><div class="txt"><p>He woke.</p><p>Read the latest on freewebnovel</p></div></body></html>"#;
    let wanted = ChapterRef {
        number: 4,
        title: "Chapter 4".to_string(),
        url: "https://freewebnovel.com/novel/x/chapter-4".to_string(),
    };
    let ch = source.read_chapter(page, &wanted).unwrap();
    assert_eq!((ch.number, ch.title.as_str()), (4, "Dawn"));
    assert_eq!(ch.paragraphs, vec!["He woke."]);
    assert!(source.read_chapter("<html></html>", &wanted).is_err());
}

#[test]
fn a_quote_in_front_of_a_pitch_goes_with_it() {
    assert_eq!(
        strip_promo("He left.'Read more on freewebnovel.com'").as_deref(),
        Some("He left.")
    );
    assert_eq!(strip_promo("'Discover more at empire'"), None);
    assert_eq!(strip_promo("Don't stop reading on freewebnovel"), None);
}
