use std::collections::BTreeSet;

use vesper::util::{
    clean_chapter_title, normalize_title, parse_chapter_number, parse_chapter_spec,
    sanitize_filename, timestamp,
};
use vesper::{epub_path, novel_dir};

#[test]
fn sanitizes_illegal_characters() {
    assert_eq!(sanitize_filename("A/B:C?D"), "A_B_C_D");
}

#[test]
fn normalizes_titles_for_matching() {
    // Same novel, different site formatting -> equal.
    assert_eq!(normalize_title("Shadow Slave"), normalize_title("shadow-slave"));
    assert_eq!(normalize_title("Pain Immunity: X!"), "painimmunityx");
    // Distinct titles stay distinct.
    assert_ne!(normalize_title("Slime Evolution"), normalize_title("Slime Rancher"));
    // Non-Latin titles survive (Chinese chars are alphanumeric).
    assert_eq!(normalize_title("陷阵营营长"), "陷阵营营长");
}

#[test]
fn trims_trailing_dots_and_spaces() {
    assert_eq!(sanitize_filename("Novel Name. "), "Novel Name");
}

#[test]
fn escapes_reserved_names() {
    assert_eq!(sanitize_filename("CON"), "_CON");
    assert_eq!(sanitize_filename("nul.epub"), "_nul.epub");
}

#[test]
fn never_empty() {
    assert_eq!(sanitize_filename("   "), "untitled");
    assert_eq!(sanitize_filename("???"), "untitled");
}

#[test]
fn keeps_normal_titles() {
    assert_eq!(sanitize_filename("Cultivation Online"), "Cultivation Online");
}

#[test]
fn cleans_chapter_title_prefix() {
    assert_eq!(clean_chapter_title("Chapter 1 - Cultivation Online"), "Cultivation Online");
    assert_eq!(clean_chapter_title("Chapter 42: Death Penalty"), "Death Penalty");
    assert_eq!(clean_chapter_title("Chapter 7 \u{2013} The Stone Tablets"), "The Stone Tablets");
    // Only a prefix, no real name -> keep original.
    assert_eq!(clean_chapter_title("Chapter 5"), "Chapter 5");
    // Not a chapter-prefixed title -> unchanged.
    assert_eq!(clean_chapter_title("Prologue"), "Prologue");
}

#[test]
fn parses_chapter_numbers() {
    assert_eq!(
        parse_chapter_number("/cultivation-online-novel/chapter-42-some-title.html"),
        Some(42)
    );
    assert_eq!(
        parse_chapter_number("https://novgo.net/x/chapter-1-cultivation-online.html"),
        Some(1)
    );
    assert_eq!(parse_chapter_number("/no-chapter-here/index.html"), None);
}

#[test]
fn parses_chapter_specs() {
    let set = |v: &[u32]| v.iter().copied().collect::<BTreeSet<u32>>();
    assert_eq!(parse_chapter_spec("152").unwrap(), set(&[152]));
    // Ranges are inclusive at both ends.
    assert_eq!(parse_chapter_spec("152-154").unwrap(), set(&[152, 153, 154]));
    assert_eq!(parse_chapter_spec("1,5,10-12").unwrap(), set(&[1, 5, 10, 11, 12]));
    // Whitespace and overlap are tolerated; the result is a set.
    assert_eq!(parse_chapter_spec(" 3 , 1-3 ").unwrap(), set(&[1, 2, 3]));
    // A single-number "range" is just that number.
    assert_eq!(parse_chapter_spec("7-7").unwrap(), set(&[7]));
}

#[test]
fn rejects_specs_that_would_not_mean_what_was_typed() {
    for bad in ["", "  ", ",", "abc", "1-", "-5", "0", "0-3", "5-1", "1,x"] {
        assert!(
            parse_chapter_spec(bad).is_err(),
            "{bad:?} should be rejected, not silently reinterpreted"
        );
    }
}

#[test]
fn a_title_with_wide_letters_is_cleaned_without_a_panic() {
    assert_eq!(clean_chapter_title("Chaptéré 1: X"), "Chaptéré 1: X");
    assert_eq!(clean_chapter_title("第一章"), "第一章");
}

#[test]
fn a_number_past_the_range_is_no_chapter_number() {
    assert_eq!(parse_chapter_number("/x/chapter-4294967295.html"), Some(u32::MAX));
    assert_eq!(parse_chapter_number("/x/chapter-4294967296.html"), None);
}

#[test]
fn names_in_mixed_case_normalize_alike() {
    assert_eq!(normalize_title("ÉTOILE Noire"), "étoilenoire");
}

#[test]
fn sanitized_names_hold_no_illegal_character() {
    let name = sanitize_filename("<a>:\"b\"/\\c|d?e*f\u{1}");
    for c in ['<', '>', ':', '"', '/', '\\', '|', '?', '*', '\u{1}'] {
        assert!(!name.contains(c), "{name:?}");
    }
}

#[test]
fn a_clock_before_the_epoch_reads_as_zero() {
    assert_eq!(timestamp(None), 0);
    assert_eq!(timestamp(Some(1_700_000_000)), 1_700_000_000);
}

#[test]
fn single_volume_layout() {
    let p = epub_path("/lib", Some("MyLittleBrother"), "Cultivation Online", None);
    assert!(p.ends_with("MyLittleBrother/Cultivation Online/Cultivation Online.epub"));
}

#[test]
fn volume_layout() {
    let p = epub_path("/lib", Some("Author"), "Some Novel", Some(2));
    assert!(p.ends_with("Author/Some Novel/Some Novel - Vol 02.epub"));
}

#[test]
fn missing_author_falls_back() {
    let p = epub_path("/lib", None, "Orphan Novel", None);
    assert!(p.ends_with("Unknown Author/Orphan Novel/Orphan Novel.epub"));
}

#[test]
fn components_are_sanitized() {
    let p = epub_path("/lib", Some("A/B"), "Novel: Rise?", None);
    assert!(p.ends_with("A_B/Novel_ Rise_/Novel_ Rise_.epub"));
}

#[test]
fn an_epub_lies_in_its_novels_folder() {
    let dir = novel_dir("/lib", Some("Author"), "Some Novel");
    let file = epub_path("/lib", Some("Author"), "Some Novel", Some(12));
    assert_eq!(dir.root, "/lib");
    assert_eq!(dir.parts, vec!["Author", "Some Novel"]);
    assert_eq!(file.parts[..2], dir.parts[..]);
    assert_eq!(file.parts[2], "Some Novel - Vol 12.epub");
    assert!(!file.ends_with("Other/Some Novel - Vol 12.epub"));
    assert!(!dir.ends_with("a/b/c/d"));
}

#[test]
fn volumes_do_not_share_a_file() {
    let a = epub_path("/lib", None, "N", Some(1));
    let b = epub_path("/lib", None, "N", Some(101));
    assert_eq!(a.parts[2], "N - Vol 01.epub");
    assert_eq!(b.parts[2], "N - Vol 101.epub");
}

#[test]
fn punctuation_and_case_do_not_tell_titles_apart() {
    assert_eq!(normalize_title("The King\u{2019}s Avatar"), normalize_title("the kings AVATAR!"));
}

#[test]
fn numbers_read_back() {
    for n in [0u64, 7, 10, 4_294_967_295, u64::MAX] {
        let digits = vesper::text::decimal_chars(n);
        assert_eq!(vesper::text::parse_u64(&digits, u64::MAX), Some(n));
    }
    assert_eq!(vesper::text::parse_u32(&['4', 'x']), None);
}

#[test]
fn a_file_name_never_ends_in_a_dot_or_white_space() {
    assert_eq!(sanitize_filename("A.\u{a0}"), "A");
    assert_eq!(sanitize_filename("..\u{a0}"), "untitled");
    assert_eq!(sanitize_filename("\u{3000}A . \u{2003}. "), "A");
    assert_eq!(sanitize_filename("con.\u{a0}"), "_con");
}

#[test]
fn sanitizing_twice_is_sanitizing_once() {
    for name in ["A/B:C?D", "Novel Name. ", "nul.epub", "???", "..\u{a0}", "\u{a0}x.\u{a0}", ""] {
        let once = sanitize_filename(name);
        assert_eq!(sanitize_filename(&once), once, "{name:?}");
    }
}

#[test]
fn a_normalized_title_holds_letters_and_digits_alone() {
    assert_eq!(normalize_title("\u{130}stanbul"), "istanbul");
    for title in ["\u{130}stanbul 12", "STRASSE \u{1e9e}", "A-b_C!", "\u{212a}elvin"] {
        let once = normalize_title(title);
        assert!(once.chars().all(char::is_alphanumeric), "{once:?}");
        assert_eq!(normalize_title(&once), once);
    }
    assert_eq!(normalize_title("\u{212a}elvin"), normalize_title("KELVIN"));
}

#[test]
fn an_ordinal_is_no_chapter_number() {
    assert_eq!(clean_chapter_title("Chapter 12th Night"), "Chapter 12th Night");
    assert_eq!(clean_chapter_title("Chapter 12 Night"), "Night");
    assert_eq!(clean_chapter_title("Chapter 5.5 - Aside"), "Chapter 5.5 - Aside");
    assert_eq!(clean_chapter_title("Chapter 61|Gifts"), "Gifts");
}
