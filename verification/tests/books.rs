use vesper::epub::{
    cover_filename, cover_from, escape, join_numbers, lay_out, render_chapter_xhtml, render_gap_notice,
    sort_numbers,
};
use vesper::volumes::{build_volume, plan_export, Volume};
use vesper::{build_epub, epub_path, Chapter, Config, Cover, NovelMeta, NovelStatus};

fn meta() -> NovelMeta {
    NovelMeta {
        title: "Some Novel".to_string(),
        author: Some("An Author".to_string()),
        cover_url: None,
        genre: Some("Fantasy".to_string()),
        status_hint: NovelStatus::Ongoing,
        source_url: "https://example.com/n".to_string(),
    }
}

fn chapters(numbers: &[u32]) -> Vec<Chapter> {
    numbers
        .iter()
        .map(|n| Chapter {
            number: *n,
            title: format!("Title {n}"),
            paragraphs: vec![format!("Body of {n}.")],
        })
        .collect()
}

fn position(bytes: &[u8], needle: &str) -> Option<usize> {
    bytes.windows(needle.len()).position(|w| w == needle.as_bytes())
}

#[test]
fn a_book_holds_a_page_for_each_chapter_in_order() {
    let bytes = build_epub(&meta(), &chapters(&[1, 2, 3]), None, &[]).unwrap();
    assert_eq!(&bytes[..2], b"PK");
    assert!(position(&bytes, "application/epub+zip").is_some());
    let one = position(&bytes, "chapter_00001.xhtml").unwrap();
    let two = position(&bytes, "chapter_00002.xhtml").unwrap();
    let three = position(&bytes, "chapter_00003.xhtml").unwrap();
    assert!(one < two && two < three);
    assert!(position(&bytes, "missing-chapters.xhtml").is_none());
    assert!(position(&bytes, "cover.").is_none());
}

#[test]
fn a_book_with_gaps_says_so_before_the_first_chapter() {
    let cover = cover_from(vec![1, 2, 3], Some("image/png; charset=binary")).unwrap();
    let bytes = build_epub(&meta(), &chapters(&[1, 3]), Some(&cover), &[2]).unwrap();
    let picture = position(&bytes, "cover.png").unwrap();
    let notice = position(&bytes, "missing-chapters.xhtml").unwrap();
    let first = position(&bytes, "chapter_00001.xhtml").unwrap();
    assert!(picture < notice && notice < first);
}

#[test]
fn an_empty_download_is_no_cover() {
    assert!(cover_from(Vec::new(), Some("image/png")).is_none());
    let c = cover_from(vec![7], None).unwrap();
    assert_eq!((c.bytes, c.mime.as_str()), (vec![7], "image/jpeg"));
    assert_eq!(cover_from(vec![7], Some("text/html")).unwrap().mime, "image/jpeg");
    assert_eq!(cover_from(vec![7], Some(" image/webp ;q=1")).unwrap().mime, "image/webp");
}

#[test]
fn a_cover_is_filed_by_its_type() {
    assert_eq!(cover_filename("image/png"), "cover.png");
    assert_eq!(cover_filename("image/webp"), "cover.webp");
    assert_eq!(cover_filename("image/gif"), "cover.gif");
    assert_eq!(cover_filename("image/avif"), "cover.jpg");
}

#[test]
fn markup_in_the_text_is_escaped() {
    assert_eq!(escape("a < b && c > d"), "a &lt; b &amp;&amp; c &gt; d");
    assert!(!escape("<p>&</p>").contains('<'));
    let ch = Chapter {
        number: 1,
        title: "x".to_string(),
        paragraphs: vec!["One & two.".to_string(), "<three>".to_string()],
    };
    assert_eq!(
        render_chapter_xhtml("A<B", &ch),
        "<?xml version=\"1.0\" encoding=\"UTF-8\"?>\n\
         <html xmlns=\"http://www.w3.org/1999/xhtml\"><head><title>A&lt;B</title></head><body>\
         <h1>A&lt;B</h1>\n<p>One &amp; two.</p>\n<p>&lt;three&gt;</p>\n</body></html>"
    );
}

#[test]
fn a_notice_lists_what_is_missing() {
    let page = render_gap_notice(&Ok(Some("example.com".to_string())), &[7, 3]);
    assert!(page.contains("<p>2 chapters are not included in this book because example.com did"));
    assert!(page.contains("Unavailable chapter number(s): 3, 7."));
    let one = render_gap_notice(&Err("no url".to_string()), &[9]);
    assert!(one.contains("<p>1 chapter is not included in this book because the source did"));
}

#[test]
fn numbers_are_sorted_and_joined() {
    assert_eq!(sort_numbers(&[3, 1, 2, 1]), vec![1, 1, 2, 3]);
    assert_eq!(join_numbers(&[1, 20], ", ").into_iter().collect::<String>(), "1, 20");
}

fn config(split: u32) -> Config {
    let mut c = Config::defaults("/lib".to_string(), "/lib/vesper.log".to_string());
    c.split_every_chapters = split;
    c
}

#[test]
fn a_whole_novel_is_one_book() {
    let plan = plan_export(&config(0), &meta(), &chapters(&[1, 2, 4]), &[3, 9]);
    assert_eq!(plan.len(), 1);
    assert_eq!((plan[0].from, plan[0].to), (0, 3));
    assert_eq!(plan[0].gaps, vec![3, 9]);
    assert!(plan[0].path.ends_with("An Author/Some Novel/Some Novel.epub"));
}

#[test]
fn volumes_cover_every_chapter_once() {
    let plan = plan_export(&config(2), &meta(), &chapters(&[1, 2, 4, 5, 6]), &[3, 7]);
    let spans: Vec<(usize, usize)> = plan.iter().map(|v| (v.from, v.to)).collect();
    assert_eq!(spans, vec![(0, 2), (2, 4), (4, 5)]);
    assert!(plan[2].path.ends_with("Some Novel/Some Novel - Vol 03.epub"));
    let gaps: Vec<Vec<u32>> = plan.iter().map(|v| v.gaps.clone()).collect();
    assert_eq!(gaps, vec![vec![], vec![3], vec![7]]);
    let inside = plan_export(&config(3), &meta(), &chapters(&[1, 2, 4]), &[3]);
    assert_eq!(inside[0].gaps, vec![3]);
}

#[test]
fn nothing_stored_is_nothing_to_export() {
    assert!(plan_export(&config(0), &meta(), &[], &[1]).is_empty());
    assert!(plan_export(&config(5), &meta(), &[], &[1]).is_empty());
}

#[test]
fn a_volume_holds_its_own_chapters() {
    let all = chapters(&[1, 2, 3]);
    let volume = Volume {
        path: epub_path("/lib", None, "Some Novel", Some(2)),
        from: 2,
        to: 3,
        gaps: Vec::new(),
    };
    let bytes = build_volume(&meta(), &all, &volume, None).unwrap();
    assert!(position(&bytes, "chapter_00003.xhtml").is_some());
    assert!(position(&bytes, "chapter_00001.xhtml").is_none());
}

#[test]
fn new_chapters_leave_full_volumes_alone() {
    let before = plan_export(&config(2), &meta(), &chapters(&[1, 2, 3]), &[]);
    let after = plan_export(&config(2), &meta(), &chapters(&[1, 2, 3, 4, 5]), &[]);
    assert_eq!(format!("{:?}", before[0].path), format!("{:?}", after[0].path));
    assert_eq!((before[0].from, before[0].to), (after[0].from, after[0].to));
    assert_eq!((before[1].to, after[1].to), (3, 4), "the one in progress grows");
}

#[test]
fn every_gap_is_listed_in_one_volume() {
    let plan = plan_export(&config(2), &meta(), &chapters(&[1, 2, 4, 5]), &[3]);
    assert_eq!(plan.len(), 2);
    assert!(plan[0].path.ends_with("Some Novel - Vol 01.epub"));
    assert!(plan[1].path.ends_with("Some Novel - Vol 02.epub"));
    assert!(plan[0].gaps.is_empty());
    assert_eq!(plan[1].gaps, vec![3]);
    let around = plan_export(&config(2), &meta(), &chapters(&[3, 5, 8, 9]), &[1, 4, 6, 7, 12]);
    assert_eq!(around[0].gaps, vec![1, 4], "what comes first goes to the first");
    assert_eq!(around[1].gaps, vec![6, 7, 12], "what comes last goes to the last");
}

#[test]
fn a_gap_between_volumes_stands_on_a_page() {
    let all = chapters(&[1, 2, 4, 5]);
    let plan = plan_export(&config(2), &meta(), &all, &[3]);
    let first = build_volume(&meta(), &all, &plan[0], None).unwrap();
    let second = build_volume(&meta(), &all, &plan[1], None).unwrap();
    assert!(position(&first, "missing-chapters.xhtml").is_none());
    assert!(position(&second, "missing-chapters.xhtml").is_some());
}

#[test]
fn chapters_of_different_numbers_make_a_book() {
    let numbers: Vec<u32> = (1..=300).chain([99_999, 100_000, u32::MAX]).collect();
    let bytes = build_epub(&meta(), &chapters(&numbers), None, &[]).unwrap();
    assert!(position(&bytes, "chapter_00300.xhtml").is_some());
    assert!(position(&bytes, "chapter_4294967295.xhtml").is_some());
    assert!(build_epub(&meta(), &[], None, &[]).is_ok());
}

#[test]
fn two_chapters_of_one_number_are_refused() {
    let host = Ok(Some("example.com".to_string()));
    assert!(lay_out(&meta(), &host, &chapters(&[1, 2, 3]), None, &[4]).is_ok());
    assert!(lay_out(&meta(), &host, &chapters(&[1, 2, 1]), None, &[]).is_err());
    let e = build_epub(&meta(), &chapters(&[7, 7]), None, &[]).unwrap_err();
    assert!(e.starts_with("epub: "), "{e}");
    let twice = Volume {
        path: epub_path("/lib", None, "Some Novel", Some(1)),
        from: 1,
        to: 3,
        gaps: Vec::new(),
    };
    assert!(build_volume(&meta(), &chapters(&[1, 2, 2]), &twice, None).is_err());
}

#[test]
fn a_cover_and_a_notice_stand_beside_the_chapters() {
    let cover = Cover { bytes: vec![1, 2, 3], mime: "image/webp".to_string() };
    let bytes = build_epub(&meta(), &chapters(&[1, 2]), Some(&cover), &[3, 4]).unwrap();
    for file in ["cover.webp", "missing-chapters.xhtml", "chapter_00002.xhtml", "content.opf"] {
        assert!(position(&bytes, file).is_some(), "{file}");
    }
}
