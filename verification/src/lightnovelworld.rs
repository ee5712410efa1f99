//! Hand-written adapter for lightnovelworld.org.
//!
//! The table of contents is rendered by script, and the metadata is not in
//! `og:novel:*` tags. But chapter URLs are sequential
//! (`/novel/<slug>/chapter/<n>/`) and the total count is on the novel page, so
//! the whole list comes out of one request.

use vstd::prelude::*;
use vstd::slice::slice_subrange;

use crate::model::{Chapter, ChapterRef, ChapterView, MetaView, NovelMeta, RefView};
use crate::source;
use crate::text;
use crate::util;
use crate::web;

verus! {

/// The lightnovelworld adapter, over whatever fetches its pages.
pub struct LightNovelWorldSource<F> {
    pub fetcher: F,
}

/// Where a chapter's prose stands on its page.
pub const CONTENT_SELECTOR: &'static str = "#chapterText";

pub const PARAGRAPH_SELECTOR: &'static str = "p";

/// What a novel page says of its novel.
pub open spec fn novel_of(
    title: Option<Seq<char>>,
    author: Option<Seq<char>>,
    image: Option<Seq<char>>,
    status: Option<Seq<char>>,
    source_url: Seq<char>,
) -> Result<MetaView, Seq<char>> {
    match title {
        None => Err(source::no_title(source_url)),
        Some(title) => Ok(
            MetaView {
                title,
                author,
                cover_url: source::trimmed_opt(image),
                genre: None,
                status_hint: source::status_or_unknown(status),
                source_url,
            },
        ),
    }
}

/// The metadata out of what was read off the novel page.
pub fn novel_from(
    title: Option<String>,
    author: Option<String>,
    image: Option<String>,
    status: Option<String>,
    source_url: &str,
) -> (r: Result<NovelMeta, String>)
    ensures
        source::meta_view(r) == novel_of(
            text::opt(title),
            text::opt(author),
            text::opt(image),
            text::opt(status),
            source_url@,
        ),
{
    match title {
        None => Err(text::concat("could not find a novel title on ", source_url)),
        Some(title) => Ok(
            NovelMeta {
                title,
                author,
                cover_url: source::trim_opt(image),
                genre: None,
                status_hint: source::status_from(&status),
                source_url: source_url.to_string(),
            },
        ),
    }
}

pub fn parse_novel(html: &str, source_url: &str) -> (r: Result<NovelMeta, String>)
    ensures
        source::meta_view(r) == novel_of(
            source::text_at(html@, "h1.novel-title"@),
            source::text_at(html@, "a.author-link"@),
            source::property_of(html@, "og:image"@),
            source::text_at(html@, ".status-badge"@),
            source_url@,
        ),
{
    let title = source::text_of(html, "h1.novel-title");
    let author = source::text_of(html, "a.author-link");
    let image = source::meta_content(html, "og:image");
    let status = source::text_of(html, ".status-badge");
    novel_from(title, author, image, status, source_url)
}

/// The total in a page title such as "Title by Author - N Chapters".
pub open spec fn total_in(og_title: Option<Seq<char>>) -> Option<nat> {
    match og_title {
        None => None,
        Some(t) => {
            let last = text::words(text::after_last(text::trimmed(t), " - "@));
            if last.len() == 0 {
                None
            } else {
                text::parsed(last[0], u32::MAX as nat)
            }
        },
    }
}

/// The total out of the page title.
pub fn total_from(og_title: &Option<String>) -> (r: Option<u32>)
    ensures
        r is Some == total_in(text::opt(*og_title)) is Some,
        r matches Some(n) ==> n == total_in(text::opt(*og_title))->0,
{
    match og_title {
        None => None,
        Some(t) => {
            let v = text::to_chars(t.as_str());
            let sep = text::to_chars(" - ");
            let last = text::split_words(text::after_last_of(text::trim(&v), &sep));
            let ghost w = text::views(last@);
            if last.len() == 0 {
                assert(w.len() == 0);
                None
            } else {
                assert(w[0] == last@[0]@);
                text::parse_u32(&last[0])
            }
        },
    }
}

/// Total chapter count from `og:title` ("<title> by <author> - <N> Chapters").
pub fn parse_total_chapters(html: &str) -> (r: Option<u32>)
    ensures
        r is Some == total_in(source::property_of(html@, "og:title"@)) is Some,
        r matches Some(n) ==> n == total_in(source::property_of(html@, "og:title"@))->0,
{
    total_from(&source::meta_content(html, "og:title"))
}

/// `s` without leading whitespace and a leading "N:".
pub open spec fn without_number_colon(s: Seq<char>) -> Seq<char> {
    let t = text::trimmed_start(s);
    let d = text::span(t, text::digits());
    let rest = text::trimmed_start(t.skip(d));
    if d > 0 && rest.len() > 0 && rest[0] == ':' {
        text::trimmed(rest.drop_first())
    } else {
        t
    }
}

/// [`strip_leading_number_colon`] on characters.
pub fn number_colon_off(s: &[char]) -> (r: &[char])
    ensures
        r@ == without_number_colon(s@),
{
    let t = text::trim_start(s);
    let d: usize = util::leading_digits(t);
    let after = slice_subrange(t, d, t.len());
    assert(after@ == t@.skip(d as int));
    let rest = text::trim_start(after);
    if d > 0 && rest.len() > 0 && rest[0] == ':' {
        let name = slice_subrange(rest, 1, rest.len());
        assert(name@ == rest@.drop_first());
        text::trim(name)
    } else {
        t
    }
}

pub fn strip_leading_number_colon(s: &str) -> (r: String)
    ensures
        r@ == without_number_colon(s@),
{
    let v = text::to_chars(s);
    text::to_text(number_colon_off(&v))
}

/// A chapter's name in a heading that is "Chapter N - [N:] Name".
pub open spec fn name_in(heading: Option<Seq<char>>) -> Option<Seq<char>> {
    match heading {
        None => None,
        Some(raw) => source::nonempty(Some(without_number_colon(util::cleaned_title(raw)))),
    }
}

/// The name out of the heading.
pub fn name_from(heading: &Option<String>) -> (r: Option<String>)
    ensures
        text::opt(r) == name_in(text::opt(*heading)),
{
    match heading {
        None => None,
        Some(raw) => {
            let v = text::to_chars(raw.as_str());
            let c = util::clean_title_chars(&v);
            let n = number_colon_off(&c);
            if n.len() > 0 {
                Some(text::to_text(n))
            } else {
                None
            }
        },
    }
}

/// The chapter's name from `h1.chapter-title`, without our own "Chapter N"
/// prefix and a duplicated leading "N:".
pub fn parse_chapter_title(html: &str) -> (r: Option<String>)
    ensures
        text::opt(r) == name_in(source::text_at(html@, "h1.chapter-title"@)),
{
    name_from(&source::text_of(html, "h1.chapter-title"))
}

/// The chapters a novel page stands for: all from 1 to the total it states.
pub open spec fn chapters_listed(total: Option<nat>, base: Seq<char>, url: Seq<char>) -> Result<
    Seq<RefView>,
    Seq<char>,
> {
    match total {
        Some(n) => Ok(source::sequential(n, base + "/chapter/"@, "/"@)),
        None => Err("could not read the chapter count on "@ + url),
    }
}

/// A chapter under the name its page gives it, or else the one it was listed
/// under.
pub open spec fn chapter_read(
    body: Result<Seq<Seq<char>>, Seq<char>>,
    name: Option<Seq<char>>,
    listed: RefView,
) -> Result<ChapterView, Seq<char>> {
    source::chapter_of(
        listed.number,
        match name {
            Some(t) => t,
            None => listed.title,
        },
        body,
    )
}

/// Whether a URL is one of this site's.
pub fn is_lightnovelworld_url(url: &str) -> (r: bool)
    ensures
        r == source::has_host_www(url@, "lightnovelworld.org"@),
{
    source::is_host_www(&web::url_host(url), "lightnovelworld.org")
}

/// The slug in a path `/novel/<slug>`.
pub open spec fn slug_in(segments: Option<Option<Seq<Seq<char>>>>) -> Option<Seq<char>> {
    match segments {
        Some(Some(s)) => {
            let named = filled(s);
            if named.len() >= 2 && named[0] == "novel"@ {
                Some(named[1])
            } else {
                None
            }
        },
        _ => None,
    }
}

/// The texts that are not empty.
pub open spec fn filled(s: Seq<Seq<char>>) -> Seq<Seq<char>>
    decreases s.len(),
{
    if s.len() == 0 {
        seq![]
    } else if s.last().len() > 0 {
        filled(s.drop_last()).push(s.last())
    } else {
        filled(s.drop_last())
    }
}

pub fn keep_filled(s: &Vec<String>) -> (r: Vec<String>)
    ensures
        text::texts(r@) == filled(text::texts(s@)),
{
    let ghost all = text::texts(s@);
    let mut out: Vec<String> = Vec::new();
    let mut i: usize = 0;
    while i < s.len()
        invariant
            i <= s@.len(),
            all == text::texts(s@),
            text::texts(out@) == filled(all.take(i as int)),
        decreases s@.len() - i,
    {
        proof {
            let t = all.take(i + 1);
            assert(t.drop_last() =~= all.take(i as int));
            assert(t.last() == s@[i as int]@);
        }
        if s[i].as_str().unicode_len() > 0 {
            let ghost before = out@;
            out.push(s[i].clone());
            assert(text::texts(out@) =~= text::texts(before).push(s@[i as int]@));
        }
        i += 1;
    }
    assert(all.take(all.len() as int) =~= all);
    out
}

/// The slug out of a path's segments.
pub fn slug_from(segments: &Option<Option<Vec<String>>>) -> (r: Option<String>)
    ensures
        text::opt(r) == slug_in(
            match *segments {
                None => None,
                Some(None) => Some(None),
                Some(Some(v)) => Some(Some(text::texts(v@))),
            },
        ),
{
    match segments {
        Some(Some(s)) => {
            let named = keep_filled(s);
            let ghost w = text::texts(named@);
            assert(w.len() == named@.len());
            if named.len() >= 2 {
                assert(w[0] == named@[0]@ && w[1] == named@[1]@);
                if text::same(named[0].as_str(), "novel") {
                    return Some(named[1].clone());
                }
            }
            None
        },
        _ => None,
    }
}

/// The novel a URL of this site names.
pub fn slug_from_url(url: &str) -> (r: Option<String>)
    ensures
        text::opt(r) == slug_in(web::path_segments_of(url@)),
{
    slug_from(&web::path_segments(url))
}

impl<F> LightNovelWorldSource<F> {
    pub fn new(fetcher: F) -> (r: Self)
        ensures
            r.fetcher == fetcher,
    {
        Self { fetcher }
    }

    pub fn name(&self) -> (r: &'static str)
        ensures
            r@ == "lightnovelworld"@,
    {
        "lightnovelworld"
    }

    pub fn matches(&self, url: &str) -> (r: bool)
        ensures
            r == source::has_host(url@, "lightnovelworld.org"@),
    {
        source::is_host(&web::url_host(url), "lightnovelworld.org")
    }

    /// The whole chapter list, out of the novel page.
    pub fn list_chapters(&self, html: &str, url: &str) -> (r: Result<Vec<ChapterRef>, String>)
        ensures
            source::refs_view(r) == chapters_listed(
                total_in(source::property_of(html@, "og:title"@)),
                source::base_of(web::without_query(url@), url@),
                url@,
            ),
    {
        match parse_total_chapters(html) {
            Some(total) => {
                let base = source::novel_base(url);
                let front = text::concat(base.as_str(), "/chapter/");
                Ok(source::list_sequential(total, front.as_str(), "/"))
            },
            None => Err(text::concat("could not read the chapter count on ", url)),
        }
    }

    /// A chapter out of its page.
    pub fn read_chapter(&self, html: &str, chapter: &ChapterRef) -> (r: Result<Chapter, String>)
        ensures
            source::chapter_result(r) == chapter_read(
                source::body_paragraphs(
                    web::selected_within(html@, CONTENT_SELECTOR@, PARAGRAPH_SELECTOR@, ""@),
                    CONTENT_SELECTOR@,
                    PARAGRAPH_SELECTOR@,
                ),
                name_in(source::text_at(html@, "h1.chapter-title"@)),
                chapter@,
            ),
    {
        match source::parse_chapter_body(html, CONTENT_SELECTOR, PARAGRAPH_SELECTOR) {
            Ok(paragraphs) => {
                let title = match parse_chapter_title(html) {
                    Some(t) => t,
                    None => chapter.title.clone(),
                };
                Ok(Chapter { number: chapter.number, title, paragraphs })
            },
            Err(e) => Err(e),
        }
    }
}

/// An empty text has no numbering to lose.
pub proof fn lemma_empty_has_no_number()
    ensures
        without_number_colon(seq![]) == Seq::<char>::empty(),
{
    let e = Seq::<char>::empty();
    assert(text::trimmed_start(e) =~= e);
    assert(text::span(e, text::digits()) == 0);
}

/// A name without a digit in front stays, but for the white space before it; a leading "N:" goes,
/// with the white space around what follows.
pub proof fn law_a_leading_number_goes(s: Seq<char>, n: u32, name: Seq<char>)
    requires
        name.len() > 0,
        !text::is_white(name[0]),
        !text::is_white(name.last()),
    ensures
        s.len() > 0 && !text::is_white(s[0]) && !text::is_digit(s[0]) ==> without_number_colon(s) == s,
        without_number_colon(text::decimal(n as nat) + seq![':', ' '] + name) == name,
        without_number_colon(text::decimal(n as nat) + seq![':'] + name) == name,
{
    if s.len() > 0 && !text::is_white(s[0]) && !text::is_digit(s[0]) {
        text::lemma_span_is(s, text::white(), 0);
        assert(s.skip(0) =~= s);
        text::lemma_span_is(s, text::digits(), 0);
    }
    let d = text::decimal(n as nat);
    lemma_number_colon(n, seq![' '] + name);
    assert(d + seq![':'] + (seq![' '] + name) =~= d + seq![':', ' '] + name);
    text::law_trimming_undoes_padding(seq![' '], name, seq![]);
    assert(seq![' '] + name + seq![] =~= seq![' '] + name);
    lemma_number_colon(n, name);
    text::law_trimming_settles(name);
}

proof fn lemma_number_colon(n: u32, tail: Seq<char>)
    ensures
        without_number_colon(text::decimal(n as nat) + seq![':'] + tail) == text::trimmed(tail),
{
    let d = text::decimal(n as nat);
    text::lemma_decimal(n as nat);
    let s = d + seq![':'] + tail;
    assert(text::is_digit(d[0]) && s[0] == d[0]);
    text::lemma_span_is(s, text::white(), 0);
    assert(s.skip(0) =~= s);
    assert forall|j: int| 0 <= j < d.len() implies text::digits()(#[trigger] s[j]) by {
        assert(s[j] == d[j] && text::is_digit(d[j]));
    }
    assert(s[d.len() as int] == ':');
    text::lemma_span_is(s, text::digits(), d.len() as int);
    let rest = s.skip(d.len() as int);
    assert(rest =~= seq![':'] + tail);
    text::lemma_span_is(rest, text::white(), 0);
    assert(rest.skip(0) =~= rest);
    assert(rest.drop_first() =~= tail);
}

/// A chapter is named by its heading, without numbering, or else as it was listed; its number is
/// the listed one, and its paragraphs are all its page has.
pub proof fn law_a_chapter_is_named_by_its_heading(
    heading: Seq<char>,
    name: Seq<char>,
    listed: RefView,
    paragraphs: Seq<Seq<char>>,
    e: Seq<char>,
)
    ensures
        without_number_colon(util::cleaned_title(heading)).len() > 0 ==> name_in(Some(heading))
            == Some(without_number_colon(util::cleaned_title(heading))),
        without_number_colon(util::cleaned_title(heading)).len() == 0 ==> name_in(Some(heading))
            is None,
        name_in(None) is None,
        chapter_read(Ok(paragraphs), Some(name), listed) == Ok::<ChapterView, Seq<char>>(
            ChapterView { number: listed.number, title: name, paragraphs },
        ),
        chapter_read(Ok(paragraphs), None, listed) == Ok::<ChapterView, Seq<char>>(
            ChapterView { number: listed.number, title: listed.title, paragraphs },
        ),
        chapter_read(Err(e), Some(name), listed) == Err::<ChapterView, Seq<char>>(e),
{
}

/// A novel is known by what its page says of it; without a title there is none.
pub proof fn law_a_novel_is_what_its_page_says(
    title: Seq<char>,
    author: Option<Seq<char>>,
    image: Option<Seq<char>>,
    status: Option<Seq<char>>,
    source_url: Seq<char>,
)
    ensures
        novel_of(Some(title), author, image, status, source_url) matches Ok(m) && {
            &&& m.title == title
            &&& m.author == author
            &&& image matches Some(i) ==> m.cover_url == Some(text::trimmed(i))
            &&& image is None ==> m.cover_url is None
            &&& m.genre is None
            &&& status matches Some(s) ==> m.status_hint == source::status_of(s)
            &&& status is None ==> m.status_hint == crate::model::NovelStatus::Unknown
            &&& m.source_url == source_url
        },
        novel_of(None, author, image, status, source_url) is Err,
{
}

/// A novel page stands for every chapter from 1 to the total it states, each at its own address.
pub proof fn law_all_stated_chapters_are_listed(
    total: nat,
    base: Seq<char>,
    url: Seq<char>,
    i: int,
)
    requires
        0 <= i < total <= u32::MAX,
    ensures
        chapters_listed(Some(total), base, url) matches Ok(refs) && {
            &&& refs.len() == total
            &&& refs[i].number == i + 1
            &&& refs[i].url == base + "/chapter/"@ + text::decimal((i + 1) as nat) + "/"@
            &&& refs[i].title == "Chapter "@ + text::decimal((i + 1) as nat)
        },
        chapters_listed(None, base, url) is Err,
{
}

/// The total is the number in front of what follows the last " - " of the page's title.
pub proof fn law_the_total_stands_behind_the_last_dash(title: Seq<char>, i: int)
    requires
        text::occurs_at(text::trimmed(title), " - "@, i),
        forall|j: int| i < j ==> !text::occurs_at(text::trimmed(title), " - "@, j),
    ensures
        ({
            let words = text::words(text::trimmed(title).skip(i + 3));
            &&& words.len() > 0 ==> total_in(Some(title)) == text::parsed(
                words[0],
                u32::MAX as nat,
            )
            &&& words.len() == 0 ==> total_in(Some(title)) is None
            &&& total_in(None) is None
        }),
{
    reveal_strlit(" - ");
    text::law_after_the_last(text::trimmed(title), " - "@);
}

/// A slug is the first filled part of the path behind `novel`.
pub proof fn law_a_slug_is_read_from_the_path(slug: Seq<char>, parts: Seq<Seq<char>>, p: Seq<char>)
    requires
        slug.len() > 0,
    ensures
        slug_in(Some(Some(seq!["novel"@, slug]))) == Some(slug),
        slug_in(Some(None)) is None,
        slug_in(None) is None,
        filled(seq![]).len() == 0,
        p.len() > 0 ==> filled(parts.push(p)) == filled(parts).push(p),
        p.len() == 0 ==> filled(parts.push(p)) == filled(parts),
{
    reveal_strlit("novel");
    assert(parts.push(p).drop_last() =~= parts);
    let two = seq!["novel"@, slug];
    let one = seq!["novel"@];
    assert(two.drop_last() =~= one);
    assert(one.drop_last() =~= seq![]);
    reveal_with_fuel(filled, 4);
    assert(filled(one) =~= one);
    assert(filled(two) =~= two);
}

/// Any other path names no novel.
pub proof fn law_other_paths_name_no_novel(kind: Seq<char>, slug: Seq<char>)
    requires
        kind != "novel"@,
        kind.len() > 0,
        slug.len() > 0,
    ensures
        slug_in(Some(Some(seq![kind, slug]))) is None,
        slug_in(Some(Some(seq![kind]))) is None,
{
    let two = seq![kind, slug];
    let one = seq![kind];
    assert(two.drop_last() =~= one);
    assert(one.drop_last() =~= seq![]);
    reveal_with_fuel(filled, 4);
    assert(filled(one) =~= one);
    assert(filled(two) =~= two);
}

} // verus!
