//! Hand-written adapter for chikari.moe, which serves plain JSON through its
//! public API.

use vstd::prelude::*;
use vstd::slice::slice_subrange;

use crate::json::{Json, JsonView};
use crate::json;
use crate::lightnovelworld;
use crate::numbers;
use crate::table::Table;
use crate::model::{Chapter, ChapterRef, ChapterView, MetaView, NovelMeta, RefView};
use crate::source;
use crate::text;
use crate::util;
use crate::web;

verus! {

pub const HOST: &'static str = "chikari.moe";

/// How many chapters one page of the listing holds at most.
pub const PAGE_LIMIT: u32 = 500;

/// How many chapters the cheap check for news asks for.
pub const LATEST_WINDOW: u32 = 60;

/// The chikari adapter, over whatever fetches its responses.
pub struct ChikariSource<F> {
    pub fetcher: F,
}

// ---------------------------------------------------------------------------
// Addresses
// ---------------------------------------------------------------------------

/// The slug in a path `/novels/<slug>` or `/novel/<slug>`.
pub open spec fn slug_in(segments: Option<Option<Seq<Seq<char>>>>, url: Seq<char>) -> Result<
    Seq<char>,
    Seq<char>,
> {
    match segments {
        None => Err("parsing "@ + url),
        Some(None) => Err(url + " has no path"@),
        Some(Some(s)) => {
            let named = lightnovelworld::filled(s);
            if named.len() == 0 || (named[0] != "novels"@ && named[0] != "novel"@) {
                Err(url + " is not a chikari novel URL (expected /novels/<slug>)"@)
            } else if named.len() < 2 {
                Err(url + " is missing a novel slug"@)
            } else {
                Ok(named[1])
            }
        },
    }
}

pub open spec fn text_result(r: Result<String, String>) -> Result<Seq<char>, Seq<char>> {
    match r {
        Ok(s) => Ok(s@),
        Err(e) => Err(e@),
    }
}

/// The slug out of a path's segments.
pub fn slug_from(segments: &Option<Option<Vec<String>>>, url: &str) -> (r: Result<String, String>)
    ensures
        text_result(r) == slug_in(
            match *segments {
                None => None,
                Some(None) => Some(None),
                Some(Some(v)) => Some(Some(text::texts(v@))),
            },
            url@,
        ),
{
    match segments {
        None => Err(text::concat("parsing ", url)),
        Some(None) => Err(text::concat(url, " has no path")),
        Some(Some(s)) => {
            let named = lightnovelworld::keep_filled(s);
            let ghost w = text::texts(named@);
            assert(w.len() == named@.len());
            let fits = named.len() > 0 && (text::same(named[0].as_str(), "novels") || text::same(
                named[0].as_str(),
                "novel",
            ));
            assert(named@.len() > 0 ==> w[0] == named@[0]@);
            if !fits {
                return Err(
                    text::concat(url, " is not a chikari novel URL (expected /novels/<slug>)"),
                );
            }
            if named.len() < 2 {
                return Err(text::concat(url, " is missing a novel slug"));
            }
            assert(w[1] == named@[1]@);
            Ok(named[1].clone())
        },
    }
}

pub fn slug_from_url(url: &str) -> (r: Result<String, String>)
    ensures
        text_result(r) == slug_in(web::path_segments_of(url@), url@),
{
    slug_from(&web::path_segments(url), url)
}

/// The page of a novel.
pub open spec fn novel_page(slug: Seq<char>) -> Seq<char> {
    "https://chikari.moe/novels/"@ + slug
}

pub fn novel_url(slug: &str) -> (r: String)
    ensures
        r@ == novel_page(slug@),
{
    text::concat("https://chikari.moe/novels/", slug)
}

/// The API's address of a novel.
pub open spec fn novel_api(slug: Seq<char>) -> Seq<char> {
    "https://chikari.moe/api/novels/"@ + slug
}

pub fn novel_api_url(slug: &str) -> (r: String)
    ensures
        r@ == novel_api(slug@),
{
    text::concat("https://chikari.moe/api/novels/", slug)
}

/// The API's address of a chapter's text.
pub open spec fn chapter_api(slug: Seq<char>, number: u32) -> Seq<char> {
    novel_api(slug) + "/chapters/"@ + text::decimal(number as nat) + "/read"@
}

pub fn read_url(slug: &str, number: u32) -> (r: String)
    ensures
        r@ == chapter_api(slug@, number),
{
    let base = novel_api_url(slug);
    let mut v = text::to_chars(base.as_str());
    text::push_str(&mut v, "/chapters/");
    let d = text::decimal_chars(number as u64);
    text::push_all(&mut v, &d);
    text::push_str(&mut v, "/read");
    text::to_text(&v)
}

/// The API's address of a page of a novel's chapters.
pub open spec fn listing_api(
    slug: Seq<char>,
    descending: bool,
    limit: u32,
    offset: u32,
) -> Seq<char> {
    novel_api(slug) + "/chapters?order="@ + (if descending {
        "desc"@
    } else {
        "asc"@
    }) + "&limit="@ + text::decimal(limit as nat) + "&offset="@ + text::decimal(offset as nat)
}

pub fn listing_url(slug: &str, descending: bool, limit: u32, offset: u32) -> (r: String)
    ensures
        r@ == listing_api(slug@, descending, limit, offset),
{
    let base = novel_api_url(slug);
    let mut v = text::to_chars(base.as_str());
    text::push_str(&mut v, "/chapters?order=");
    if descending {
        text::push_str(&mut v, "desc");
    } else {
        text::push_str(&mut v, "asc");
    }
    text::push_str(&mut v, "&limit=");
    let l = text::decimal_chars(limit as u64);
    text::push_all(&mut v, &l);
    text::push_str(&mut v, "&offset=");
    let o = text::decimal_chars(offset as u64);
    text::push_all(&mut v, &o);
    text::to_text(&v)
}

/// The API's address of a search.
pub open spec fn search_api(query: Seq<char>) -> Seq<char> {
    "https://chikari.moe/api/novels/search?q="@ + query + "&limit=20"@
}

/// The search for a title, once it is encoded.
pub fn search_from(query: &str) -> (r: String)
    ensures
        r@ == search_api(query@),
{
    let a = text::concat("https://chikari.moe/api/novels/search?q=", query);
    text::concat(a.as_str(), "&limit=20")
}

pub fn search_url(title: &str) -> (r: String)
    ensures
        r@ == search_api(web::form_encoded(title@)),
{
    let query = web::form_encode(title);
    search_from(query.as_str())
}

/// Whether a host is the site's, a leading "www." aside.
pub fn is_chikari_host(host: &str) -> (r: bool)
    ensures
        r == text::eq_ci(source::without_www(host@), HOST@),
{
    let v = text::to_chars(host);
    let h = text::to_chars(HOST);
    text::same_ci(source::strip_www(&v), &h)
}

// ---------------------------------------------------------------------------
// Novels
// ---------------------------------------------------------------------------

/// Whether an entry is credited as the author.
pub open spec fn is_author(a: JsonView) -> bool {
    match a.member("role"@) {
        Some(r) => r.as_text() == Some("author"@),
        None => false,
    }
}

/// The first entry credited as the author, or else the first of all.
pub open spec fn credited(authors: Seq<JsonView>) -> Option<JsonView> {
    let i = first_author(authors);
    if authors.len() == 0 {
        None
    } else if i < authors.len() {
        Some(authors[i])
    } else {
        Some(authors[0])
    }
}

pub open spec fn first_author(authors: Seq<JsonView>) -> int
    decreases authors.len(),
{
    if authors.len() == 0 || is_author(authors[0]) {
        0
    } else {
        1 + first_author(authors.drop_first())
    }
}

pub open spec fn author_of(v: JsonView) -> Option<Seq<char>> {
    match v.member("authors"@) {
        Some(a) => match a.as_array() {
            Some(list) => match credited(list) {
                Some(pick) => pick.text_field("name"@),
                None => None,
            },
            None => None,
        },
        None => None,
    }
}

fn has_author_role(a: &Json) -> (r: bool)
    ensures
        r == is_author(a@),
{
    match a.get("role") {
        Some(v) => match v.as_str() {
            Some(s) => text::same(s, "author"),
            None => false,
        },
        None => false,
    }
}

pub fn parse_author(v: &Json) -> (r: Option<String>)
    ensures
        text::opt(r) == author_of(v@),
{
    let list = match v.get("authors") {
        Some(a) => match a.as_array() {
            Some(list) => list,
            None => return None,
        },
        None => return None,
    };
    let ghost all = json::json_views(list@);
    if list.len() == 0 {
        assert(all.len() == 0);
        return None;
    }
    let mut i: usize = 0;
    assert(all.skip(0) =~= all);
    while i < list.len() && !has_author_role(&list[i])
        invariant
            i <= list@.len(),
            all == json::json_views(list@),
            first_author(all) == i + first_author(all.skip(i as int)),
        decreases list@.len() - i,
    {
        let ghost rest = all.skip(i as int);
        assert(rest[0] == list@[i as int]@);
        assert(rest.drop_first() =~= all.skip(i + 1));
        i += 1;
    }
    proof {
        if i < list@.len() {
            assert(all.skip(i as int)[0] == list@[i as int]@);
        }
        assert(first_author(all) == i);
        assert(all[0] == list@[0]@);
    }
    if i < list.len() {
        assert(all[i as int] == list@[i as int]@);
        list[i].str_field("name")
    } else {
        list[0].str_field("name")
    }
}

/// The names of the entries that have one.
pub open spec fn names_of(items: Seq<JsonView>) -> Seq<Seq<char>>
    decreases items.len(),
{
    if items.len() == 0 {
        seq![]
    } else {
        match items.last().text_field("name"@) {
            Some(n) => names_of(items.drop_last()).push(n),
            None => names_of(items.drop_last()),
        }
    }
}

pub open spec fn genres_of(v: JsonView) -> Option<Seq<char>> {
    match v.member("genres"@) {
        Some(g) => match g.as_array() {
            Some(list) => if names_of(list).len() > 0 {
                Some(text::join(names_of(list), ", "@))
            } else {
                None
            },
            None => None,
        },
        None => None,
    }
}

pub fn parse_genres(v: &Json) -> (r: Option<String>)
    ensures
        text::opt(r) == genres_of(v@),
{
    let list = match v.get("genres") {
        Some(g) => match g.as_array() {
            Some(list) => list,
            None => return None,
        },
        None => return None,
    };
    let ghost all = json::json_views(list@);
    let mut names: Vec<String> = Vec::new();
    let mut i: usize = 0;
    while i < list.len()
        invariant
            i <= list@.len(),
            all == json::json_views(list@),
            text::texts(names@) == names_of(all.take(i as int)),
        decreases list@.len() - i,
    {
        proof {
            let t = all.take(i + 1);
            assert(t.drop_last() =~= all.take(i as int));
            assert(t.last() == list@[i as int]@);
        }
        if let Some(n) = list[i].str_field("name") {
            let ghost before = names@;
            names.push(n);
            assert(text::texts(names@) =~= text::texts(before).push(n@));
        }
        i += 1;
    }
    assert(all.take(all.len() as int) =~= all);
    assert(text::texts(names@).len() == names@.len());
    if names.len() > 0 {
        Some(text::join_texts(&names, ", "))
    } else {
        None
    }
}

/// What the API says of a novel.
pub open spec fn novel_of(v: JsonView, source_url: Seq<char>) -> Result<MetaView, Seq<char>> {
    match v.text_field("title"@) {
        None => Err("no novel title in the API response for "@ + source_url),
        Some(title) => Ok(
            MetaView {
                title,
                author: author_of(v),
                cover_url: v.text_field("cover_url"@),
                genre: genres_of(v),
                status_hint: source::status_or_unknown(v.text_field("status"@)),
                source_url,
            },
        ),
    }
}

pub fn parse_novel(v: &Json, source_url: &str) -> (r: Result<NovelMeta, String>)
    ensures
        source::meta_view(r) == novel_of(v@, source_url@),
{
    match v.str_field("title") {
        None => Err(text::concat("no novel title in the API response for ", source_url)),
        Some(title) => Ok(
            NovelMeta {
                title,
                author: parse_author(v),
                cover_url: v.str_field("cover_url"),
                genre: parse_genres(v),
                status_hint: source::status_from(&v.str_field("status")),
                source_url: source_url.to_string(),
            },
        ),
    }
}

// ---------------------------------------------------------------------------
// Searching
// ---------------------------------------------------------------------------

/// Whether an entry's title is the wanted one, punctuation and case aside.
pub open spec fn is_titled(item: JsonView, wanted: Seq<char>) -> bool {
    match item.text_field("title"@) {
        Some(t) => util::normalized(t) == wanted,
        None => false,
    }
}

/// The slug of the first entry with the wanted title.
pub open spec fn slug_titled(items: Seq<JsonView>, wanted: Seq<char>) -> Option<Seq<char>>
    decreases items.len(),
{
    if items.len() == 0 {
        None
    } else if is_titled(items[0], wanted) {
        items[0].text_field("slug"@)
    } else {
        slug_titled(items.drop_first(), wanted)
    }
}

/// The entries of a search result, bare or in an envelope.
pub open spec fn results_of(v: JsonView) -> Option<Seq<JsonView>> {
    match v.as_array() {
        Some(list) => Some(list),
        None => match v.member("items"@) {
            Some(items) => items.as_array(),
            None => None,
        },
    }
}

pub open spec fn matching_slug(v: JsonView, title: Seq<char>) -> Option<Seq<char>> {
    match results_of(v) {
        None => None,
        Some(items) => if util::normalized(title).len() == 0 {
            None
        } else {
            slug_titled(items, util::normalized(title))
        },
    }
}

pub fn match_slug_by_title(v: &Json, title: &str) -> (r: Option<String>)
    ensures
        text::opt(r) == matching_slug(v@, title@),
{
    let items = match v.as_array() {
        Some(list) => list,
        None => match v.get("items") {
            Some(items) => match items.as_array() {
                Some(list) => list,
                None => return None,
            },
            None => return None,
        },
    };
    let wanted = util::normalize_title(title);
    if wanted.as_str().is_empty() {
        return None;
    }
    let ghost all = json::json_views(items@);
    let mut i: usize = 0;
    assert(all.skip(0) =~= all);
    while i < items.len()
        invariant
            i <= items@.len(),
            all == json::json_views(items@),
            wanted@ == util::normalized(title@),
            wanted@.len() > 0,
            results_of(v@) == Some(all),
            slug_titled(all, wanted@) == slug_titled(all.skip(i as int), wanted@),
        decreases items@.len() - i,
    {
        let ghost rest = all.skip(i as int);
        assert(rest[0] == items@[i as int]@);
        assert(rest.drop_first() =~= all.skip(i + 1));
        if let Some(t) = items[i].str_field("title") {
            let n = util::normalize_title(t.as_str());
            if text::same(n.as_str(), wanted.as_str()) {
                return items[i].str_field("slug");
            }
        }
        i += 1;
    }
    None
}

// ---------------------------------------------------------------------------
// Chapter listings
// ---------------------------------------------------------------------------

pub open spec fn number_of(v: JsonView) -> Option<nat> {
    match v.member("number"@) {
        Some(n) => n.as_ordinal(),
        None => None,
    }
}

/// The number of an entry, if it is a whole one.
pub fn chapter_number(v: &Json) -> (r: Option<u32>)
    ensures
        r is Some == number_of(v@) is Some,
        r matches Some(n) ==> n == number_of(v@)->0,
{
    match v.get("number") {
        Some(n) => n.as_ordinal(),
        None => None,
    }
}

/// `s` without a leading "N:" and the whitespace around it.
pub open spec fn without_number_colon(s: Seq<char>) -> Seq<char> {
    text::trimmed(lightnovelworld::without_number_colon(s))
}

pub fn strip_leading_number_colon(s: &str) -> (r: String)
    ensures
        r@ == without_number_colon(s@),
{
    let v = text::to_chars(s);
    text::to_text(text::trim(lightnovelworld::number_colon_off(&v)))
}

/// The name of an entry: its title without numbering, or else "Chapter N".
pub open spec fn title_of(v: JsonView, number: u32) -> Seq<char> {
    let raw = match v.text_field("title"@) {
        Some(t) => t,
        None => seq![],
    };
    let name = without_number_colon(util::cleaned_title(raw));
    if name.len() > 0 {
        name
    } else {
        source::chapter_label(number as nat)
    }
}

pub fn chapter_title(v: &Json, number: u32) -> (r: String)
    ensures
        r@ == title_of(v@, number),
{
    let raw = match v.str_field("title") {
        Some(t) => t,
        None => String::new(),
    };
    assert(raw@ =~= match v@.text_field("title"@) {
        Some(t) => t,
        None => seq![],
    });
    let c = util::clean_chapter_title(raw.as_str());
    let name = strip_leading_number_colon(c.as_str());
    if name.as_str().is_empty() {
        source::label_chapter(number)
    } else {
        name
    }
}

/// The entries with whole numbers; the others are skipped, not rounded.
pub open spec fn refs_of(items: Seq<JsonView>, slug: Seq<char>) -> Seq<RefView>
    decreases items.len(),
{
    if items.len() == 0 {
        seq![]
    } else {
        match number_of(items.last()) {
            Some(n) => refs_of(items.drop_last(), slug).push(
                RefView {
                    number: n as u32,
                    title: title_of(items.last(), n as u32),
                    url: chapter_api(slug, n as u32),
                },
            ),
            None => refs_of(items.drop_last(), slug),
        }
    }
}

/// A page of the listing: its chapters, and how many there are in all.
pub open spec fn page_of(v: JsonView, slug: Seq<char>) -> Result<(Seq<RefView>, int), Seq<char>> {
    match v.member("items"@) {
        Some(items) => match items.as_array() {
            Some(list) => Ok((refs_of(list, slug), total_of(v, list.len()) % 0x1_0000_0000)),
            None => Err("chapter listing had no `items` array"@),
        },
        None => Err("chapter listing had no `items` array"@),
    }
}

pub open spec fn total_of(v: JsonView, listed: nat) -> int {
    match v.member("total"@) {
        Some(t) => match t.as_u64() {
            Some(n) => n as int,
            None => listed as int,
        },
        None => listed as int,
    }
}

pub open spec fn page_result(r: Result<(Vec<ChapterRef>, u32), String>) -> Result<
    (Seq<RefView>, int),
    Seq<char>,
> {
    match r {
        Ok((v, n)) => Ok((source::ref_views(v@), n as int)),
        Err(e) => Err(e@),
    }
}

fn refs_from_items(items: &Vec<Json>, slug: &str) -> (r: Vec<ChapterRef>)
    ensures
        source::ref_views(r@) == refs_of(json::json_views(items@), slug@),
{
    let ghost all = json::json_views(items@);
    let mut out: Vec<ChapterRef> = Vec::new();
    let mut i: usize = 0;
    while i < items.len()
        invariant
            i <= items@.len(),
            all == json::json_views(items@),
            source::ref_views(out@) == refs_of(all.take(i as int), slug@),
        decreases items@.len() - i,
    {
        proof {
            let t = all.take(i + 1);
            assert(t.drop_last() =~= all.take(i as int));
            assert(t.last() == items@[i as int]@);
        }
        if let Some(number) = chapter_number(&items[i]) {
            let ghost before = out@;
            let c = ChapterRef {
                number,
                title: chapter_title(&items[i], number),
                url: read_url(slug, number),
            };
            out.push(c);
            assert(source::ref_views(out@) =~= source::ref_views(before).push(c@));
        }
        i += 1;
    }
    assert(all.take(all.len() as int) =~= all);
    out
}

pub fn parse_chapter_page(v: &Json, slug: &str) -> (r: Result<(Vec<ChapterRef>, u32), String>)
    ensures
        page_result(r) == page_of(v@, slug@),
{
    let items = match v.get("items") {
        Some(items) => match items.as_array() {
            Some(list) => list,
            None => return Err("chapter listing had no `items` array".to_string()),
        },
        None => return Err("chapter listing had no `items` array".to_string()),
    };
    assert(json::json_views(items@).len() == items@.len());
    let total: u64 = match v.get("total") {
        Some(t) => match t.as_u64() {
            Some(n) => n,
            None => items.len() as u64,
        },
        None => items.len() as u64,
    };
    Ok((refs_from_items(items, slug), (total % 0x1_0000_0000) as u32))
}

// ---------------------------------------------------------------------------
// Chapter text
// ---------------------------------------------------------------------------

/// The inline tags the site leaves in its text.
pub open spec fn inline_tags() -> Seq<Seq<char>> {
    seq!["em"@, "strong"@, "i"@, "b"@, "u"@, "s"@, "sup"@, "sub"@, "br"@]
}

pub open spec fn without_front(s: Seq<char>, c: char) -> Seq<char> {
    if s.len() > 0 && s[0] == c {
        s.drop_first()
    } else {
        s
    }
}

pub open spec fn without_back(s: Seq<char>, c: char) -> Seq<char> {
    if s.len() > 0 && s.last() == c {
        s.drop_last()
    } else {
        s
    }
}

/// Whether what stands between two angle brackets is one of the inline tags,
/// opening, closing or empty.
pub open spec fn is_inline_tag(inner: Seq<char>) -> bool {
    let name = text::trimmed(without_back(without_front(text::trimmed(inner), '/'), '/'));
    text::any_ci(inline_tags(), name)
}

/// The length of the inline tag `s` starts with, brackets included; 0 for none.
pub open spec fn tag_len(s: Seq<char>) -> int {
    if s.len() == 0 || s[0] != '<' {
        0
    } else {
        let rest = s.drop_first();
        let close = text::span(rest, text::not('>'));
        if close < rest.len() && is_inline_tag(rest.take(close)) {
            close + 2
        } else {
            0
        }
    }
}

/// Punctuation that belongs to the word before it.
pub open spec fn hugs_before(c: char) -> bool {
    ||| c == '.'
    ||| c == ','
    ||| c == '!'
    ||| c == '?'
    ||| c == ';'
    ||| c == ':'
    ||| c == ')'
    ||| c == ']'
    ||| c == '}'
    ||| c == '%'
    ||| c == '\u{2019}'
    ||| c == '\u{201d}'
    ||| c == '\u{00bb}'
    ||| c == '\u{2026}'
    ||| c == '\u{2014}'
    ||| c == '\u{2013}'
}

/// Punctuation that belongs to the word after it.
pub open spec fn hugs_after(c: char) -> bool {
    ||| c == '('
    ||| c == '['
    ||| c == '{'
    ||| c == '\u{201c}'
    ||| c == '\u{2018}'
    ||| c == '\u{00ab}'
    ||| c == '\u{00bf}'
    ||| c == '\u{00a1}'
}

/// Whether a script puts spaces between its words.
pub open spec fn spaced_script(c: char) -> bool {
    (c as u32) < 0x2E80
}

/// Whether two words would run together with nothing between these characters.
pub open spec fn welds(before: char, after: char) -> bool {
    &&& !text::is_white(before)
    &&& !text::is_white(after)
    &&& spaced_script(before)
    &&& spaced_script(after)
    &&& !hugs_before(after)
    &&& !hugs_after(before)
}

/// `out` followed by `s` without its inline tags, with a space where the site
/// dropped one beside a tag.
pub open spec fn unmarked(out: Seq<char>, s: Seq<char>) -> Seq<char>
    decreases s.len(),
{
    proof {
        if s.len() > 0 {
            text::lemma_span(s.drop_first(), text::not('>'));
        }
    }
    if s.len() == 0 {
        out
    } else if tag_len(s) > 0 {
        let rest = s.skip(tag_len(s));
        if out.len() > 0 && rest.len() > 0 && welds(out.last(), rest[0]) {
            unmarked(out.push(' '), rest)
        } else {
            unmarked(out, rest)
        }
    } else {
        unmarked(out.push(s[0]), s.drop_first())
    }
}

fn inline_tag(inner: &[char]) -> (r: bool)
    ensures
        r == is_inline_tag(inner@),
{
    let t = text::trim(inner);
    let a: &[char] = if t.len() > 0 && t[0] == '/' {
        let x = slice_subrange(t, 1, t.len());
        assert(x@ == t@.drop_first());
        x
    } else {
        t
    };
    let b: &[char] = if a.len() > 0 && a[a.len() - 1] == '/' {
        let x = slice_subrange(a, 0, a.len() - 1);
        assert(x@ == a@.drop_last());
        x
    } else {
        a
    };
    let name = text::trim(b);
    let tags: [&str; 9] = ["em", "strong", "i", "b", "u", "s", "sup", "sub", "br"];
    assert(tags@.map_values(|x: &str| x@) =~= inline_tags());
    text::listed_ci(&tags, name)
}

fn inline_tag_len(s: &[char]) -> (r: usize)
    ensures
        r == tag_len(s@),
        r <= s.len(),
{
    if s.len() == 0 || s[0] != '<' {
        return 0;
    }
    let rest = slice_subrange(s, 1, s.len());
    assert(rest@ == s@.drop_first());
    let close: usize = text::before_char(rest, '>');
    if close < rest.len() {
        let inner = slice_subrange(rest, 0, close);
        assert(inner@ == rest@.take(close as int));
        if inline_tag(inner) {
            return close + 2;
        }
    }
    0
}

fn welds_words(before: char, after: char) -> (r: bool)
    ensures
        r == welds(before, after),
{
    let hugs_left = after == '.' || after == ',' || after == '!' || after == '?' || after == ';'
        || after == ':' || after == ')' || after == ']' || after == '}' || after == '%' || after
        == '\u{2019}' || after == '\u{201d}' || after == '\u{00bb}' || after == '\u{2026}' || after
        == '\u{2014}' || after == '\u{2013}';
    let hugs_right = before == '(' || before == '[' || before == '{' || before == '\u{201c}'
        || before == '\u{2018}' || before == '\u{00ab}' || before == '\u{00bf}' || before
        == '\u{00a1}';
    !text::whitespace(before) && !text::whitespace(after) && (before as u32) < 0x2E80 && (
    after as u32) < 0x2E80 && !hugs_left && !hugs_right
}

/// [`strip_inline_markup`] on characters.
pub fn unmark(s: &[char]) -> (r: Vec<char>)
    ensures
        r@ == unmarked(seq![], s@),
{
    let mut out: Vec<char> = Vec::new();
    let mut i: usize = 0;
    assert(s@.skip(0) =~= s@);
    assert(out@ =~= seq![]);
    while i < s.len()
        invariant
            i <= s.len(),
            unmarked(seq![], s@) == unmarked(out@, s@.skip(i as int)),
        decreases s.len() - i,
    {
        let rest = slice_subrange(s, i, s.len());
        assert(rest@ =~= s@.skip(i as int));
        let n: usize = inline_tag_len(rest);
        if n > 0 {
            assert(rest@.skip(n as int) =~= s@.skip(i + n));
            if out.len() > 0 && n < rest.len() && welds_words(out[out.len() - 1], rest[n]) {
                assert(rest@.skip(n as int)[0] == rest@[n as int]);
                out.push(' ');
            } else if n < rest.len() {
                assert(rest@.skip(n as int)[0] == rest@[n as int]);
            }
            i = i + n;
        } else {
            assert(rest@.drop_first() =~= s@.skip(i + 1));
            out.push(s[i]);
            i += 1;
        }
    }
    assert(s@.skip(s@.len() as int) =~= seq![]);
    out
}

pub fn strip_inline_markup(s: &str) -> (r: String)
    ensures
        r@ == unmarked(seq![], s@),
{
    let v = text::to_chars(s);
    let r = unmark(&v);
    text::to_text(&r)
}

/// The lines of a body without markup, trimmed, without the blank ones.
pub open spec fn prose_lines(lines: Seq<Seq<char>>) -> Seq<Seq<char>>
    decreases lines.len(),
{
    if lines.len() == 0 {
        seq![]
    } else {
        let t = text::trimmed(unmarked(seq![], lines.last()));
        if t.len() > 0 {
            prose_lines(lines.drop_last()).push(t)
        } else {
            prose_lines(lines.drop_last())
        }
    }
}

pub open spec fn paragraphs_of(body: Seq<char>) -> Seq<Seq<char>> {
    prose_lines(text::split(body, '\n'))
}

pub fn body_paragraphs(body: &str) -> (r: Vec<String>)
    ensures
        text::texts(r@) == paragraphs_of(body@),
{
    let v = text::to_chars(body);
    let lines = text::split_char(&v, '\n');
    let ghost all = text::views(lines@);
    let mut out: Vec<String> = Vec::new();
    let mut i: usize = 0;
    while i < lines.len()
        invariant
            i <= lines@.len(),
            all == text::views(lines@),
            text::texts(out@) == prose_lines(all.take(i as int)),
        decreases lines@.len() - i,
    {
        proof {
            let t = all.take(i + 1);
            assert(t.drop_last() =~= all.take(i as int));
            assert(t.last() == lines@[i as int]@);
        }
        let plain = unmark(&lines[i]);
        let t = text::trim(&plain);
        if t.len() > 0 {
            let ghost before = out@;
            let p = text::to_text(t);
            out.push(p);
            assert(text::texts(out@) =~= text::texts(before).push(p@));
        }
        i += 1;
    }
    assert(all.take(all.len() as int) =~= all);
    out
}

pub open spec fn is_locked(v: JsonView) -> bool {
    match v.member("locked"@) {
        Some(l) => l.as_bool() == Some(true),
        None => false,
    }
}

pub open spec fn chapter_mark(number: u32) -> Seq<char> {
    "ch."@ + text::decimal(number as nat)
}

/// The chapter in the API's response. A locked one is an error, to be retried,
/// and so is one without text.
pub open spec fn chapter_in(v: JsonView, listed: RefView) -> Result<ChapterView, Seq<char>> {
    if is_locked(v) {
        let reason = match v.text_field("lock_reason"@) {
            Some(r) => r,
            None => "locked"@,
        };
        Err(
            chapter_mark(listed.number) + " is locked on chikari ("@ + reason
                + "); it will be retried"@,
        )
    } else {
        match body_in(v) {
            None => Err(chapter_mark(listed.number) + " came back without a body"@),
            Some(body) => if paragraphs_of(body).len() == 0 {
                Err(chapter_mark(listed.number) + " came back with an empty body"@)
            } else {
                let number = match number_of(v) {
                    Some(n) => n as u32,
                    None => listed.number,
                };
                Ok(
                    ChapterView {
                        number,
                        title: title_of(v, number),
                        paragraphs: paragraphs_of(body),
                    },
                )
            },
        }
    }
}

pub open spec fn body_in(v: JsonView) -> Option<Seq<char>> {
    match v.member("body"@) {
        Some(b) => b.as_text(),
        None => None,
    }
}

fn mark_chapter(number: u32, rest: &str) -> (r: String)
    ensures
        r@ == chapter_mark(number) + rest@,
{
    let mut v = text::to_chars("ch.");
    let d = text::decimal_chars(number as u64);
    text::push_all(&mut v, &d);
    text::push_str(&mut v, rest);
    text::to_text(&v)
}

pub fn parse_read(v: &Json, fallback: &ChapterRef) -> (r: Result<Chapter, String>)
    ensures
        source::chapter_result(r) == chapter_in(v@, fallback@),
{
    let locked = match v.get("locked") {
        Some(l) => match l.as_bool() {
            Some(b) => b,
            None => false,
        },
        None => false,
    };
    if locked {
        let reason = match v.str_field("lock_reason") {
            Some(r) => r,
            None => "locked".to_string(),
        };
        let a = mark_chapter(fallback.number, " is locked on chikari (");
        let b = text::concat(a.as_str(), reason.as_str());
        return Err(text::concat(b.as_str(), "); it will be retried"));
    }
    let body = match v.get("body") {
        Some(b) => match b.as_str() {
            Some(s) => s,
            None => return Err(mark_chapter(fallback.number, " came back without a body")),
        },
        None => return Err(mark_chapter(fallback.number, " came back without a body")),
    };
    let paragraphs = body_paragraphs(body);
    assert(text::texts(paragraphs@).len() == paragraphs@.len());
    if paragraphs.len() == 0 {
        return Err(mark_chapter(fallback.number, " came back with an empty body"));
    }
    let number: u32 = match chapter_number(v) {
        Some(n) => n,
        None => fallback.number,
    };
    Ok(Chapter { number, title: chapter_title(v, number), paragraphs })
}

// ---------------------------------------------------------------------------
// Walking the listing
// ---------------------------------------------------------------------------

/// A walk over the listing as plain values.
#[verifier::ext_equal]
pub struct ListingWalkView {
    pub slug: Seq<char>,
    pub needed: Option<usize>,
    pub found: Map<u32, RefView>,
    /// How many entries were taken in, repeated numbers included.
    pub seen: nat,
    pub offset: u32,
    pub done: bool,
}

impl ListingWalkView {
    pub open spec fn start(slug: Seq<char>, needed: Option<usize>) -> ListingWalkView {
        ListingWalkView { slug, needed, found: Map::empty(), seen: 0, offset: 0, done: false }
    }

    /// The next page to read: the newest chapters first where only some are
    /// needed.
    pub open spec fn next(self) -> Option<Seq<char>> {
        if self.done {
            None
        } else {
            Some(listing_api(self.slug, self.needed is Some, PAGE_LIMIT, self.offset))
        }
    }

    pub open spec fn next_offset(self, count: nat) -> int {
        let step = if count % 0x1_0000_0000 < PAGE_LIMIT {
            (count % 0x1_0000_0000) as int
        } else {
            PAGE_LIMIT as int
        };
        if self.offset + step > u32::MAX {
            u32::MAX as int
        } else {
            self.offset + step
        }
    }

    /// The walk once a page is taken in. It ends on an empty page, once enough
    /// entries are known, and at the total.
    pub open spec fn after(self, refs: Seq<RefView>, total: int) -> ListingWalkView {
        if refs.len() == 0 {
            ListingWalkView { done: true, ..self }
        } else {
            let seen = self.seen + refs.len();
            let offset = self.next_offset(refs.len());
            let enough = self.needed matches Some(n) && seen >= n;
            ListingWalkView {
                found: source::with_links(self.found, refs),
                seen,
                offset: offset as u32,
                done: enough || offset >= total,
                ..self
            }
        }
    }
}

/// A walk over a novel's chapter listing: asks for pages, takes them in, and
/// ends with the chapters found.
pub struct ListingWalk {
    slug: String,
    needed: Option<usize>,
    found: Table<ChapterRef>,
    seen: u64,
    offset: u32,
    done: bool,
    count: Ghost<nat>,
}

impl View for ListingWalk {
    type V = ListingWalkView;

    closed spec fn view(&self) -> ListingWalkView {
        ListingWalkView {
            slug: self.slug@,
            needed: self.needed,
            found: source::by_number(self.found@),
            seen: self.count@,
            offset: self.offset,
            done: self.done,
        }
    }
}

impl ListingWalk {
    pub closed spec fn wf(&self) -> bool {
        &&& self.found.wf()
        &&& source::keyed_by_number(self.found@)
        &&& self.seen == if self.count@ <= u64::MAX {
            self.count@ as int
        } else {
            u64::MAX as int
        }
        &&& forall|n: u32| #[trigger]
            self@.found.contains_key(n) ==> self@.found[n].number == n
    }

    /// Start a walk over a novel's chapters.
    pub fn new(slug: String, needed: Option<usize>) -> (r: ListingWalk)
        ensures
            r.wf(),
            r@ == ListingWalkView::start(slug@, needed),
    {
        let r = ListingWalk {
            slug,
            needed,
            found: Table::new(),
            seen: 0,
            offset: 0,
            done: false,
            count: Ghost(0),
        };
        assert(r@.found =~= Map::<u32, RefView>::empty());
        r
    }

    /// The page to fetch next; `None` when the walk is over.
    pub fn next_url(&self) -> (r: Option<String>)
        requires
            self.wf(),
        ensures
            text::opt(r) == self@.next(),
    {
        if self.done {
            None
        } else {
            Some(
                listing_url(self.slug.as_str(), self.needed.is_some(), PAGE_LIMIT, self.offset),
            )
        }
    }

    /// Take in the page that was asked for.
    pub fn accept_page(&mut self, refs: Vec<ChapterRef>, total: u32)
        requires
            old(self).wf(),
        ensures
            final(self).wf(),
            final(self)@ == old(self)@.after(source::ref_views(refs@), total as int),
    {
        if refs.len() == 0 {
            self.done = true;
            return;
        }
        let ghost start = self@;
        let ghost held = self.seen;
        let ghost all = source::ref_views(refs@);
        let mut i: usize = 0;
        while i < refs.len()
            invariant
                i <= refs@.len(),
                all == source::ref_views(refs@),
                self.found.wf(),
                source::keyed_by_number(self.found@),
                forall|n: u32| #[trigger]
                    source::by_number(self.found@).contains_key(n) ==> source::by_number(
                        self.found@,
                    )[n].number == n,
                self.slug@ == start.slug,
                self.needed == start.needed,
                self.seen == held,
                self.count@ == start.seen,
                self.offset == start.offset,
                self.done == start.done,
                source::by_number(self.found@) == source::with_links(
                    start.found,
                    all.take(i as int),
                ),
            decreases refs@.len() - i,
        {
            let n: u32 = refs[i].number;
            proof {
                let t = all.take(i + 1);
                assert(t.drop_last() =~= all.take(i as int));
                assert(t.last() == refs@[i as int]@);
            }
            let ghost prev = self.found@;
            if !self.found.contains((0, n)) {
                let c = refs[i].clone();
                self.found.insert((0, n), c);
                proof {
                    assert(source::by_number(self.found@) =~= source::by_number(prev).insert(n, c@));
                }
            }
            i += 1;
        }
        assert(all.take(all.len() as int) =~= all);
        let got: u64 = refs.len() as u64;
        let low: u64 = got % 0x1_0000_0000;
        let step: u64 = if low < PAGE_LIMIT as u64 {
            low
        } else {
            PAGE_LIMIT as u64
        };
        let reached: u64 = self.offset as u64 + step;
        self.offset = if reached > u32::MAX as u64 {
            u32::MAX
        } else {
            reached as u32
        };
        self.seen = if self.seen > u64::MAX - got {
            u64::MAX
        } else {
            self.seen + got
        };
        self.count = Ghost((start.seen + all.len()) as nat);
        let enough = match self.needed {
            Some(n) => self.seen >= n as u64,
            None => false,
        };
        self.done = enough || self.offset >= total;
        assert(self@ =~= start.after(all, total as int));
    }

    /// Take in a response of the API.
    pub fn accept(&mut self, response: &Json) -> (r: Result<(), String>)
        requires
            old(self).wf(),
        ensures
            final(self).wf(),
            (match r {
                Ok(_) => None,
                Err(e) => Some(e@),
            }) == (match page_of(response@, old(self)@.slug) {
                Ok(_) => None,
                Err(e) => Some(e),
            }),
            r is Err ==> final(self)@ == old(self)@,
            r is Ok ==> final(self)@ == old(self)@.after(
                page_of(response@, old(self)@.slug)->Ok_0.0,
                page_of(response@, old(self)@.slug)->Ok_0.1,
            ),
    {
        match parse_chapter_page(response, self.slug.as_str()) {
            Ok((refs, total)) => {
                self.accept_page(refs, total);
                Ok(())
            },
            Err(e) => Err(e),
        }
    }

    /// The chapters found, ascending by number.
    pub fn finish(&self) -> (r: Vec<ChapterRef>)
        requires
            self.wf(),
        ensures
            numbers::lists(source::ref_numbers(r@), self@.found.dom()),
            forall|i: int|
                0 <= i < r@.len() ==> (#[trigger] r@[i])@ == self@.found[r@[i].number],
    {
        let r = source::refs_in_order(&self.found);
        assert(Set::new(|n: u32| self.found@.contains_key((0i64, n))) =~= self@.found.dom());
        r
    }
}

// ---------------------------------------------------------------------------
// The newest chapters
// ---------------------------------------------------------------------------

/// How many entries at the front have a number of at most `n`.
pub open spec fn not_above(s: Seq<RefView>, n: u32) -> int
    decreases s.len(),
{
    if s.len() > 0 && s[0].number <= n {
        1 + not_above(s.drop_first(), n)
    } else {
        0
    }
}

/// The entries by number; those with the same number keep their order.
pub open spec fn by_rising_number(s: Seq<RefView>) -> Seq<RefView>
    decreases s.len(),
{
    if s.len() == 0 {
        seq![]
    } else {
        let before = by_rising_number(s.drop_last());
        before.insert(not_above(before, s.last().number), s.last())
    }
}

proof fn lemma_not_above(s: Seq<RefView>, n: u32, k: int)
    requires
        0 <= k <= s.len(),
        forall|j: int| 0 <= j < k ==> (#[trigger] s[j]).number <= n,
        k < s.len() ==> s[k].number > n,
    ensures
        not_above(s, n) == k,
    decreases s.len(),
{
    if k > 0 {
        let t = s.drop_first();
        assert forall|j: int| 0 <= j < k - 1 implies (#[trigger] t[j]).number <= n by {
            assert(t[j] == s[j + 1]);
        }
        lemma_not_above(t, n, k - 1);
    }
}

pub fn sort_by_number(v: &Vec<ChapterRef>) -> (r: Vec<ChapterRef>)
    ensures
        source::ref_views(r@) == by_rising_number(source::ref_views(v@)),
{
    let ghost all = source::ref_views(v@);
    let mut out: Vec<ChapterRef> = Vec::new();
    let mut i: usize = 0;
    while i < v.len()
        invariant
            i <= v@.len(),
            all == source::ref_views(v@),
            source::ref_views(out@) == by_rising_number(all.take(i as int)),
        decreases v@.len() - i,
    {
        let ghost before = source::ref_views(out@);
        let n: u32 = v[i].number;
        proof {
            let t = all.take(i + 1);
            assert(t.drop_last() =~= all.take(i as int));
            assert(t.last() == v@[i as int]@);
        }
        let mut k: usize = 0;
        while k < out.len() && out[k].number <= n
            invariant
                k <= out@.len(),
                before == source::ref_views(out@),
                forall|j: int| 0 <= j < k ==> (#[trigger] before[j]).number <= n,
            decreases out@.len() - k,
        {
            assert(before[k as int].number == out@[k as int].number);
            k += 1;
        }
        proof {
            if k < out@.len() {
                assert(before[k as int].number == out@[k as int].number);
            }
            lemma_not_above(before, n, k as int);
        }
        let ghost held = out@;
        let c = v[i].clone();
        out.insert(k, c);
        assert(source::ref_views(out@) =~= before.insert(k as int, c@));
        i += 1;
    }
    assert(all.take(all.len() as int) =~= all);
    out
}

/// The page that lists the newest chapters.
pub fn latest_url(slug: &str) -> (r: String)
    ensures
        r@ == listing_api(slug@, true, LATEST_WINDOW, 0),
{
    listing_url(slug, true, LATEST_WINDOW, 0)
}

/// The newest chapters out of the API's response, by number.
pub fn parse_latest(v: &Json, slug: &str) -> (r: Result<Vec<ChapterRef>, String>)
    ensures
        source::refs_view(r) == (match page_of(v@, slug@) {
            Ok((refs, _)) => Ok::<Seq<RefView>, Seq<char>>(by_rising_number(refs)),
            Err(e) => Err(e),
        }),
{
    match parse_chapter_page(v, slug) {
        Ok((refs, _)) => Ok(sort_by_number(&refs)),
        Err(e) => Err(e),
    }
}

/// Read a response of the API.
pub fn parse_response(body: &str, url: &str) -> (r: Result<Json, String>)
    ensures
        r is Ok == json::parsed_json(body@) is Ok,
        r matches Ok(v) ==> v@ == json::parsed_json(body@)->Ok_0,
        r matches Err(e) ==> e@ == "parsing JSON from "@ + url@,
{
    match json::parse_json(body) {
        Ok(v) => Ok(v),
        Err(_) => Err(text::concat("parsing JSON from ", url)),
    }
}

impl<F> ChikariSource<F> {
    pub fn new(fetcher: F) -> (r: Self)
        ensures
            r.fetcher == fetcher,
    {
        Self { fetcher }
    }

    pub fn name(&self) -> (r: &'static str)
        ensures
            r@ == "chikari"@,
    {
        "chikari"
    }

    pub fn matches(&self, url: &str) -> (r: bool)
        ensures
            r == source::has_host_www(url@, HOST@),
    {
        source::is_host_www(&web::url_host(url), HOST)
    }
}

/// A locked chapter is never stored: reading it is an error, whatever text came
/// with it.
pub proof fn law_locked_chapters_are_refused(v: JsonView, listed: RefView)
    requires
        is_locked(v),
    ensures
        chapter_in(v, listed) is Err,
{
}

/// A chapter that is read has at least one paragraph.
pub proof fn law_read_chapters_have_text(v: JsonView, listed: RefView)
    ensures
        chapter_in(v, listed) matches Ok(c) ==> c.paragraphs.len() > 0 && c.title.len() > 0,
{
    if let Ok(c) = chapter_in(v, listed) {
        reveal_strlit("Chapter ");
    }
}

/// Text without a tag is left as it is.
pub proof fn law_text_without_tags_stays(out: Seq<char>, s: Seq<char>)
    requires
        forall|i: int| 0 <= i < s.len() ==> #[trigger] s[i] != '<',
    ensures
        unmarked(out, s) == out + s,
    decreases s.len(),
{
    if s.len() > 0 {
        let t = s.drop_first();
        assert(s[0] != '<');
        assert forall|i: int| 0 <= i < t.len() implies #[trigger] t[i] != '<' by {
            assert(t[i] == s[i + 1]);
        }
        law_text_without_tags_stays(out.push(s[0]), t);
        assert(out.push(s[0]) + t =~= out + s);
    } else {
        assert(out + s =~= out);
    }
}

/// The inline tags are these nine, in any ASCII case, opening, closing or empty.
pub proof fn law_inline_tags(name: Seq<char>)
    requires
        name.len() > 0,
        forall|i: int| 0 <= i < name.len() ==> text::is_ascii_letter(#[trigger] name[i]),
    ensures
        is_inline_tag(name) <==> {
            let n = text::lower(name);
            ||| n == "em"@
            ||| n == "strong"@
            ||| n == "i"@
            ||| n == "b"@
            ||| n == "u"@
            ||| n == "s"@
            ||| n == "sup"@
            ||| n == "sub"@
            ||| n == "br"@
        },
        is_inline_tag(seq!['/'] + name) == is_inline_tag(name),
        is_inline_tag(name + seq!['/']) == is_inline_tag(name),
{
    reveal_strlit("em");
    reveal_strlit("strong");
    reveal_strlit("i");
    reveal_strlit("b");
    reveal_strlit("u");
    reveal_strlit("s");
    reveal_strlit("sup");
    reveal_strlit("sub");
    reveal_strlit("br");
    assert(text::lower("em"@) =~= "em"@);
    assert(text::lower("strong"@) =~= "strong"@);
    assert(text::lower("i"@) =~= "i"@);
    assert(text::lower("b"@) =~= "b"@);
    assert(text::lower("u"@) =~= "u"@);
    assert(text::lower("s"@) =~= "s"@);
    assert(text::lower("sup"@) =~= "sup"@);
    assert(text::lower("sub"@) =~= "sub"@);
    assert(text::lower("br"@) =~= "br"@);
    assert(text::is_ascii_letter(name[0]));
    assert(text::is_ascii_letter(name.last()));
    text::law_trimming_settles(name);
    let closing = seq!['/'] + name;
    let empty = name + seq!['/'];
    assert(closing.last() == name.last());
    assert(empty[0] == name[0]);
    text::law_trimming_settles(closing);
    text::law_trimming_settles(empty);
    assert(closing.drop_first() =~= name);
    assert(empty.drop_last() =~= name);
    let tags = inline_tags();
    let n = text::lower(name);
    if text::any_ci(tags, name) {
        let i = choose|i: int| 0 <= i < tags.len() && text::eq_ci(name, #[trigger] tags[i]);
        assert(text::lower(name) == text::lower(tags[i]));
        assert(tags[i] == tags[0] || tags[i] == tags[1] || tags[i] == tags[2] || tags[i] == tags[3]
            || tags[i] == tags[4] || tags[i] == tags[5] || tags[i] == tags[6] || tags[i] == tags[7]
            || tags[i] == tags[8]);
    }
    assert(tags[0] == "em"@ && tags[1] == "strong"@ && tags[2] == "i"@ && tags[3] == "b"@ && tags[4]
        == "u"@ && tags[5] == "s"@ && tags[6] == "sup"@ && tags[7] == "sub"@ && tags[8] == "br"@);
    if n == "em"@ {
        assert(text::eq_ci(name, tags[0]));
    }
    if n == "strong"@ {
        assert(text::eq_ci(name, tags[1]));
    }
    if n == "i"@ {
        assert(text::eq_ci(name, tags[2]));
    }
    if n == "b"@ {
        assert(text::eq_ci(name, tags[3]));
    }
    if n == "u"@ {
        assert(text::eq_ci(name, tags[4]));
    }
    if n == "s"@ {
        assert(text::eq_ci(name, tags[5]));
    }
    if n == "sup"@ {
        assert(text::eq_ci(name, tags[6]));
    }
    if n == "sub"@ {
        assert(text::eq_ci(name, tags[7]));
    }
    if n == "br"@ {
        assert(text::eq_ci(name, tags[8]));
    }
}

/// An inline tag is dropped, with a space in its place only where two words would run together;
/// any other bracket stays.
pub proof fn law_an_inline_tag_is_dropped(out: Seq<char>, inner: Seq<char>, rest: Seq<char>)
    requires
        forall|i: int| 0 <= i < inner.len() ==> #[trigger] inner[i] != '>',
    ensures
        ({
            let s = seq!['<'] + inner + seq!['>'] + rest;
            &&& is_inline_tag(inner) && (out.len() == 0 || rest.len() == 0 || text::is_white(
                out.last(),
            ) || text::is_white(rest[0])) ==> unmarked(out, s) == unmarked(out, rest)
            &&& is_inline_tag(inner) && out.len() > 0 && rest.len() > 0 && text::is_ascii_letter(
                out.last(),
            ) && text::is_ascii_letter(rest[0]) ==> unmarked(out, s) == unmarked(
                out.push(' '),
                rest,
            )
            &&& !is_inline_tag(inner) ==> unmarked(out, s) == unmarked(out.push('<'), s.drop_first())
        }),
{
    let s = seq!['<'] + inner + seq!['>'] + rest;
    let t = s.drop_first();
    assert(t =~= inner + seq!['>'] + rest);
    assert forall|j: int| 0 <= j < inner.len() implies text::not('>')(#[trigger] t[j]) by {
        assert(t[j] == inner[j]);
    }
    assert(t[inner.len() as int] == '>');
    text::lemma_span_is(t, text::not('>'), inner.len() as int);
    assert(t.take(inner.len() as int) =~= inner);
    if is_inline_tag(inner) {
        assert(tag_len(s) == inner.len() + 2);
        assert(s.skip((inner.len() + 2) as int) =~= rest);
    }
}

/// A chapter's paragraphs are the lines of its body without their markup, trimmed, in order; blank
/// ones are left out.
pub proof fn law_lines_are_read_one_by_one(lines: Seq<Seq<char>>, line: Seq<char>)
    ensures
        prose_lines(seq![]).len() == 0,
        text::trimmed(unmarked(seq![], line)).len() > 0 ==> prose_lines(lines.push(line))
            == prose_lines(lines).push(text::trimmed(unmarked(seq![], line))),
        text::trimmed(unmarked(seq![], line)).len() == 0 ==> prose_lines(lines.push(line))
            == prose_lines(lines),
        paragraphs_of(text::join(lines, seq!['\n'])) == prose_lines(
            text::split(text::join(lines, seq!['\n']), '\n'),
        ),
{
    assert(lines.push(line).drop_last() =~= lines);
}

/// A chapter that is not locked and has text is read with the number and title the API states, and
/// all its paragraphs; where it states no number the listed one counts.
pub proof fn law_a_chapter_is_what_the_response_says(
    v: JsonView,
    listed: RefView,
    body: Seq<char>,
    n: u32,
)
    requires
        v.member("locked"@) is None || v.member("locked"@) == Some(JsonView::Bool(false)),
        v.member("body"@) == Some(JsonView::Text(body)),
        paragraphs_of(body).len() > 0,
    ensures
        chapter_in(v, listed) matches Ok(c) && c.paragraphs == paragraphs_of(body),
        number_of(v) == Some(n as nat) ==> (chapter_in(v, listed) matches Ok(c) && c.number == n
            && c.title == title_of(v, n)),
        number_of(v) is None ==> (chapter_in(v, listed) matches Ok(c) && c.number == listed.number
            && c.title == title_of(v, listed.number)),
{
}

/// An entry's name is its title without numbering, or else "Chapter N".
pub proof fn law_entries_are_named(v: JsonView, n: u32, t: Seq<char>)
    ensures
        v.text_field("title"@) == Some(t) && without_number_colon(util::cleaned_title(t)).len() > 0
            ==> title_of(v, n) == without_number_colon(util::cleaned_title(t)),
        v.text_field("title"@) is None ==> title_of(v, n) == "Chapter "@ + text::decimal(n as nat),
{
    if v.text_field("title"@) is None {
        let e = Seq::<char>::empty();
        text::law_trimming_settles(e);
        assert(util::cleaned_title(e) =~= e);
        lightnovelworld::lemma_empty_has_no_number();
        assert(without_number_colon(e) =~= e);
    }
}

/// The chapters of a page are its entries with whole numbers, in order, each under its own number,
/// name and address.
pub proof fn law_entries_are_listed_one_by_one(
    items: Seq<JsonView>,
    item: JsonView,
    slug: Seq<char>,
    n: u32,
)
    ensures
        refs_of(seq![], slug).len() == 0,
        number_of(item) is None ==> refs_of(items.push(item), slug) == refs_of(items, slug),
        number_of(item) == Some(n as nat) ==> {
            let all = refs_of(items.push(item), slug);
            &&& all.len() == refs_of(items, slug).len() + 1
            &&& all.drop_last() == refs_of(items, slug)
            &&& all.last().number == n
            &&& all.last().title == title_of(item, n)
            &&& all.last().url == "https://chikari.moe/api/novels/"@ + slug + "/chapters/"@
                + text::decimal(n as nat) + "/read"@
        },
{
    assert(items.push(item).drop_last() =~= items);
    if number_of(item) == Some(n as nat) {
        assert(refs_of(items.push(item), slug).drop_last() =~= refs_of(items, slug));
    }
}

/// A page of the listing gives its chapters and the stated total, or else how many it lists.
pub proof fn law_a_page_states_its_total(v: JsonView, slug: Seq<char>, list: Seq<JsonView>, n: u32)
    requires
        v.member("items"@) == Some(JsonView::Array(list)),
        list.len() <= u32::MAX,
    ensures
        page_of(v, slug) matches Ok((refs, total)) && refs == refs_of(list, slug) && {
            &&& v.member("total"@) is None ==> total == list.len()
            &&& v.member("total"@) == Some(JsonView::Number(text::decimal(n as nat))) ==> total == n
        },
{
    json::law_whole_numbers_are_read(n);
}

/// A novel is known by what the API says of it.
pub proof fn law_a_novel_is_what_the_api_says(v: JsonView, source_url: Seq<char>, t: Seq<char>)
    ensures
        v.text_field("title"@) is None ==> novel_of(v, source_url) is Err,
        v.text_field("title"@) == Some(t) ==> (novel_of(v, source_url) matches Ok(m) && {
            &&& m.title == t
            &&& m.author == author_of(v)
            &&& m.cover_url == v.text_field("cover_url"@)
            &&& m.genre == genres_of(v)
            &&& m.status_hint == (match v.text_field("status"@) {
                Some(s) => source::status_of(s),
                None => crate::model::NovelStatus::Unknown,
            })
            &&& m.source_url == source_url
        }),
{
}

/// The author is the first one credited as such, or else the first one named at all.
pub proof fn law_the_credited_author_counts(authors: Seq<JsonView>, i: int)
    ensures
        0 <= i < authors.len() && (authors[i].member("role"@) == Some(JsonView::Text("author"@)))
            && (forall|j: int|
            0 <= j < i ==> !is_author(#[trigger] authors[j])) ==> credited(authors) == Some(
            authors[i],
        ),
        authors.len() > 0 && (forall|j: int|
            0 <= j < authors.len() ==> !is_author(#[trigger] authors[j])) ==> credited(authors)
            == Some(authors[0]),
        authors.len() == 0 ==> credited(authors) is None,
{
    lemma_first_author(authors);
    let f = first_author(authors);
    if 0 <= i < authors.len() && is_author(authors[i]) && (forall|j: int|
        0 <= j < i ==> !is_author(#[trigger] authors[j])) {
        if f < i {
            assert(!is_author(authors[f]));
        } else if f > i {
            assert(!is_author(authors[i]));
        }
    }
    if authors.len() > 0 && (forall|j: int|
        0 <= j < authors.len() ==> !is_author(#[trigger] authors[j])) {
        if f < authors.len() {
            assert(!is_author(authors[f]));
        }
    }
}

proof fn lemma_first_author(authors: Seq<JsonView>)
    ensures
        0 <= first_author(authors) <= authors.len(),
        first_author(authors) < authors.len() ==> is_author(authors[first_author(authors)]),
        forall|j: int| 0 <= j < first_author(authors) ==> !is_author(#[trigger] authors[j]),
    decreases authors.len(),
{
    if authors.len() > 0 && !is_author(authors[0]) {
        let t = authors.drop_first();
        lemma_first_author(t);
        let f = first_author(t);
        if f < t.len() {
            assert(t[f] == authors[f + 1]);
        }
        assert forall|j: int| 0 <= j < f + 1 implies !is_author(#[trigger] authors[j]) by {
            if j > 0 {
                assert(t[j - 1] == authors[j]);
            }
        }
    }
}

/// The genres are the names of all the entries that have one, in order, with commas between.
pub proof fn law_genres_are_named_in_order(
    items: Seq<JsonView>,
    item: JsonView,
    name: Seq<char>,
    v: JsonView,
)
    ensures
        names_of(seq![]).len() == 0,
        item.text_field("name"@) == Some(name) ==> names_of(items.push(item)) == names_of(
            items,
        ).push(name),
        item.text_field("name"@) is None ==> names_of(items.push(item)) == names_of(items),
        v.member("genres"@) == Some(JsonView::Array(items)) && names_of(items).len() > 0
            ==> genres_of(v) == Some(text::join(names_of(items), ", "@)),
        v.member("genres"@) == Some(JsonView::Array(items)) && names_of(items).len() == 0
            ==> genres_of(v) is None,
        v.member("authors"@) == Some(JsonView::Array(items)) ==> author_of(v) == (match credited(
            items,
        ) {
            Some(pick) => pick.text_field("name"@),
            None => None,
        }),
{
    assert(items.push(item).drop_last() =~= items);
}

/// A search finds the slug of the first entry whose title has the letters and digits of the wanted
/// one.
pub proof fn law_a_search_finds_the_title(items: Seq<JsonView>, wanted: Seq<char>, i: int)
    ensures
        0 <= i < items.len() && is_titled(items[i], wanted) && (forall|j: int|
            0 <= j < i ==> !is_titled(#[trigger] items[j], wanted)) ==> slug_titled(items, wanted)
            == items[i].text_field("slug"@),
        (forall|j: int| 0 <= j < items.len() ==> !is_titled(#[trigger] items[j], wanted))
            ==> slug_titled(items, wanted) is None,
    decreases items.len(),
{
    if items.len() > 0 && !is_titled(items[0], wanted) {
        let t = items.drop_first();
        law_a_search_finds_the_title(t, wanted, i - 1);
        if 0 <= i < items.len() && is_titled(items[i], wanted) && (forall|j: int|
            0 <= j < i ==> !is_titled(#[trigger] items[j], wanted)) {
            assert(t[i - 1] == items[i]);
            assert forall|j: int| 0 <= j < i - 1 implies !is_titled(#[trigger] t[j], wanted) by {
                assert(t[j] == items[j + 1]);
            }
        }
        if forall|j: int| 0 <= j < items.len() ==> !is_titled(#[trigger] items[j], wanted) {
            assert forall|j: int| 0 <= j < t.len() implies !is_titled(#[trigger] t[j], wanted) by {
                assert(t[j] == items[j + 1]);
            }
        }
    }
}

/// The search looks at the entries of the response, bare or in an envelope, by the normalized
/// title.
pub proof fn law_a_search_reads_either_shape(
    v: JsonView,
    items: Seq<JsonView>,
    title: Seq<char>,
    t: Seq<char>,
    item: JsonView,
)
    ensures
        util::normalized(title).len() > 0 ==> matching_slug(JsonView::Array(items), title)
            == slug_titled(items, util::normalized(title)),
        util::normalized(title).len() > 0 && v.as_array() is None && v.member("items"@) == Some(
            JsonView::Array(items),
        ) ==> matching_slug(v, title) == slug_titled(items, util::normalized(title)),
        util::normalized(title).len() == 0 ==> matching_slug(v, title) is None,
        item.text_field("title"@) == Some(t) ==> (is_titled(item, util::normalized(title))
            <==> util::normalized(t) == util::normalized(title)),
{
}

/// A walk over the listing starts at the first entry and goes on behind what it was given, oldest
/// first, or newest first where only some are needed. It ends on an empty page, at the total, and
/// once it has seen enough.
pub proof fn law_a_listing_is_walked_to_its_end(
    slug: Seq<char>,
    needed: Option<usize>,
    w: ListingWalkView,
    refs: Seq<RefView>,
    total: int,
)
    requires
        refs.len() <= 500,
        w.offset + refs.len() <= u32::MAX,
    ensures
        ListingWalkView::start(slug, None).next() == Some(
            "https://chikari.moe/api/novels/"@ + slug + "/chapters?order="@ + "asc"@ + "&limit="@
                + text::decimal(500) + "&offset="@ + text::decimal(0),
        ),
        needed is Some ==> ListingWalkView::start(slug, needed).next() == Some(
            "https://chikari.moe/api/novels/"@ + slug + "/chapters?order="@ + "desc"@ + "&limit="@
                + text::decimal(500) + "&offset="@ + text::decimal(0),
        ),
        w.done ==> w.next() is None,
        refs.len() == 0 ==> w.after(refs, total).done && w.after(refs, total).found == w.found,
        refs.len() > 0 ==> {
            let after = w.after(refs, total);
            &&& after.offset == w.offset + refs.len()
            &&& after.seen == w.seen + refs.len()
            &&& after.found == source::with_links(w.found, refs)
            &&& after.done <==> (w.offset + refs.len() >= total || (w.needed is Some && w.seen
                + refs.len() >= w.needed->0))
        },
        w.after(refs, total).slug == w.slug,
        w.after(refs, total).needed == w.needed,
{
}

/// Chapters in rising order are the same chapters, by number.
pub proof fn law_chapters_rise_by_number(s: Seq<RefView>, i: int, j: int)
    ensures
        by_rising_number(s).len() == s.len(),
        0 <= i <= j < s.len() ==> by_rising_number(s)[i].number <= by_rising_number(s)[j].number,
        0 <= i < s.len() ==> by_rising_number(s).contains(s[i]),
        0 <= i < s.len() ==> s.contains(by_rising_number(s)[i]),
    decreases s.len(),
{
    lemma_rising(s);
    if 0 <= i < s.len() {
        lemma_rising_same(s, s[i]);
        assert(s.contains(s[i]));
        let x = by_rising_number(s)[i];
        lemma_rising_same(s, x);
        assert(by_rising_number(s).contains(x));
    }
}

proof fn lemma_not_above_splits(s: Seq<RefView>, n: u32)
    requires
        forall|i: int, j: int|
            0 <= i <= j < s.len() ==> (#[trigger] s[i]).number <= (#[trigger] s[j]).number,
    ensures
        0 <= not_above(s, n) <= s.len(),
        forall|i: int| 0 <= i < not_above(s, n) ==> (#[trigger] s[i]).number <= n,
        forall|i: int| not_above(s, n) <= i < s.len() ==> (#[trigger] s[i]).number > n,
    decreases s.len(),
{
    if s.len() > 0 && s[0].number <= n {
        let t = s.drop_first();
        assert forall|i: int, j: int| 0 <= i <= j < t.len() implies (#[trigger] t[i]).number <= (
        #[trigger] t[j]).number by {
            assert(t[i] == s[i + 1] && t[j] == s[j + 1]);
        }
        lemma_not_above_splits(t, n);
        assert forall|i: int| 0 <= i < not_above(s, n) implies (#[trigger] s[i]).number <= n by {
            if i > 0 {
                assert(t[i - 1] == s[i]);
            }
        }
        assert forall|i: int| not_above(s, n) <= i < s.len() implies (#[trigger] s[i]).number
            > n by {
            assert(t[i - 1] == s[i]);
        }
    } else if s.len() > 0 {
        assert forall|i: int| 0 <= i < s.len() implies (#[trigger] s[i]).number > n by {
            assert(s[0].number <= s[i].number);
        }
    }
}

proof fn lemma_rising(s: Seq<RefView>)
    ensures
        by_rising_number(s).len() == s.len(),
        forall|i: int, j: int|
            0 <= i <= j < s.len() ==> (#[trigger] by_rising_number(s)[i]).number <= (
            #[trigger] by_rising_number(s)[j]).number,
    decreases s.len(),
{
    if s.len() > 0 {
        let before = by_rising_number(s.drop_last());
        lemma_rising(s.drop_last());
        let n = s.last().number;
        lemma_not_above_splits(before, n);
        let k = not_above(before, n);
        let all = by_rising_number(s);
        assert forall|i: int, j: int| 0 <= i <= j < all.len() implies (#[trigger] all[i]).number <= (
        #[trigger] all[j]).number by {
            if j < k {
                assert(all[i] == before[i] && all[j] == before[j]);
            } else if j == k {
                if i < k {
                    assert(all[i] == before[i]);
                }
            } else if i < k {
                assert(all[i] == before[i] && all[j] == before[j - 1]);
            } else if i == k {
                assert(all[j] == before[j - 1]);
            } else {
                assert(all[i] == before[i - 1] && all[j] == before[j - 1]);
            }
        }
    }
}

proof fn lemma_rising_same(s: Seq<RefView>, x: RefView)
    ensures
        by_rising_number(s).contains(x) <==> s.contains(x),
    decreases s.len(),
{
    if s.len() > 0 {
        let less = s.drop_last();
        let before = by_rising_number(less);
        lemma_rising(less);
        lemma_rising_same(less, x);
        lemma_not_above_splits(before, s.last().number);
        let k = not_above(before, s.last().number);
        let all = by_rising_number(s);
        if s.contains(x) {
            let i = choose|i: int| 0 <= i < s.len() && s[i] == x;
            if i < less.len() {
                assert(less[i] == x);
                let j = choose|j: int| 0 <= j < before.len() && before[j] == x;
                if j < k {
                    assert(all[j] == x);
                } else {
                    assert(all[j + 1] == x);
                }
            } else {
                assert(all[k] == x);
            }
        }
        if all.contains(x) {
            let i = choose|i: int| 0 <= i < all.len() && all[i] == x;
            if i == k {
                assert(s[s.len() - 1] == x);
            } else {
                let j = if i < k {
                    i
                } else {
                    i - 1
                };
                assert(before[j] == x);
                assert(before.contains(x));
                let m = choose|m: int| 0 <= m < less.len() && less[m] == x;
                assert(s[m] == x);
            }
        }
    }
}

/// A novel's slug is the part of its address behind `novels` or `novel`, and its page and API
/// addresses are made of it.
pub proof fn law_a_slug_is_read_from_the_path(
    kind: Seq<char>,
    slug: Seq<char>,
    url: Seq<char>,
    query: Seq<char>,
)
    requires
        kind == "novels"@ || kind == "novel"@,
        slug.len() > 0,
    ensures
        slug_in(Some(Some(seq![kind, slug])), url) == Ok::<Seq<char>, Seq<char>>(slug),
        slug_in(Some(Some(seq![kind])), url) is Err,
        slug_in(Some(None), url) is Err,
        slug_in(None, url) is Err,
        novel_page(slug) == "https://chikari.moe/novels/"@ + slug,
        novel_api(slug) == "https://chikari.moe/api/novels/"@ + slug,
        search_api(query) == "https://chikari.moe/api/novels/search?q="@ + query + "&limit=20"@,
{
    reveal_strlit("novels");
    reveal_strlit("novel");
    let two = seq![kind, slug];
    let one = seq![kind];
    assert(two.drop_last() =~= one);
    assert(one.drop_last() =~= seq![]);
    reveal_with_fuel(lightnovelworld::filled, 4);
    assert(lightnovelworld::filled(one) =~= one);
    assert(lightnovelworld::filled(two) =~= two);
}

/// Any other path is no novel's.
pub proof fn law_other_paths_are_refused(kind: Seq<char>, slug: Seq<char>, url: Seq<char>)
    requires
        kind != "novels"@,
        kind != "novel"@,
        kind.len() > 0,
        slug.len() > 0,
    ensures
        slug_in(Some(Some(seq![kind, slug])), url) is Err,
        slug_in(Some(Some(seq![])), url) is Err,
{
    let two = seq![kind, slug];
    let one = seq![kind];
    assert(two.drop_last() =~= one);
    assert(one.drop_last() =~= seq![]);
    reveal_with_fuel(lightnovelworld::filled, 4);
    assert(lightnovelworld::filled(one) =~= one);
    assert(lightnovelworld::filled(two) =~= two);
}

/// The cheap check asks for the newest sixty chapters and lists them by number.
pub proof fn law_the_cheap_check_asks_for_the_newest(slug: Seq<char>)
    ensures
        listing_api(slug, true, LATEST_WINDOW, 0) == "https://chikari.moe/api/novels/"@ + slug
            + "/chapters?order="@ + "desc"@ + "&limit="@ + text::decimal(60) + "&offset="@
            + text::decimal(0),
{
}

/// Two characters are kept apart where both are of a script with spaces, neither is white space, the
/// second is no closing mark and the first no opening one.
pub proof fn law_words_are_kept_apart(a: char, b: char)
    ensures
        welds(a, b) <==> !text::is_white(a) && !text::is_white(b) && (a as u32) < 0x2E80 && (b as u32)
            < 0x2E80 && !(b == '.' || b == ',' || b == '!' || b == '?' || b == ';' || b == ':' || b
            == ')' || b == ']' || b == '}' || b == '%' || b == '\u{2019}' || b == '\u{201d}' || b
            == '\u{00bb}' || b == '\u{2026}' || b == '\u{2014}' || b == '\u{2013}') && !(a == '(' || a
            == '[' || a == '{' || a == '\u{201c}' || a == '\u{2018}' || a == '\u{00ab}' || a
            == '\u{00bf}' || a == '\u{00a1}'),
{
}

/// A response is locked where it says so, and nowhere else.
pub proof fn law_a_lock_is_stated(v: JsonView)
    ensures
        is_locked(v) <==> v.member("locked"@) == Some(JsonView::Bool(true)),
        body_in(v) is Some ==> v.member("body"@) == Some(JsonView::Text(body_in(v)->0)),
{
}

} // verus!
