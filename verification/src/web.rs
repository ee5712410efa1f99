//! What the library has of other crates when it reads the web: URLs, HTML and
//! form encoding. Each function hands text over and takes text back.

use scraper::{Html, Selector};
use url::Url;
use vstd::prelude::*;

use crate::text;

verus! {

/// What `Url::parse` and then `Url::host_str` say of a text: its host, if it has
/// one, or the error's text if it is no URL.
pub uninterp spec fn host_of(url: Seq<char>) -> Result<Option<Seq<char>>, Seq<char>>;

/// What `Url::join` makes of a link on a page: `None` if the page's own address
/// is no URL, and otherwise the absolute URL, if the link has one.
pub uninterp spec fn joined_url(base: Seq<char>, link: Seq<char>) -> Option<Option<Seq<char>>>;

/// A URL without its query and its fragment, as `Url` writes it; `None` if it is
/// no URL.
pub uninterp spec fn without_query(url: Seq<char>) -> Option<Seq<char>>;

/// The segments of a URL's path: `None` if it is no URL, and otherwise the
/// segments, if its path has any.
pub uninterp spec fn path_segments_of(url: Seq<char>) -> Option<Option<Seq<Seq<char>>>>;

/// Whether a byte stands for itself in `application/x-www-form-urlencoded` form.
pub open spec fn is_form_safe(b: u8) -> bool {
    ||| '0' as u8 <= b <= '9' as u8
    ||| 'A' as u8 <= b <= 'Z' as u8
    ||| 'a' as u8 <= b <= 'z' as u8
    ||| b == '*' as u8
    ||| b == '-' as u8
    ||| b == '.' as u8
    ||| b == '_' as u8
}

/// A digit of base 16, letters in upper case.
pub open spec fn hex_digit(n: u8) -> char {
    if n < 10 {
        (48 + n) as char
    } else {
        (55 + n) as char
    }
}

/// A byte in that form: as it is, a plus sign for a blank, or a percent sign and two hex
/// digits.
pub open spec fn form_byte(b: u8) -> Seq<char> {
    if is_form_safe(b) {
        seq![b as char]
    } else if b == ' ' as u8 {
        seq!['+']
    } else {
        seq!['%', hex_digit((b / 16) as u8), hex_digit((b % 16) as u8)]
    }
}

pub open spec fn form_bytes(bytes: Seq<u8>) -> Seq<char>
    decreases bytes.len(),
{
    if bytes.len() == 0 {
        seq![]
    } else {
        form_bytes(bytes.drop_last()) + form_byte(bytes.last())
    }
}

/// A text in `application/x-www-form-urlencoded` form: its UTF-8 bytes, one by one.
pub open spec fn form_encoded(s: Seq<char>) -> Seq<char> {
    form_bytes(vstd::utf8::encode_utf8(s))
}

/// What the elements of a page that match a selector hold, in the order in which
/// they are found: of each the value of the attribute asked for, if it has it, and its text.
/// `None` if the selector is malformed.
pub uninterp spec fn selected(
    html: Seq<char>,
    selector: Seq<char>,
    attribute: Seq<char>,
) -> Option<Seq<(Option<Seq<char>>, Seq<char>)>>;

/// The same of the elements inside the first that matches `outer`; the inner
/// `None` if no element does, the outer one if a selector is malformed.
pub uninterp spec fn selected_within(
    html: Seq<char>,
    outer: Seq<char>,
    inner: Seq<char>,
    attribute: Seq<char>,
) -> Option<Option<Seq<(Option<Seq<char>>, Seq<char>)>>>;

/// An element as the parsers read it: one attribute, and its text.
pub type Found = (Option<String>, String);

pub open spec fn found_views(v: Seq<Found>) -> Seq<(Option<Seq<char>>, Seq<char>)> {
    v.map_values(|f: Found| (text::opt(f.0), f.1@))
}

pub open spec fn opt_opt(o: Option<Option<String>>) -> Option<Option<Seq<char>>> {
    match o {
        Some(s) => Some(text::opt(s)),
        None => None,
    }
}

pub open spec fn host_view(r: Result<Option<String>, String>) -> Result<
    Option<Seq<char>>,
    Seq<char>,
> {
    match r {
        Ok(h) => Ok(text::opt(h)),
        Err(e) => Err(e@),
    }
}

/// `Url::parse` and `Url::host_str`: the result depends on the text alone.
#[verifier::external_body]
pub(crate) fn url_host(url: &str) -> (r: Result<Option<String>, String>)
    ensures
        host_view(r) == host_of(url@),
{
    Url::parse(url).map(|u| u.host_str().map(str::to_string)).map_err(|e| e.to_string())
}

/// `Url::join` on the parsed base: the result depends on the two texts alone.
#[verifier::external_body]
pub(crate) fn join_url(base: &str, link: &str) -> (r: Option<Option<String>>)
    ensures
        opt_opt(r) == joined_url(base@, link@),
{
    Url::parse(base).ok().map(|b| b.join(link).ok().map(String::from))
}

/// `Url::set_query` and `Url::set_fragment` with nothing, on the parsed URL: the
/// result depends on the text alone.
#[verifier::external_body]
pub(crate) fn strip_query(url: &str) -> (r: Option<String>)
    ensures
        text::opt(r) == without_query(url@),
{
    let mut u = Url::parse(url).ok()?;
    u.set_query(None);
    u.set_fragment(None);
    Some(String::from(u))
}

/// `Url::path_segments` of the parsed URL: the result depends on the text alone.
#[verifier::external_body]
pub(crate) fn path_segments(url: &str) -> (r: Option<Option<Vec<String>>>)
    ensures
        (match r {
            None => None,
            Some(None) => Some(None),
            Some(Some(v)) => Some(Some(text::texts(v@))),
        }) == path_segments_of(url@),
{
    Url::parse(url).ok().map(|u| u.path_segments().map(|s| s.map(str::to_string).collect()))
}

/// `url::form_urlencoded::byte_serialize` of the text's bytes: letters, digits and
/// `*-._` stay, a blank becomes a plus sign, and any other byte is percent-encoded.
#[verifier::external_body]
pub(crate) fn form_encode(s: &str) -> (r: String)
    ensures
        r@ == form_encoded(s@),
{
    url::form_urlencoded::byte_serialize(s.as_bytes()).collect()
}

/// `Html::parse_document`, `Selector::parse` and `Html::select`, with
/// `Element::attr` and `ElementRef::text` of each match: the result depends on
/// the three texts alone.
#[verifier::external_body]
pub(crate) fn select(html: &str, selector: &str, attribute: &str) -> (r: Option<Vec<Found>>)
    ensures
        (match r {
            None => None,
            Some(v) => Some(found_views(v@)),
        }) == selected(html@, selector@, attribute@),
{
    let matching = Selector::parse(selector).ok()?;
    let page = Html::parse_document(html);
    Some(
        page.select(&matching)
            .map(|e| (e.value().attr(attribute).map(str::to_string), e.text().collect()))
            .collect(),
    )
}

/// The same with `ElementRef::select` inside the first match of `outer`: the
/// result depends on the four texts alone.
#[verifier::external_body]
pub(crate) fn select_within(html: &str, outer: &str, inner: &str, attribute: &str) -> (r: Option<
    Option<Vec<Found>>,
>)
    ensures
        (match r {
            None => None,
            Some(None) => Some(None),
            Some(Some(v)) => Some(Some(found_views(v@))),
        }) == selected_within(html@, outer@, inner@, attribute@),
{
    let container = Selector::parse(outer).ok()?;
    let matching = Selector::parse(inner).ok()?;
    let page = Html::parse_document(html);
    let within = page.select(&container).next();
    Some(within.map(|c| {
        c.select(&matching)
            .map(|e| (e.value().attr(attribute).map(str::to_string), e.text().collect()))
            .collect()
    }))
}

/// The elements of a page are seen one by one, each with its attribute and its text.
pub proof fn law_elements_are_seen_whole(v: Seq<Found>, i: int)
    requires
        0 <= i < v.len(),
    ensures
        found_views(v).len() == v.len(),
        found_views(v)[i].0 == text::opt(v[i].0),
        found_views(v)[i].1 == v[i].1@,
{
}

/// In a form a letter, a digit and a few marks stand for themselves, a blank is a plus sign, and any
/// other byte a percent sign with its two digits of base 16.
pub proof fn law_forms_are_encoded_byte_by_byte(bytes: Seq<u8>, b: u8)
    ensures
        form_bytes(seq![]).len() == 0,
        (48 <= b <= 57 || 65 <= b <= 90 || 97 <= b <= 122 || b == 42 || b == 45 || b == 46 || b == 95)
            ==> form_bytes(bytes.push(b)) == form_bytes(bytes).push(b as char),
        b == 32 ==> form_bytes(bytes.push(b)) == form_bytes(bytes).push('+'),
        !(48 <= b <= 57 || 65 <= b <= 90 || 97 <= b <= 122 || b == 42 || b == 45 || b == 46 || b
            == 95 || b == 32) ==> form_bytes(bytes.push(b)) == form_bytes(bytes) + seq![
            '%',
            hex_digit((b / 16) as u8),
            hex_digit((b % 16) as u8),
        ],
        b < 10 ==> hex_digit(b) as u32 == '0' as u32 + b,
        10 <= b < 16 ==> hex_digit(b) as u32 == 'A' as u32 + (b - 10),
{
    assert(bytes.push(b).drop_last() =~= bytes);
    assert(form_bytes(bytes) + seq![b as char] =~= form_bytes(bytes).push(b as char));
    assert(form_bytes(bytes) + seq!['+'] =~= form_bytes(bytes).push('+'));
}

} // verus!
