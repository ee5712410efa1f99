//! Hand-written adapter for scribblehub.com.
//!
//! The table of contents is a form POST, 15 chapters a page, newest first.
//! Chapter URLs use non-sequential ids and the "Chapter N" numbers don't match
//! the count (prologues, interludes), so chapters are numbered by position,
//! oldest first.

use vstd::prelude::*;
use vstd::slice::slice_subrange;

use crate::model::{Chapter, ChapterRef, NovelMeta, RefView};
use crate::royalroad;
use crate::source;
use crate::text;
use crate::util;
use crate::web::Found;
use crate::web;

verus! {

/// The scribblehub adapter, over whatever fetches its pages.
pub struct ScribbleHubSource<F> {
    pub fetcher: F,
}

/// Where a chapter's prose stands on its page.
pub const CONTENT_SELECTOR: &'static str = "#chp_raw";

pub const MAX_PAGES: u32 = 1000;

// ---------------------------------------------------------------------------
// Titles and metadata
// ---------------------------------------------------------------------------

/// A title without "Chapter " at its front.
pub open spec fn without_chapter_word(t: Seq<char>) -> Seq<char> {
    if t.len() >= 8 && text::eq_ci(t.take(8), "chapter "@) {
        text::trimmed_start(t.skip(8))
    } else {
        t
    }
}

/// Whether a character ends a numbering. A hyphen does so only behind the word: "12-Year-Old"
/// is no numbering.
pub open spec fn ends_numbering(c: char, after_word: bool) -> bool {
    c == '.' || c == ':' || (after_word && c == '-')
}

/// A chapter title without a leading "Chapter N." or "N." (we render our own
/// prefix), unless that is all there is. A colon does for the dot, and so does a hyphen
/// behind "Chapter N".
pub open spec fn unnumbered(raw: Seq<char>) -> Seq<char> {
    let t = text::trimmed(raw);
    let u = without_chapter_word(t);
    let d = text::span(u, text::digits());
    let rest = u.skip(d);
    let name = text::trimmed_start(rest.drop_first());
    if d > 0 && rest.len() > 0 && ends_numbering(rest[0], u != t) && name.len() > 0 {
        name
    } else {
        t
    }
}

/// Strip a leading "Chapter N." / "N." numbering.
pub fn clean_title(raw: &str) -> (r: String)
    ensures
        r@ == unnumbered(raw@),
{
    let v = text::to_chars(raw);
    let t = text::trim(&v);
    let word = text::to_chars("chapter ");
    proof {
        reveal_strlit("chapter ");
    }
    let worded = t.len() >= 8 && text::same_ci(slice_subrange(t, 0, 8), &word);
    let u: &[char] = if worded {
        assert(t@.subrange(0, 8) == t@.take(8));
        let after = slice_subrange(t, 8, t.len());
        assert(after@ == t@.skip(8));
        text::trim_start(after)
    } else {
        assert(t@.len() >= 8 ==> t@.subrange(0, 8) == t@.take(8));
        t
    };
    assert(u@ == without_chapter_word(t@));
    assert(worded == (u@ != t@)) by {
        if worded {
            assert(u@.len() < t@.len());
        }
    }
    let d: usize = util::leading_digits(u);
    let rest = slice_subrange(u, d, u.len());
    assert(rest@ == u@.skip(d as int));
    if d > 0 && rest.len() > 0 && (rest[0] == '.' || rest[0] == ':' || (worded && rest[0] == '-')) {
        let after = slice_subrange(rest, 1, rest.len());
        assert(after@ == rest@.drop_first());
        let name = text::trim_start(after);
        if name.len() > 0 {
            return text::to_text(name);
        }
    }
    text::to_text(t)
}

/// A cover address, unless it is the site's placeholder.
pub open spec fn real_cover(image: Option<Seq<char>>) -> Option<Seq<char>> {
    match image {
        Some(s) => if text::find_from(s, "noimagefound"@, 0) is Some {
            None
        } else {
            Some(s)
        },
        None => None,
    }
}

pub fn keep_real_cover(image: Option<String>) -> (r: Option<String>)
    ensures
        text::opt(r) == real_cover(text::opt(image)),
{
    match image {
        Some(s) => {
            let v = text::to_chars(s.as_str());
            let needle = text::to_chars("noimagefound");
            if text::find(&v, &needle, 0).is_some() {
                None
            } else {
                Some(s)
            }
        },
        None => None,
    }
}

pub fn parse_novel(html: &str, source_url: &str) -> (r: Result<NovelMeta, String>)
    ensures
        source::meta_view(r) == source::novel_meta(
            source::trimmed_opt(source::property_of(html@, "og:title"@)),
            source::text_at(html@, "a[href*=\"/profile/\"]"@),
            real_cover(source::trimmed_opt(source::property_of(html@, "og:image"@))),
            None,
            royalroad::labelled_on(web::selected(html@, "span.rnd_stats"@, ""@)),
            source_url@,
        ),
{
    let title = source::trim_opt(source::meta_content(html, "og:title"));
    let author = source::text_of(html, "a[href*=\"/profile/\"]");
    let image = keep_real_cover(source::trim_opt(source::meta_content(html, "og:image")));
    let status = royalroad::select_status(html, "span.rnd_stats");
    source::meta_from(title, author, image, None, status, source_url)
}

/// The series id a page states in `#mypostid`.
pub open spec fn post_id_on(html: Seq<char>) -> Option<Seq<char>> {
    source::trimmed_opt(source::first_attr(web::selected(html, "#mypostid"@, "value"@)))
}

pub fn parse_post_id(html: &str) -> (r: Option<String>)
    ensures
        text::opt(r) == post_id_on(html@),
{
    source::trim_opt(source::select_attr(html, "#mypostid", "value"))
}

/// The digits of a text, in order.
pub open spec fn digits_in(s: Seq<char>) -> Seq<char>
    decreases s.len(),
{
    if s.len() == 0 {
        seq![]
    } else if text::is_digit(s.last()) {
        digits_in(s.drop_last()).push(s.last())
    } else {
        digits_in(s.drop_last())
    }
}

/// The number a text's digits make.
pub open spec fn total_in(raw: Option<Seq<char>>) -> Option<nat> {
    match raw {
        Some(s) => text::parsed(digits_in(s), u32::MAX as nat),
        None => None,
    }
}

/// The total out of the counter's text.
pub fn total_from(raw: &Option<String>) -> (r: Option<u32>)
    ensures
        r is Some == total_in(text::opt(*raw)) is Some,
        r matches Some(n) ==> n == total_in(text::opt(*raw))->0,
{
    match raw {
        Some(s) => {
            let v = text::to_chars(s.as_str());
            let mut d: Vec<char> = Vec::new();
            let mut i: usize = 0;
            while i < v.len()
                invariant
                    i <= v@.len(),
                    d@ == digits_in(v@.take(i as int)),
                decreases v@.len() - i,
            {
                proof {
                    let t = v@.take(i + 1);
                    assert(t.drop_last() =~= v@.take(i as int));
                    assert(t.last() == v@[i as int]);
                }
                if text::digit(v[i]) {
                    d.push(v[i]);
                }
                i += 1;
            }
            assert(v@.take(v@.len() as int) =~= v@);
            text::parse_u32(&d)
        },
        None => None,
    }
}

/// Total chapter count from `.cnt_toc`.
pub fn parse_total(html: &str) -> (r: Option<u32>)
    ensures
        r is Some == total_in(source::text_at(html@, ".cnt_toc"@)) is Some,
        r matches Some(n) ==> n == total_in(source::text_at(html@, ".cnt_toc"@))->0,
{
    total_from(&source::text_of(html, ".cnt_toc"))
}

// ---------------------------------------------------------------------------
// Table-of-contents pages
// ---------------------------------------------------------------------------

pub type Link = (String, String);

pub open spec fn link_views(v: Seq<Link>) -> Seq<(Seq<char>, Seq<char>)> {
    v.map_values(|l: Link| (l.0@, l.1@))
}

/// The addresses and trimmed texts of the links that have an address.
pub open spec fn links_among(found: Seq<(Option<Seq<char>>, Seq<char>)>) -> Seq<
    (Seq<char>, Seq<char>),
>
    decreases found.len(),
{
    if found.len() == 0 {
        seq![]
    } else {
        match found.last().0 {
            Some(href) => links_among(found.drop_last()).push(
                (href, text::trimmed(found.last().1)),
            ),
            None => links_among(found.drop_last()),
        }
    }
}

pub open spec fn links_on(selection: source::Selection) -> Seq<(Seq<char>, Seq<char>)> {
    match selection {
        Some(v) => links_among(v),
        None => seq![],
    }
}

/// The links among a page's elements.
pub fn links_from(found: &Vec<Found>) -> (r: Vec<Link>)
    ensures
        link_views(r@) == links_among(web::found_views(found@)),
{
    let ghost all = web::found_views(found@);
    let mut out: Vec<Link> = Vec::new();
    let mut i: usize = 0;
    while i < found.len()
        invariant
            i <= found@.len(),
            all == web::found_views(found@),
            link_views(out@) == links_among(all.take(i as int)),
        decreases found@.len() - i,
    {
        proof {
            let t = all.take(i + 1);
            assert(t.drop_last() =~= all.take(i as int));
            assert(t.last() == (text::opt(found@[i as int].0), found@[i as int].1@));
        }
        if let Some(href) = &found[i].0 {
            let ghost before = out@;
            let l: Link = (href.clone(), text::trim_text(found[i].1.as_str()));
            out.push(l);
            assert(link_views(out@) =~= link_views(before).push((l.0@, l.1@)));
        }
        i += 1;
    }
    assert(all.take(all.len() as int) =~= all);
    out
}

/// Parse `a.toc_a` chapter links from a page: (absolute url, raw title).
pub fn parse_toc_links(html: &str) -> (r: Vec<Link>)
    ensures
        link_views(r@) == links_on(web::selected(html@, "a.toc_a"@, "href"@)),
{
    match web::select(html, "a.toc_a", "href") {
        Some(v) => links_from(&v),
        None => {
            let none: Vec<Link> = Vec::new();
            assert(link_views(none@) =~= seq![]);
            none
        },
    }
}

/// Links listed newest first as chapters numbered oldest first, from `start`.
/// (The count starts over past the 32 bits of a chapter number.)
pub open spec fn numbered(links: Seq<(Seq<char>, Seq<char>)>, start: u32) -> Seq<RefView> {
    Seq::new(
        links.len(),
        |i: int|
            RefView {
                number: ((start + i) % 0x1_0000_0000) as u32,
                title: unnumbered(links[links.len() - 1 - i].1),
                url: links[links.len() - 1 - i].0,
            },
    )
}

/// Turn a newest-first list of (url, raw title) into oldest-first chapter refs
/// numbered from `start`.
pub fn to_refs(newest_first: &Vec<Link>, start: u32) -> (r: Vec<ChapterRef>)
    ensures
        source::ref_views(r@) == numbered(link_views(newest_first@), start),
{
    let ghost all = link_views(newest_first@);
    let mut out: Vec<ChapterRef> = Vec::new();
    let mut i: usize = 0;
    while i < newest_first.len()
        invariant
            i <= newest_first@.len(),
            all == link_views(newest_first@),
            source::ref_views(out@) == numbered(all, start).take(i as int),
        decreases newest_first@.len() - i,
    {
        let at: usize = newest_first.len() - 1 - i;
        assert(all[at as int] == (newest_first@[at as int].0@, newest_first@[at as int].1@));
        let number: u32 = ((start as u128 + i as u128) % 0x1_0000_0000) as u32;
        let ghost before = out@;
        let c = ChapterRef {
            number,
            title: clean_title(newest_first[at].1.as_str()),
            url: newest_first[at].0.clone(),
        };
        out.push(c);
        assert(source::ref_views(out@) =~= source::ref_views(before).push(c@));
        i += 1;
        assert(numbered(all, start).take(i as int) =~= numbered(all, start).take(i - 1).push(c@));
    }
    assert(numbered(all, start).take(all.len() as int) =~= numbered(all, start));
    out
}

/// Where the table of contents is asked for.
pub open spec fn ajax_url(host: Result<Option<Seq<char>>, Seq<char>>, url: Seq<char>) -> Result<
    Seq<char>,
    Seq<char>,
> {
    match host {
        Err(e) => Err(e),
        Ok(None) => Err("no host in "@ + url),
        Ok(Some(h)) => Ok("https://"@ + h + "/wp-admin/admin-ajax.php"@),
    }
}

/// The address out of the series page's host.
pub fn ajax_from(host: Result<Option<String>, String>, url: &str) -> (r: Result<String, String>)
    ensures
        (match r {
            Ok(s) => Ok(s@),
            Err(e) => Err(e@),
        }) == ajax_url(web::host_view(host), url@),
{
    match host {
        Err(e) => Err(e),
        Ok(None) => Err(text::concat("no host in ", url)),
        Ok(Some(h)) => {
            let a = text::concat("https://", h.as_str());
            Ok(text::concat(a.as_str(), "/wp-admin/admin-ajax.php"))
        },
    }
}

pub fn admin_ajax_url(url: &str) -> (r: Result<String, String>)
    ensures
        (match r {
            Ok(s) => Ok(s@),
            Err(e) => Err(e@),
        }) == ajax_url(web::host_of(url@), url@),
{
    ajax_from(web::url_host(url), url)
}

/// The form that asks for a page of the table of contents.
pub open spec fn toc_form(page: u32, post_id: Seq<char>) -> Seq<char> {
    "action=wi_getreleases_pagination&pagenum="@ + text::decimal(page as nat) + "&mypostid="@
        + post_id
}

pub fn toc_body(page: u32, post_id: &str) -> (r: String)
    ensures
        r@ == toc_form(page, post_id@),
{
    let mut v = text::to_chars("action=wi_getreleases_pagination&pagenum=");
    let d = text::decimal_chars(page as u64);
    text::push_all(&mut v, &d);
    text::push_str(&mut v, "&mypostid=");
    text::push_str(&mut v, post_id);
    text::to_text(&v)
}

// ---------------------------------------------------------------------------
// Walking the table of contents
// ---------------------------------------------------------------------------

/// What the series page says, once it is read.
#[verifier::ext_equal]
pub struct SeriesView {
    pub post_id: Seq<char>,
    pub total: u32,
    pub ajax: Seq<char>,
}

/// A walk over the table of contents as plain values.
#[verifier::ext_equal]
pub struct SeriesWalkView {
    pub url: Seq<char>,
    /// Whether only the newest page is wanted.
    pub latest: bool,
    pub series: Option<SeriesView>,
    pub page: u32,
    pub page_size: int,
    pub collected: Seq<(Seq<char>, Seq<char>)>,
    pub done: bool,
}

/// What to fetch next.
#[derive(Debug)]
pub enum Request {
    Get { url: String },
    Post { url: String, body: String },
}

/// A [`Request`] as plain values.
#[verifier::ext_equal]
pub enum RequestView {
    Get { url: Seq<char> },
    Post { url: Seq<char>, body: Seq<char> },
}

pub open spec fn request_view(r: Option<Request>) -> Option<RequestView> {
    match r {
        None => None,
        Some(Request::Get { url }) => Some(RequestView::Get { url: url@ }),
        Some(Request::Post { url, body }) => Some(RequestView::Post { url: url@, body: body@ }),
    }
}

impl SeriesWalkView {
    pub open spec fn start(url: Seq<char>, latest: bool) -> SeriesWalkView {
        SeriesWalkView {
            url,
            latest,
            series: None,
            page: 1,
            page_size: 15,
            collected: seq![],
            done: false,
        }
    }

    pub open spec fn next(self) -> Option<RequestView> {
        if self.done {
            None
        } else {
            match self.series {
                None => Some(RequestView::Get { url: self.url }),
                Some(s) => Some(
                    RequestView::Post { url: s.ajax, body: toc_form(self.page, s.post_id) },
                ),
            }
        }
    }

    /// What the series page lacks, if it lacks something.
    pub open spec fn series_refusal(
        self,
        post_id: Option<Seq<char>>,
        ajax: Result<Seq<char>, Seq<char>>,
    ) -> Option<Seq<char>> {
        match post_id {
            None => Some("no mypostid on "@ + self.url),
            Some(_) => match ajax {
                Err(e) => Some(e),
                Ok(_) => None,
            },
        }
    }

    pub open spec fn after_series(
        self,
        post_id: Option<Seq<char>>,
        total: Option<nat>,
        ajax: Result<Seq<char>, Seq<char>>,
    ) -> SeriesWalkView {
        SeriesWalkView {
            series: Some(
                SeriesView {
                    post_id: post_id->0,
                    total: match total {
                        Some(n) => n as u32,
                        None => 0,
                    },
                    ajax: ajax->Ok_0,
                },
            ),
            ..self
        }
    }

    /// The walk once a page's links are taken in. It ends at the total, so that
    /// no page is asked for that is not there, on a short or empty page, and at
    /// the cap.
    pub open spec fn after_links(self, links: Seq<(Seq<char>, Seq<char>)>) -> SeriesWalkView {
        let total = self.series->0.total;
        let size = if self.page == 1 {
            links.len() as int
        } else {
            self.page_size
        };
        let collected = self.collected + links;
        if self.latest {
            SeriesWalkView { collected, done: true, ..self }
        } else if links.len() == 0 {
            SeriesWalkView { done: true, ..self }
        } else if (total > 0 && collected.len() >= total) || links.len() < size || self.page
            >= MAX_PAGES {
            SeriesWalkView { page_size: size, collected, done: true, ..self }
        } else {
            SeriesWalkView { page_size: size, collected, page: (self.page + 1) as u32, ..self }
        }
    }

    /// The chapters found. A full walk numbers them from 1; the newest page is
    /// numbered so that it ends at the total.
    pub open spec fn result(self) -> Result<Seq<RefView>, Seq<char>> {
        if self.latest {
            let total = match self.series {
                Some(s) => s.total,
                None => 0,
            };
            let start = if total >= self.collected.len() {
                total - self.collected.len() + 1
            } else {
                1
            };
            Ok(numbered(self.collected, (start % 0x1_0000_0000) as u32))
        } else if self.collected.len() == 0 {
            Err("no chapters found for "@ + self.url)
        } else {
            Ok(numbered(self.collected, 1))
        }
    }
}

struct Series {
    post_id: String,
    total: u32,
    ajax: String,
}

/// A walk over the table of contents: asks for pages, takes them in, and ends
/// with the chapters found.
pub struct SeriesWalk {
    url: String,
    latest: bool,
    series: Option<Series>,
    page: u32,
    page_size: usize,
    collected: Vec<Link>,
    done: bool,
}

impl View for SeriesWalk {
    type V = SeriesWalkView;

    closed spec fn view(&self) -> SeriesWalkView {
        SeriesWalkView {
            url: self.url@,
            latest: self.latest,
            series: match self.series {
                None => None,
                Some(s) => Some(
                    SeriesView { post_id: s.post_id@, total: s.total, ajax: s.ajax@ },
                ),
            },
            page: self.page,
            page_size: self.page_size as int,
            collected: link_views(self.collected@),
            done: self.done,
        }
    }
}

impl SeriesWalk {
    /// Start a walk over every page.
    pub fn full(url: &str) -> (r: SeriesWalk)
        ensures
            r@ == SeriesWalkView::start(url@, false),
    {
        let r = SeriesWalk {
            url: url.to_string(),
            latest: false,
            series: None,
            page: 1,
            page_size: 15,
            collected: Vec::new(),
            done: false,
        };
        assert(r@.collected =~= seq![]);
        r
    }

    /// Start a cheap check of the newest page alone.
    pub fn latest(url: &str) -> (r: SeriesWalk)
        ensures
            r@ == SeriesWalkView::start(url@, true),
    {
        let r = SeriesWalk {
            url: url.to_string(),
            latest: true,
            series: None,
            page: 1,
            page_size: 15,
            collected: Vec::new(),
            done: false,
        };
        assert(r@.collected =~= seq![]);
        r
    }

    /// What to fetch next; `None` when the walk is over.
    pub fn next_request(&self) -> (r: Option<Request>)
        ensures
            request_view(r) == self@.next(),
    {
        if self.done {
            return None;
        }
        match &self.series {
            None => Some(Request::Get { url: self.url.clone() }),
            Some(s) => Some(
                Request::Post {
                    url: s.ajax.clone(),
                    body: toc_body(self.page, s.post_id.as_str()),
                },
            ),
        }
    }

    /// Take in what the series page says.
    pub fn accept_series(
        &mut self,
        post_id: Option<String>,
        total: Option<u32>,
        ajax: Result<String, String>,
    ) -> (r: Result<(), String>)
        ensures
            ({
                let id = text::opt(post_id);
                let address = match ajax {
                    Ok(s) => Ok::<Seq<char>, Seq<char>>(s@),
                    Err(e) => Err(e@),
                };
                let count = match total {
                    Some(n) => Some(n as nat),
                    None => None,
                };
                let refusal = old(self)@.series_refusal(id, address);
                &&& r is Err == refusal is Some
                &&& r matches Err(e) ==> e@ == refusal->0 && final(self)@ == old(self)@
                &&& r is Ok ==> final(self)@ == old(self)@.after_series(id, count, address)
            }),
    {
        let post_id = match post_id {
            Some(p) => p,
            None => return Err(text::concat("no mypostid on ", self.url.as_str())),
        };
        let ajax = match ajax {
            Ok(a) => a,
            Err(e) => return Err(e),
        };
        let total: u32 = match total {
            Some(n) => n,
            None => 0,
        };
        self.series = Some(Series { post_id, total, ajax });
        Ok(())
    }

    /// Take in the links of a table-of-contents page.
    pub fn accept_links(&mut self, links: Vec<Link>)
        requires
            old(self)@.series is Some,
        ensures
            final(self)@ == old(self)@.after_links(link_views(links@)),
    {
        let ghost before = self@;
        let ghost more = link_views(links@);
        let got: usize = links.len();
        let total: u32 = match &self.series {
            Some(s) => s.total,
            None => 0,
        };
        if !self.latest && got == 0 {
            self.done = true;
            return;
        }
        let mut rest = links;
        let ghost held = self.collected@;
        self.collected.append(&mut rest);
        assert(link_views(self.collected@) =~= link_views(held) + more);
        if self.latest {
            self.done = true;
            assert(self@ =~= before.after_links(more));
            return;
        }
        if self.page == 1 {
            self.page_size = got;
        }
        if (total > 0 && self.collected.len() as u64 >= total as u64) || got < self.page_size
            || self.page >= MAX_PAGES {
            self.done = true;
        } else {
            self.page = self.page + 1;
        }
        assert(self@ =~= before.after_links(more));
    }

    /// Take in the page that was asked for.
    pub fn accept(&mut self, page: &str) -> (r: Result<(), String>)
        ensures
            old(self)@.series is None ==> ({
                let id = post_id_on(page@);
                let address = ajax_url(web::host_of(old(self)@.url), old(self)@.url);
                let count = total_in(source::text_at(page@, ".cnt_toc"@));
                let refusal = old(self)@.series_refusal(id, address);
                &&& r is Err == refusal is Some
                &&& r matches Err(e) ==> e@ == refusal->0 && final(self)@ == old(self)@
                &&& r is Ok ==> final(self)@ == old(self)@.after_series(id, count, address)
            }),
            old(self)@.series is Some ==> r is Ok && final(self)@ == old(self)@.after_links(
                links_on(web::selected(page@, "a.toc_a"@, "href"@)),
            ),
    {
        if self.series.is_none() {
            let ajax = admin_ajax_url(self.url.as_str());
            self.accept_series(parse_post_id(page), parse_total(page), ajax)
        } else {
            self.accept_links(parse_toc_links(page));
            Ok(())
        }
    }

    /// The chapters found, oldest first.
    pub fn finish(&self) -> (r: Result<Vec<ChapterRef>, String>)
        ensures
            source::refs_view(r) == self@.result(),
    {
        assert(self@.collected.len() == self.collected@.len());
        if self.latest {
            let total: u32 = match &self.series {
                Some(s) => s.total,
                None => 0,
            };
            let n: u64 = self.collected.len() as u64;
            let start: u64 = if total as u64 >= n {
                total as u64 - n + 1
            } else {
                1
            };
            return Ok(to_refs(&self.collected, (start % 0x1_0000_0000) as u32));
        }
        if self.collected.len() == 0 {
            return Err(text::concat("no chapters found for ", self.url.as_str()));
        }
        Ok(to_refs(&self.collected, 1))
    }
}

impl<F> ScribbleHubSource<F> {
    pub fn new(fetcher: F) -> (r: Self)
        ensures
            r.fetcher == fetcher,
    {
        Self { fetcher }
    }

    pub fn name(&self) -> (r: &'static str)
        ensures
            r@ == "scribblehub"@,
    {
        "scribblehub"
    }

    pub fn matches(&self, url: &str) -> (r: bool)
        ensures
            r == source::has_host_www(url@, "scribblehub.com"@),
    {
        source::is_host_www(&web::url_host(url), "scribblehub.com")
    }

    /// A chapter out of its page.
    pub fn read_chapter(&self, html: &str, chapter: &ChapterRef) -> (r: Result<Chapter, String>)
        ensures
            source::chapter_result(r) == source::chapter_of(
                chapter.number,
                chapter.title@,
                source::body_paragraphs(
                    web::selected_within(html@, CONTENT_SELECTOR@, "p"@, ""@),
                    CONTENT_SELECTOR@,
                    "p"@,
                ),
            ),
    {
        match source::parse_chapter_body(html, CONTENT_SELECTOR, "p") {
            Ok(paragraphs) => Ok(
                Chapter { number: chapter.number, title: chapter.title.clone(), paragraphs },
            ),
            Err(e) => Err(e),
        }
    }
}

/// The oldest link gets the lowest number, and each newer one the next.
pub proof fn law_numbers_follow_age(links: Seq<(Seq<char>, Seq<char>)>, i: int)
    requires
        0 <= i < links.len() < 0x1_0000_0000,
    ensures
        numbered(links, 1)[i].number == i + 1,
        numbered(links, 1)[i].url == links[links.len() - 1 - i].0,
{
}

/// Each chapter of a full walk has the title and the address of its own link, without numbering.
pub proof fn law_chapters_keep_their_links(
    links: Seq<(Seq<char>, Seq<char>)>,
    start: u32,
    i: int,
)
    requires
        0 <= i < links.len(),
        start + links.len() <= 0x1_0000_0000,
    ensures
        numbered(links, start).len() == links.len(),
        numbered(links, start)[i].number == start + i,
        numbered(links, start)[i].url == links[links.len() - 1 - i].0,
        numbered(links, start)[i].title == unnumbered(links[links.len() - 1 - i].1),
{
}

/// The links of a page are taken one by one: one with an address is added with its trimmed text,
/// and one without adds nothing.
pub proof fn law_links_are_taken_one_by_one(
    found: Seq<(Option<Seq<char>>, Seq<char>)>,
    href: Seq<char>,
    t: Seq<char>,
)
    ensures
        links_among(seq![]).len() == 0,
        links_among(found.push((Some(href), t))) == links_among(found).push(
            (href, text::trimmed(t)),
        ),
        links_among(found.push((None, t))) == links_among(found),
        links_on(Some(found)) == links_among(found),
        links_on(None).len() == 0,
{
    assert(found.push((Some(href), t)).drop_last() =~= found);
    let none: (Option<Seq<char>>, Seq<char>) = (None, t);
    assert(found.push(none).drop_last() =~= found);
}

/// A walk asks for the series page, and then, with the id that page states, for the pages of the
/// table of contents one after the other.
pub proof fn law_pages_are_asked_for_with_the_series_id(
    url: Seq<char>,
    latest: bool,
    w: SeriesWalkView,
    post_id: Seq<char>,
    total: Option<nat>,
    host: Seq<char>,
    links: Seq<(Seq<char>, Seq<char>)>,
)
    requires
        !w.done,
    ensures
        SeriesWalkView::start(url, latest).next() == Some(RequestView::Get { url }),
        SeriesWalkView::start(url, latest).latest == latest,
        SeriesWalkView::start(url, latest).page == 1,
        ajax_url(Ok(Some(host)), url) == Ok::<Seq<char>, Seq<char>>(
            "https://"@ + host + "/wp-admin/admin-ajax.php"@,
        ),
        ajax_url(Ok(None), url) is Err,
        w.series_refusal(None, ajax_url(Ok(Some(host)), url)) is Some,
        w.series_refusal(Some(post_id), ajax_url(Ok(None), url)) is Some,
        w.series_refusal(Some(post_id), ajax_url(Ok(Some(host)), url)) is None,
        w.after_series(Some(post_id), total, ajax_url(Ok(Some(host)), url)).next() == Some(
            RequestView::Post {
                url: "https://"@ + host + "/wp-admin/admin-ajax.php"@,
                body: "action=wi_getreleases_pagination&pagenum="@ + text::decimal(w.page as nat)
                    + "&mypostid="@ + post_id,
            },
        ),
        total matches Some(n) ==> (n <= u32::MAX ==> w.after_series(
            Some(post_id),
            total,
            ajax_url(Ok(Some(host)), url),
        ).series->0.total == n),
        !w.after_links(links).done ==> w.after_links(links).page == (w.page + 1) as u32
            && w.after_links(links).series == w.series,
{
}

/// A walk keeps every link it is given, in order. It ends on an empty page, on a page shorter than
/// the first, at the stated total and, where only the newest page is wanted, on the first.
pub proof fn law_a_walk_collects_every_link(
    w: SeriesWalkView,
    links: Seq<(Seq<char>, Seq<char>)>,
)
    requires
        w.series is Some,
    ensures
        w.after_links(links).collected == w.collected + links,
        w.latest ==> w.after_links(links).done,
        links.len() == 0 ==> w.after_links(links).done,
        !w.latest && w.page > 1 && links.len() < w.page_size ==> w.after_links(links).done,
        !w.latest && w.series->0.total > 0 && w.collected.len() + links.len() >= w.series->0.total
            ==> w.after_links(links).done,
        !w.done && !w.latest && w.page == 1 && links.len() > 0 && (w.series->0.total == 0
            || w.collected.len() + links.len() < w.series->0.total) ==> !w.after_links(links).done,
        !w.done && !w.latest && 1 < w.page < 1000 && links.len() > 0 && links.len() >= w.page_size
            && (w.series->0.total == 0 || w.collected.len() + links.len() < w.series->0.total)
            ==> !w.after_links(links).done,
        w.page == 1 && !w.after_links(links).done ==> w.after_links(links).page_size
            == links.len(),
        w.page > 1 && !w.after_links(links).done ==> w.after_links(links).page_size
            == w.page_size,
{
    assert(w.collected + Seq::<(Seq<char>, Seq<char>)>::empty() =~= w.collected);
    if links.len() == 0 {
        assert(w.collected + links =~= w.collected);
    }
}

/// A full walk numbers its chapters from 1, oldest first; a look at the newest page numbers them so
/// that the newest has the stated total.
pub proof fn law_the_result_is_numbered_by_the_walk(w: SeriesWalkView, s: SeriesView, i: int)
    requires
        0 <= i < w.collected.len() < 0x1_0000_0000,
    ensures
        !w.latest ==> (w.result() matches Ok(refs) && refs.len() == w.collected.len()
            && refs[i].number == i + 1 && refs[i].url == w.collected[w.collected.len() - 1 - i].0),
        w.latest && w.series == Some(s) && s.total >= w.collected.len() ==> (w.result() matches Ok(
            refs,
        ) && refs.len() == w.collected.len() && refs[i].number == s.total - w.collected.len() + 1
            + i && refs.last().number == s.total && refs[i].url
            == w.collected[w.collected.len() - 1 - i].0),
        !w.latest && w.collected.len() == 0 ==> w.result() is Err,
{
}

/// A title without a digit in front, the word "Chapter " aside, is only trimmed; "N." and a colon
/// likewise, and a hyphen behind the word, go with the number, and the name stays whole.
pub proof fn law_a_plain_title_stays(raw: Seq<char>, n: u32, name: Seq<char>)
    requires
        name.len() > 0,
        !text::is_white(name[0]),
        !text::is_white(name.last()),
    ensures
        text::trimmed(raw).len() == 0 || (!text::is_digit(text::trimmed(raw)[0]) && text::ascii_lower(
            text::trimmed(raw)[0],
        ) != 'c') ==> unnumbered(raw) == text::trimmed(raw),
        unnumbered(text::decimal(n as nat) + seq!['.'] + name) == name,
        unnumbered(text::decimal(n as nat) + seq![':'] + name) == name,
        unnumbered(text::decimal(n as nat) + seq!['-'] + name) == text::decimal(n as nat) + seq!['-']
            + name,
{
    reveal_strlit("chapter ");
    let t = text::trimmed(raw);
    if t.len() == 0 || (!text::is_digit(t[0]) && text::ascii_lower(t[0]) != 'c') {
        lemma_no_chapter_word(t);
        text::lemma_span_is(t, text::digits(), 0);
    }
    lemma_numbered_name(text::decimal(n as nat), '.', name, n);
    lemma_numbered_name(text::decimal(n as nat), ':', name, n);
    lemma_numbered_name(text::decimal(n as nat), '-', name, n);
}

proof fn lemma_no_chapter_word(t: Seq<char>)
    requires
        t.len() == 0 || text::ascii_lower(t[0]) != 'c',
    ensures
        without_chapter_word(t) == t,
{
    reveal_strlit("chapter ");
    if t.len() >= 8 {
        assert(text::lower(t.take(8))[0] == text::ascii_lower(t[0]));
        assert(text::lower("chapter "@)[0] == 'c');
    }
}

proof fn lemma_numbered_name(d: Seq<char>, c: char, name: Seq<char>, n: u32)
    requires
        d == text::decimal(n as nat),
        c == '.' || c == ':' || c == '-',
        name.len() > 0,
        !text::is_white(name[0]),
        !text::is_white(name.last()),
    ensures
        unnumbered(d + seq![c] + name) == if c == '-' {
            d + seq![c] + name
        } else {
            name
        },
{
    let t = d + seq![c] + name;
    text::lemma_decimal(n as nat);
    assert(text::is_digit(d[0]));
    assert(t[0] == d[0] && t.last() == name.last());
    text::law_trimming_settles(t);
    lemma_no_chapter_word(t);
    assert forall|j: int| 0 <= j < d.len() implies text::digits()(#[trigger] t[j]) by {
        assert(t[j] == d[j] && text::is_digit(d[j]));
    }
    assert(t[d.len() as int] == c);
    text::lemma_span_is(t, text::digits(), d.len() as int);
    let rest = t.skip(d.len() as int);
    assert(rest =~= seq![c] + name);
    assert(rest.drop_first() =~= name);
    text::lemma_span_is(name, text::white(), 0);
    assert(name.skip(0) =~= name);
}

/// A cover is kept unless its address is that of the placeholder.
pub proof fn law_placeholder_covers_are_left_out(s: Seq<char>, i: int)
    ensures
        text::occurs_at(s, "noimagefound"@, i) ==> real_cover(Some(s)) is None,
        (forall|j: int| 0 <= j ==> !text::occurs_at(s, "noimagefound"@, j)) ==> real_cover(Some(s))
            == Some(s),
        real_cover(None) is None,
{
    text::lemma_find_from(s, "noimagefound"@, 0);
}

/// A total is the number its digits make, whatever stands between them.
pub proof fn law_totals_are_read_digit_by_digit(s: Seq<char>, c: char, n: u32)
    ensures
        digits_in(seq![]).len() == 0,
        '0' <= c && c <= '9' ==> digits_in(s.push(c)) == digits_in(s).push(c),
        !('0' <= c && c <= '9') ==> digits_in(s.push(c)) == digits_in(s),
        digits_in(s) == text::decimal(n as nat) ==> total_in(Some(s)) == Some(n as nat),
        total_in(None) is None,
{
    assert(s.push(c).drop_last() =~= s);
    text::law_numbers_read_back(n as nat, u32::MAX as nat);
}

/// "Chapter N" with a dot, a colon or a hyphen behind it goes, and the name that follows stays
/// whole; "Chapter N" alone stays.
pub proof fn law_the_chapter_word_goes_with_its_number(n: u32, c: char, name: Seq<char>)
    requires
        name.len() > 0,
        !text::is_white(name[0]),
        !text::is_white(name.last()),
        c == '.' || c == ':' || c == '-',
    ensures
        unnumbered("Chapter "@ + text::decimal(n as nat) + seq![c, ' '] + name) == name,
        unnumbered("Chapter "@ + text::decimal(n as nat)) == "Chapter "@ + text::decimal(n as nat),
{
    reveal_strlit("Chapter ");
    reveal_strlit("chapter ");
    let d = text::decimal(n as nat);
    text::lemma_decimal(n as nat);
    assert(text::is_digit(d[0]) && text::is_digit(d.last()));
    let tail = seq![c, ' '] + name;
    let t = "Chapter "@ + d + seq![c, ' '] + name;
    assert(t =~= "Chapter "@ + (d + tail));
    lemma_chapter_word(d + tail);
    lemma_chapter_word(d);
    let u = d + tail;
    assert forall|j: int| 0 <= j < d.len() implies text::digits()(#[trigger] u[j]) by {
        assert(u[j] == d[j] && text::is_digit(d[j]));
    }
    assert(u[d.len() as int] == c);
    text::lemma_span_is(u, text::digits(), d.len() as int);
    let rest = u.skip(d.len() as int);
    assert(rest =~= tail);
    let w = rest.drop_first();
    assert(w =~= seq![' '] + name);
    assert(w[1] == name[0]);
    text::lemma_span_is(w, text::white(), 1);
    assert(text::trimmed_start(w) =~= name);
    assert(t.len() != u.len());
    assert forall|j: int| 0 <= j < d.len() implies text::digits()(#[trigger] d[j]) by {
        assert(text::is_digit(d[j]));
    }
    text::lemma_span_is(d, text::digits(), d.len() as int);
    assert(d.skip(d.len() as int).len() == 0);
}

proof fn lemma_chapter_word(u: Seq<char>)
    requires
        u.len() > 0,
        !text::is_white(u[0]),
        !text::is_white(u.last()),
    ensures
        text::trimmed("Chapter "@ + u) == "Chapter "@ + u,
        without_chapter_word("Chapter "@ + u) == u,
{
    reveal_strlit("Chapter ");
    reveal_strlit("chapter ");
    let t = "Chapter "@ + u;
    assert(t.last() == u.last());
    text::law_trimming_settles(t);
    let w = t.take(8);
    assert(w =~= "Chapter "@);
    assert(text::lower(w) =~= text::lower("chapter "@));
    assert(t.skip(8) =~= u);
    text::lemma_span_is(u, text::white(), 0);
    assert(u.skip(0) =~= u);
}

/// A walk never asks for more than a thousand pages.
pub proof fn law_a_walk_stays_under_its_cap(w: SeriesWalkView, links: Seq<(Seq<char>, Seq<char>)>)
    requires
        w.page <= 1000,
    ensures
        w.after_links(links).page <= 1000,
        w.page == 1000 ==> w.after_links(links).done,
{
}

/// Links and requests are seen as they are.
pub proof fn law_links_and_requests_are_seen_whole(v: Seq<Link>, i: int, url: String, body: String)
    requires
        0 <= i < v.len(),
    ensures
        link_views(v).len() == v.len(),
        link_views(v)[i] == (v[i].0@, v[i].1@),
        request_view(Some(Request::Get { url })) == Some(RequestView::Get { url: url@ }),
        request_view(Some(Request::Post { url, body })) == Some(
            RequestView::Post { url: url@, body: body@ },
        ),
        request_view(None) is None,
{
}

} // verus!
