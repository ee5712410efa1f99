//! How the library understands a given site.
//!
//! Most novel sites are structurally identical (server-rendered HTML,
//! CSS-selectable content, `?page=N` pagination), so they are expressed as a
//! declarative [`SiteProfile`] driving a single [`GenericSource`]. Genuinely
//! weird sites have a hand-written adapter instead.

use vstd::prelude::*;
use vstd::slice::slice_subrange;

use crate::model::{Chapter, ChapterRef, ChapterView, MetaView, NovelMeta, NovelStatus, RefView};
use crate::numbers;
use crate::table::{Key, Table};
use crate::text;
use crate::util;
use crate::web::Found;
use crate::web;

verus! {

/// A declarative description of a site that fits the generic adapter.
#[derive(Debug)]
pub struct SiteProfile {
    pub name: String,
    /// Host this profile handles, e.g. `"novgo.net"`.
    pub host: String,
    /// CSS selector for the element containing a chapter's prose.
    pub content_selector: String,
    /// CSS selector for paragraph elements within the content container.
    pub paragraph_selector: String,
    /// What stands before the number in the last part of a chapter's address, e.g.
    /// `"chapter-"`.
    pub chapter_marker: String,
    /// The query parameter that numbers the pages of a table of contents.
    pub page_param: String,
    /// Safety cap on how many table-of-contents pages to walk.
    pub max_pages: u32,
    /// CSS selectors for the novel's title, author, cover image and status on its page.
    /// Where one is empty or finds nothing, the page's Open Graph tags are read.
    pub title_selector: String,
    pub author_selector: String,
    pub cover_selector: String,
    pub status_selector: String,
}

/// A [`SiteProfile`] as plain values.
#[verifier::ext_equal]
pub struct ProfileView {
    pub name: Seq<char>,
    pub host: Seq<char>,
    pub content_selector: Seq<char>,
    pub paragraph_selector: Seq<char>,
    pub chapter_marker: Seq<char>,
    pub page_param: Seq<char>,
    pub max_pages: u32,
    pub title_selector: Seq<char>,
    pub author_selector: Seq<char>,
    pub cover_selector: Seq<char>,
    pub status_selector: Seq<char>,
}

impl View for SiteProfile {
    type V = ProfileView;

    open spec fn view(&self) -> ProfileView {
        ProfileView {
            name: self.name@,
            host: self.host@,
            content_selector: self.content_selector@,
            paragraph_selector: self.paragraph_selector@,
            chapter_marker: self.chapter_marker@,
            page_param: self.page_param@,
            max_pages: self.max_pages,
            title_selector: self.title_selector@,
            author_selector: self.author_selector@,
            cover_selector: self.cover_selector@,
            status_selector: self.status_selector@,
        }
    }
}

impl Clone for SiteProfile {
    fn clone(&self) -> (r: Self)
        ensures
            r@ == self@,
    {
        SiteProfile {
            name: self.name.clone(),
            host: self.host.clone(),
            content_selector: self.content_selector.clone(),
            paragraph_selector: self.paragraph_selector.clone(),
            chapter_marker: self.chapter_marker.clone(),
            page_param: self.page_param.clone(),
            max_pages: self.max_pages,
            title_selector: self.title_selector.clone(),
            author_selector: self.author_selector.clone(),
            cover_selector: self.cover_selector.clone(),
            status_selector: self.status_selector.clone(),
        }
    }
}

/// The generic, profile-driven source adapter, over whatever fetches its pages.
pub struct GenericSource<F> {
    pub profile: SiteProfile,
    pub fetcher: F,
}

/// Whether a URL has this host, in any ASCII case.
pub open spec fn has_host(url: Seq<char>, host: Seq<char>) -> bool {
    match web::host_of(url) {
        Ok(Some(h)) => text::eq_ci(h, host),
        _ => false,
    }
}

/// [`has_host`] on a host that was read off a URL.
pub fn is_host(found: &Result<Option<String>, String>, host: &str) -> (r: bool)
    ensures
        r == (match web::host_view(*found) {
            Ok(Some(h)) => text::eq_ci(h, host@),
            _ => false,
        }),
{
    match found {
        Ok(Some(h)) => {
            let a = text::to_chars(h.as_str());
            let b = text::to_chars(host);
            text::same_ci(&a, &b)
        },
        _ => false,
    }
}

/// A host without its leading "www."s.
pub open spec fn without_www(host: Seq<char>) -> Seq<char>
    decreases host.len(),
{
    if host.len() >= 4 && host.take(4) == "www."@ {
        without_www(host.skip(4))
    } else {
        host
    }
}

/// Whether a URL has this host, a leading "www." aside.
pub open spec fn has_host_www(url: Seq<char>, host: Seq<char>) -> bool {
    match web::host_of(url) {
        Ok(Some(h)) => text::eq_ci(without_www(h), host),
        _ => false,
    }
}

pub fn strip_www(host: &[char]) -> (r: &[char])
    ensures
        r@ == without_www(host@),
    decreases host.len(),
{
    let www = text::to_chars("www.");
    proof {
        reveal_strlit("www.");
    }
    if text::occurs(host, &www, 0) {
        assert(host@.subrange(0, 4) =~= host@.take(4));
        let rest = slice_subrange(host, 4, host.len());
        assert(rest@ =~= host@.skip(4));
        strip_www(rest)
    } else {
        assert(host@.len() >= 4 ==> host@.subrange(0, 4) =~= host@.take(4));
        host
    }
}

/// [`has_host_www`] on a host that was read off a URL.
pub fn is_host_www(found: &Result<Option<String>, String>, host: &str) -> (r: bool)
    ensures
        r == (match web::host_view(*found) {
            Ok(Some(h)) => text::eq_ci(without_www(h), host@),
            _ => false,
        }),
{
    match found {
        Ok(Some(h)) => {
            let a = text::to_chars(h.as_str());
            let b = text::to_chars(host);
            text::same_ci(strip_www(&a), &b)
        },
        _ => false,
    }
}

impl<F> GenericSource<F> {
    pub fn new(profile: SiteProfile, fetcher: F) -> (r: Self)
        ensures
            r.profile == profile,
            r.fetcher == fetcher,
    {
        Self { profile, fetcher }
    }

    pub fn name(&self) -> (r: &str)
        ensures
            r@ == self.profile.name@,
    {
        self.profile.name.as_str()
    }

    /// Whether this source handles the given URL (matched by host).
    pub fn matches(&self, url: &str) -> (r: bool)
        ensures
            r == has_host(url@, self.profile.host@),
    {
        is_host(&web::url_host(url), self.profile.host.as_str())
    }
}

// ---------------------------------------------------------------------------
// What a page says
// ---------------------------------------------------------------------------

/// What a site's status word or code stands for. Only ever a hint: anything
/// unknown stays so rather than being guessed at.
pub open spec fn status_of(raw: Seq<char>) -> NovelStatus {
    let s = text::trimmed(raw);
    if s == "1"@ || text::eq_ci(s, "ongoing"@) || text::eq_ci(s, "releasing"@) {
        NovelStatus::Ongoing
    } else if s == "2"@ || text::eq_ci(s, "completed"@) {
        NovelStatus::Completed
    } else {
        NovelStatus::Unknown
    }
}

pub fn parse_status_hint(raw: &str) -> (r: NovelStatus)
    ensures
        r == status_of(raw@),
{
    let v = text::to_chars(raw);
    let s = text::trim(&v);
    let one = text::to_chars("1");
    let two = text::to_chars("2");
    let ongoing = text::to_chars("ongoing");
    let releasing = text::to_chars("releasing");
    let completed = text::to_chars("completed");
    if text::same_chars(s, &one) || text::same_ci(s, &ongoing) || text::same_ci(s, &releasing) {
        NovelStatus::Ongoing
    } else if text::same_chars(s, &two) || text::same_ci(s, &completed) {
        NovelStatus::Completed
    } else {
        NovelStatus::Unknown
    }
}

pub type Selection = Option<Seq<(Option<Seq<char>>, Seq<char>)>>;

/// The attribute of the first element of a selection.
pub open spec fn first_attr(s: Selection) -> Option<Seq<char>> {
    match s {
        Some(v) => if v.len() > 0 {
            v[0].0
        } else {
            None
        },
        None => None,
    }
}

/// The text of the first element of a selection.
pub open spec fn first_text(s: Selection) -> Option<Seq<char>> {
    match s {
        Some(v) => if v.len() > 0 {
            Some(v[0].1)
        } else {
            None
        },
        None => None,
    }
}

/// An optional text, trimmed.
pub open spec fn trimmed_opt(o: Option<Seq<char>>) -> Option<Seq<char>> {
    match o {
        Some(s) => Some(text::trimmed(s)),
        None => None,
    }
}

/// An optional text, unless it is empty.
pub open spec fn nonempty(o: Option<Seq<char>>) -> Option<Seq<char>> {
    match o {
        Some(s) => if s.len() > 0 {
            Some(s)
        } else {
            None
        },
        None => None,
    }
}

pub fn keep_nonempty(o: Option<String>) -> (r: Option<String>)
    ensures
        text::opt(r) == nonempty(text::opt(o)),
{
    match o {
        Some(s) => if s.as_str().unicode_len() > 0 {
            Some(s)
        } else {
            None
        },
        None => None,
    }
}

pub fn trim_opt(o: Option<String>) -> (r: Option<String>)
    ensures
        text::opt(r) == trimmed_opt(text::opt(o)),
{
    match o {
        Some(s) => Some(text::trim_text(s.as_str())),
        None => None,
    }
}

/// The attribute of the first element that matches a selector.
pub fn select_attr(html: &str, selector: &str, attribute: &str) -> (r: Option<String>)
    ensures
        text::opt(r) == first_attr(web::selected(html@, selector@, attribute@)),
{
    match web::select(html, selector, attribute) {
        Some(v) => if v.len() > 0 {
            assert(web::found_views(v@)[0] == (text::opt(v@[0].0), v@[0].1@));
            text::copy_opt(&v[0].0)
        } else {
            None
        },
        None => None,
    }
}

/// The text of the first element that matches a selector.
pub fn select_text(html: &str, selector: &str) -> (r: Option<String>)
    ensures
        text::opt(r) == first_text(web::selected(html@, selector@, ""@)),
{
    match web::select(html, selector, "") {
        Some(v) => if v.len() > 0 {
            assert(web::found_views(v@)[0] == (text::opt(v@[0].0), v@[0].1@));
            Some(v[0].1.clone())
        } else {
            None
        },
        None => None,
    }
}

/// The selector of a `<meta>` tag by its `property`.
pub open spec fn property_selector(property: Seq<char>) -> Seq<char> {
    "meta[property=\""@ + property + "\"]"@
}

/// The content of a `<meta>` tag.
pub open spec fn property_of(html: Seq<char>, property: Seq<char>) -> Option<Seq<char>> {
    first_attr(web::selected(html, property_selector(property), "content"@))
}

pub fn meta_content(html: &str, property: &str) -> (r: Option<String>)
    ensures
        text::opt(r) == property_of(html@, property@),
{
    let mut v = text::to_chars("meta[property=\"");
    text::push_str(&mut v, property);
    text::push_str(&mut v, "\"]");
    let selector = text::to_text(&v);
    select_attr(html, selector.as_str(), "content")
}

/// The text of the first match, trimmed, unless it is blank.
pub open spec fn text_at(html: Seq<char>, selector: Seq<char>) -> Option<Seq<char>> {
    nonempty(trimmed_opt(first_text(web::selected(html, selector, ""@))))
}

pub fn text_of(html: &str, selector: &str) -> (r: Option<String>)
    ensures
        text::opt(r) == text_at(html@, selector@),
{
    keep_nonempty(trim_opt(select_text(html, selector)))
}

pub open spec fn or_else(a: Option<Seq<char>>, b: Option<Seq<char>>) -> Option<Seq<char>> {
    match a {
        Some(s) => Some(s),
        None => b,
    }
}

pub fn first_of(a: Option<String>, b: Option<String>) -> (r: Option<String>)
    ensures
        text::opt(r) == or_else(text::opt(a), text::opt(b)),
{
    match a {
        Some(s) => Some(s),
        None => b,
    }
}

pub open spec fn meta_view(r: Result<NovelMeta, String>) -> Result<MetaView, Seq<char>> {
    match r {
        Ok(m) => Ok(m@),
        Err(e) => Err(e@),
    }
}

pub open spec fn no_title(source_url: Seq<char>) -> Seq<char> {
    "could not find a novel title on "@ + source_url
}

/// What a page's Open Graph tags say of a novel: the first title that is there
/// decides, and an empty one is none.
pub open spec fn novel_meta(
    title: Option<Seq<char>>,
    author: Option<Seq<char>>,
    image: Option<Seq<char>>,
    genre: Option<Seq<char>>,
    status: NovelStatus,
    source_url: Seq<char>,
) -> Result<MetaView, Seq<char>> {
    match nonempty(title) {
        None => Err(no_title(source_url)),
        Some(title) => Ok(
            MetaView {
                title,
                author: nonempty(author),
                cover_url: nonempty(image),
                genre,
                status_hint: status,
                source_url,
            },
        ),
    }
}

/// A novel's metadata out of what was read off its page.
pub fn meta_from(
    title: Option<String>,
    author: Option<String>,
    image: Option<String>,
    genre: Option<String>,
    status: NovelStatus,
    source_url: &str,
) -> (r: Result<NovelMeta, String>)
    ensures
        meta_view(r) == novel_meta(
            text::opt(title),
            text::opt(author),
            text::opt(image),
            text::opt(genre),
            status,
            source_url@,
        ),
{
    match keep_nonempty(title) {
        None => Err(text::concat("could not find a novel title on ", source_url)),
        Some(title) => Ok(
            NovelMeta {
                title,
                author: keep_nonempty(author),
                cover_url: keep_nonempty(image),
                genre,
                status_hint: status,
                source_url: source_url.to_string(),
            },
        ),
    }
}

pub open spec fn status_or_unknown(o: Option<Seq<char>>) -> NovelStatus {
    match o {
        Some(s) => status_of(s),
        None => NovelStatus::Unknown,
    }
}

pub fn status_from(o: &Option<String>) -> (r: NovelStatus)
    ensures
        r == status_or_unknown(text::opt(*o)),
{
    match o {
        Some(s) => parse_status_hint(s.as_str()),
        None => NovelStatus::Unknown,
    }
}

/// The title a page gives its novel: the novel's own tag, the page's, or the
/// document title.
pub open spec fn page_title(html: Seq<char>) -> Option<Seq<char>> {
    or_else(
        property_of(html, "og:novel:novel_name"@),
        or_else(
            property_of(html, "og:title"@),
            trimmed_opt(first_text(web::selected(html, "title"@, ""@))),
        ),
    )
}

fn read_title(html: &str) -> (r: Option<String>)
    ensures
        text::opt(r) == page_title(html@),
{
    first_of(
        meta_content(html, "og:novel:novel_name"),
        first_of(meta_content(html, "og:title"), trim_opt(select_text(html, "title"))),
    )
}

/// Parse novel metadata from Open Graph tags, with sensible fallbacks.
pub fn parse_novel_meta(html: &str, source_url: &str) -> (r: Result<NovelMeta, String>)
    ensures
        meta_view(r) == novel_meta(
            page_title(html@),
            property_of(html@, "og:novel:author"@),
            property_of(html@, "og:image"@),
            None,
            status_or_unknown(property_of(html@, "og:novel:status"@)),
            source_url@,
        ),
{
    let title = read_title(html);
    let author = meta_content(html, "og:novel:author");
    let image = meta_content(html, "og:image");
    let status = status_from(&meta_content(html, "og:novel:status"));
    meta_from(title, author, image, None, status, source_url)
}

/// What a selector finds on a page, or else what the page's tag says. An empty selector
/// finds nothing.
pub open spec fn told(html: Seq<char>, selector: Seq<char>, tag: Option<Seq<char>>) -> Option<
    Seq<char>,
> {
    if selector.len() > 0 {
        or_else(text_at(html, selector), tag)
    } else {
        tag
    }
}

/// The address of the image that a selector finds on a page, or else what the page's tag
/// says.
pub open spec fn pictured(
    html: Seq<char>,
    selector: Seq<char>,
    page: Seq<char>,
    tag: Option<Seq<char>>,
) -> Option<Seq<char>> {
    if selector.len() > 0 {
        image_or(nonempty(first_attr(web::selected(html, selector, "src"@))), page, tag)
    } else {
        tag
    }
}

/// The image's address on the page, if it has one.
pub open spec fn image_or(
    image: Option<Seq<char>>,
    page: Seq<char>,
    tag: Option<Seq<char>>,
) -> Option<Seq<char>> {
    match image {
        Some(src) => match web::joined_url(page, src) {
            Some(Some(url)) => Some(url),
            _ => tag,
        },
        None => tag,
    }
}

fn tell(html: &str, selector: &str, tag: Option<String>) -> (r: Option<String>)
    ensures
        text::opt(r) == told(html@, selector@, text::opt(tag)),
{
    let s = text::to_chars(selector);
    if s.len() > 0 {
        first_of(text_of(html, selector), tag)
    } else {
        tag
    }
}

fn picture(html: &str, selector: &str, page: &str, tag: Option<String>) -> (r: Option<String>)
    ensures
        text::opt(r) == pictured(html@, selector@, page@, text::opt(tag)),
{
    let s = text::to_chars(selector);
    if s.len() == 0 {
        return tag;
    }
    match keep_nonempty(select_attr(html, selector, "src")) {
        Some(src) => match web::join_url(page, src.as_str()) {
            Some(Some(url)) => Some(url),
            _ => tag,
        },
        None => tag,
    }
}

impl<F> GenericSource<F> {
    /// Read a novel's metadata off its page, by the profile's selectors and the page's
    /// Open Graph tags.
    pub fn read_novel(&self, html: &str, url: &str) -> (r: Result<NovelMeta, String>)
        ensures
            meta_view(r) == novel_meta(
                told(html@, self.profile.title_selector@, page_title(html@)),
                told(
                    html@,
                    self.profile.author_selector@,
                    property_of(html@, "og:novel:author"@),
                ),
                pictured(
                    html@,
                    self.profile.cover_selector@,
                    url@,
                    property_of(html@, "og:image"@),
                ),
                None,
                status_or_unknown(
                    told(
                        html@,
                        self.profile.status_selector@,
                        property_of(html@, "og:novel:status"@),
                    ),
                ),
                url@,
            ),
    {
        let title = tell(html, self.profile.title_selector.as_str(), read_title(html));
        let author = tell(
            html,
            self.profile.author_selector.as_str(),
            meta_content(html, "og:novel:author"),
        );
        let image = picture(
            html,
            self.profile.cover_selector.as_str(),
            url,
            meta_content(html, "og:image"),
        );
        let status = tell(
            html,
            self.profile.status_selector.as_str(),
            meta_content(html, "og:novel:status"),
        );
        meta_from(title, author, image, None, status_from(&status), url)
    }
}

// ---------------------------------------------------------------------------
// Chapter links
// ---------------------------------------------------------------------------

pub open spec fn ref_views(v: Seq<ChapterRef>) -> Seq<RefView> {
    v.map_values(|c: ChapterRef| c@)
}

/// The chapter a link leads to, if it leads to one: its address says `/` and the marker,
/// and a number follows the marker.
pub open spec fn linked_chapter(
    link: (Option<Seq<char>>, Seq<char>),
    base: Seq<char>,
    marker: Seq<char>,
) -> Option<RefView> {
    match link.0 {
        None => None,
        Some(href) => if text::find_from(href, "/"@ + marker, 0) is None {
            None
        } else {
            match web::joined_url(base, href) {
                Some(Some(url)) => match util::number_after(url, marker) {
                    Some(n) => Some(
                        RefView { number: n as u32, title: util::cleaned_title(link.1), url },
                    ),
                    None => None,
                },
                _ => None,
            }
        },
    }
}

pub open spec fn linked_chapters(
    links: Seq<(Option<Seq<char>>, Seq<char>)>,
    base: Seq<char>,
    marker: Seq<char>,
) -> Seq<RefView>
    decreases links.len(),
{
    if links.len() == 0 {
        seq![]
    } else {
        match linked_chapter(links.last(), base, marker) {
            Some(c) => linked_chapters(links.drop_last(), base, marker).push(c),
            None => linked_chapters(links.drop_last(), base, marker),
        }
    }
}

fn chapter_from_link(link: &Found, base: &str, marker: &str) -> (r: Option<ChapterRef>)
    ensures
        (match r {
            Some(c) => Some(c@),
            None => None,
        }) == linked_chapter((text::opt(link.0), link.1@), base@, marker@),
{
    let href = match &link.0 {
        Some(h) => h,
        None => return None,
    };
    let h = text::to_chars(href.as_str());
    let mut needle = text::to_chars("/");
    text::push_str(&mut needle, marker);
    if text::find(&h, &needle, 0).is_none() {
        return None;
    }
    match web::join_url(base, href.as_str()) {
        Some(Some(url)) => match util::parse_number_after(url.as_str(), marker) {
            Some(number) => Some(
                ChapterRef { number, title: util::clean_chapter_title(link.1.as_str()), url },
            ),
            None => None,
        },
        _ => None,
    }
}

/// The chapters a page's links lead to, in the page's order.
pub fn chapters_from_links(links: &Vec<Found>, base: &str, marker: &str) -> (r: Vec<ChapterRef>)
    ensures
        ref_views(r@) == linked_chapters(web::found_views(links@), base@, marker@),
{
    let ghost all = web::found_views(links@);
    let mut out: Vec<ChapterRef> = Vec::new();
    let mut i: usize = 0;
    while i < links.len()
        invariant
            i <= links@.len(),
            all == web::found_views(links@),
            ref_views(out@) == linked_chapters(all.take(i as int), base@, marker@),
        decreases links@.len() - i,
    {
        proof {
            let t = all.take(i + 1);
            assert(t.drop_last() =~= all.take(i as int));
            assert(t.last() == (text::opt(links@[i as int].0), links@[i as int].1@));
        }
        if let Some(c) = chapter_from_link(&links[i], base, marker) {
            let ghost before = out@;
            out.push(c);
            assert(ref_views(out@) =~= ref_views(before).push(c@));
        }
        i += 1;
    }
    assert(all.take(all.len() as int) =~= all);
    out
}

pub open spec fn refs_view(r: Result<Vec<ChapterRef>, String>) -> Result<
    Seq<RefView>,
    Seq<char>,
> {
    match r {
        Ok(v) => Ok(ref_views(v@)),
        Err(e) => Err(e@),
    }
}

/// The chapters a table-of-contents page links to.
pub open spec fn links_on(html: Seq<char>, base: Seq<char>, marker: Seq<char>) -> Result<
    Seq<RefView>,
    Seq<char>,
> {
    if web::host_of(base) is Err {
        Err("parsing base URL "@ + base)
    } else {
        match web::selected(html, "a[href]"@, "href"@) {
            Some(links) => Ok(linked_chapters(links, base, marker)),
            None => Err("invalid selector "@ + text::quoted("a[href]"@)),
        }
    }
}

/// Collect chapter links from a table-of-contents page, resolved to absolute
/// URLs. Deduplication and ordering are the caller's job.
pub fn parse_chapter_links(html: &str, base_url: &str) -> (r: Result<Vec<ChapterRef>, String>)
    ensures
        refs_view(r) == links_on(html@, base_url@, "chapter-"@),
{
    parse_marked_links(html, base_url, "chapter-")
}

/// [`parse_chapter_links`] on a site whose chapter addresses carry another marker.
pub fn parse_marked_links(html: &str, base_url: &str, marker: &str) -> (r: Result<
    Vec<ChapterRef>,
    String,
>)
    ensures
        refs_view(r) == links_on(html@, base_url@, marker@),
{
    if web::url_host(base_url).is_err() {
        return Err(text::concat("parsing base URL ", base_url));
    }
    match web::select(html, "a[href]", "href") {
        Some(links) => Ok(chapters_from_links(&links, base_url, marker)),
        None => {
            let q = text::quote("a[href]");
            Err(text::concat("invalid selector ", q.as_str()))
        },
    }
}

// ---------------------------------------------------------------------------
// Chapter bodies
// ---------------------------------------------------------------------------

/// The texts, trimmed, without the blank ones.
pub open spec fn prose(found: Seq<(Option<Seq<char>>, Seq<char>)>) -> Seq<Seq<char>>
    decreases found.len(),
{
    if found.len() == 0 {
        seq![]
    } else {
        let t = text::trimmed(found.last().1);
        if t.len() > 0 {
            prose(found.drop_last()).push(t)
        } else {
            prose(found.drop_last())
        }
    }
}

/// The paragraphs among the elements of a content container.
pub fn paragraphs_from(found: &Vec<Found>) -> (r: Vec<String>)
    ensures
        text::texts(r@) == prose(web::found_views(found@)),
{
    let ghost all = web::found_views(found@);
    let mut out: Vec<String> = Vec::new();
    let mut i: usize = 0;
    while i < found.len()
        invariant
            i <= found@.len(),
            all == web::found_views(found@),
            text::texts(out@) == prose(all.take(i as int)),
        decreases found@.len() - i,
    {
        proof {
            let t = all.take(i + 1);
            assert(t.drop_last() =~= all.take(i as int));
            assert(t.last().1 == found@[i as int].1@);
        }
        let v = text::to_chars(found[i].1.as_str());
        let t = text::trim(&v);
        if t.len() > 0 {
            let ghost before = out@;
            let s = text::to_text(t);
            out.push(s);
            assert(text::texts(out@) =~= text::texts(before).push(s@));
        }
        i += 1;
    }
    assert(all.take(all.len() as int) =~= all);
    out
}

pub open spec fn texts_view(r: Result<Vec<String>, String>) -> Result<
    Seq<Seq<char>>,
    Seq<char>,
> {
    match r {
        Ok(v) => Ok(text::texts(v@)),
        Err(e) => Err(e@),
    }
}

/// A chapter's paragraphs out of what its page holds inside the container.
pub open spec fn body_paragraphs(
    found: Option<Option<Seq<(Option<Seq<char>>, Seq<char>)>>>,
    content: Seq<char>,
    paragraph: Seq<char>,
) -> Result<Seq<Seq<char>>, Seq<char>> {
    match found {
        None => Err("invalid selector "@ + text::quoted(content)),
        Some(None) => Err("no content container matching "@ + content),
        Some(Some(v)) => if prose(v).len() == 0 {
            Err(
                "content container had no non-empty paragraphs (selector "@ + paragraph + ")"@,
            )
        } else {
            Ok(prose(v))
        },
    }
}

/// Extract a chapter's prose paragraphs from its page.
pub fn parse_chapter_body(html: &str, content: &str, paragraph: &str) -> (r: Result<
    Vec<String>,
    String,
>)
    ensures
        texts_view(r) == body_paragraphs(
            web::selected_within(html@, content@, paragraph@, ""@),
            content@,
            paragraph@,
        ),
{
    match web::select_within(html, content, paragraph, "") {
        None => {
            let q = text::quote(content);
            Err(text::concat("invalid selector ", q.as_str()))
        },
        Some(None) => Err(text::concat("no content container matching ", content)),
        Some(Some(v)) => {
            let out = paragraphs_from(&v);
            assert(text::texts(out@).len() == out@.len());
            if out.len() == 0 {
                let a = text::concat(
                    "content container had no non-empty paragraphs (selector ",
                    paragraph,
                );
                return Err(text::concat(a.as_str(), ")"));
            }
            Ok(out)
        },
    }
}

// ---------------------------------------------------------------------------
// Sites whose chapter URLs are sequential
// ---------------------------------------------------------------------------

/// A novel's address without query, fragment and final slashes, so that chapter
/// paths can be appended. What is no URL only loses its final slashes.
pub open spec fn base_of(stripped: Option<Seq<char>>, url: Seq<char>) -> Seq<char> {
    match stripped {
        Some(u) => text::without_trailing(u, '/'),
        None => text::without_trailing(url, '/'),
    }
}

/// [`novel_base`] once the query is off.
pub fn base_from(stripped: &Option<String>, url: &str) -> (r: String)
    ensures
        r@ == base_of(text::opt(*stripped), url@),
{
    let v = match stripped {
        Some(u) => text::to_chars(u.as_str()),
        None => text::to_chars(url),
    };
    text::to_text(text::trim_end_char(&v, '/'))
}

/// Strip any query/fragment from the novel URL so that a chapter's path can be
/// appended.
pub fn novel_base(url: &str) -> (r: String)
    ensures
        r@ == base_of(web::without_query(url@), url@),
{
    base_from(&web::strip_query(url), url)
}

/// "Chapter N".
pub open spec fn chapter_label(n: nat) -> Seq<char> {
    "Chapter "@ + text::decimal(n)
}

/// Chapters 1 to `total`, with their numbers between `before` and `after` in
/// their addresses.
pub open spec fn sequential(total: nat, before: Seq<char>, after: Seq<char>) -> Seq<RefView> {
    Seq::new(
        total,
        |i: int|
            RefView {
                number: (i + 1) as u32,
                title: chapter_label((i + 1) as nat),
                url: before + text::decimal((i + 1) as nat) + after,
            },
    )
}

pub fn label_chapter(n: u32) -> (r: String)
    ensures
        r@ == chapter_label(n as nat),
{
    let mut v = text::to_chars("Chapter ");
    let d = text::decimal_chars(n as u64);
    text::push_all(&mut v, &d);
    text::to_text(&v)
}

pub fn list_sequential(total: u32, before: &str, after: &str) -> (r: Vec<ChapterRef>)
    ensures
        ref_views(r@) == sequential(total as nat, before@, after@),
{
    let mut out: Vec<ChapterRef> = Vec::new();
    let mut n: u32 = 0;
    while n < total
        invariant
            n <= total,
            ref_views(out@) == sequential(n as nat, before@, after@),
        decreases total - n,
    {
        n += 1;
        let mut v = text::to_chars(before);
        let d = text::decimal_chars(n as u64);
        text::push_all(&mut v, &d);
        text::push_str(&mut v, after);
        let ghost prev = out@;
        let c = ChapterRef { number: n, title: label_chapter(n), url: text::to_text(&v) };
        out.push(c);
        proof {
            assert(ref_views(out@) =~= ref_views(prev).push(c@));
            assert(ref_views(out@) =~= sequential(n as nat, before@, after@));
        }
    }
    out
}

pub open spec fn chapter_result(r: Result<Chapter, String>) -> Result<ChapterView, Seq<char>> {
    match r {
        Ok(c) => Ok(c@),
        Err(e) => Err(e@),
    }
}

/// A chapter made of its paragraphs and its title, if there are any paragraphs.
pub open spec fn chapter_of(
    number: u32,
    title: Seq<char>,
    body: Result<Seq<Seq<char>>, Seq<char>>,
) -> Result<ChapterView, Seq<char>> {
    match body {
        Ok(paragraphs) => Ok(ChapterView { number, title, paragraphs }),
        Err(e) => Err(e),
    }
}

impl<F> GenericSource<F> {
    /// A chapter out of its page.
    pub fn read_chapter(&self, html: &str, chapter: &ChapterRef) -> (r: Result<Chapter, String>)
        ensures
            chapter_result(r) == chapter_of(
                chapter.number,
                chapter.title@,
                body_paragraphs(
                    web::selected_within(
                        html@,
                        self.profile.content_selector@,
                        self.profile.paragraph_selector@,
                        ""@,
                    ),
                    self.profile.content_selector@,
                    self.profile.paragraph_selector@,
                ),
            ),
    {
        match parse_chapter_body(
            html,
            self.profile.content_selector.as_str(),
            self.profile.paragraph_selector.as_str(),
        ) {
            Ok(paragraphs) => Ok(
                Chapter { number: chapter.number, title: chapter.title.clone(), paragraphs },
            ),
            Err(e) => Err(e),
        }
    }

    /// Start enumerating a novel's chapters.
    pub fn discover_chapters(&self, url: &str, needed: Option<usize>) -> (r: TocWalk)
        ensures
            r.wf(),
            r@ == WalkView::start(url@, needed, self.profile@),
    {
        TocWalk::new(url, needed, &self.profile)
    }

    /// The chapters the landing page lists: the newest ones and the first block.
    pub fn read_latest(&self, html: &str, url: &str) -> (r: Result<Vec<ChapterRef>, String>)
        ensures
            refs_view(r) == links_on(html@, url@, self.profile.chapter_marker@),
    {
        parse_marked_links(html, url, self.profile.chapter_marker.as_str())
    }
}

// ---------------------------------------------------------------------------
// Walking a paginated table of contents
// ---------------------------------------------------------------------------

/// Chapters by number, each number once.
pub open spec fn by_number(m: Map<Key, ChapterRef>) -> Map<u32, RefView> {
    Map::new(|n: u32| m.contains_key((0i64, n)), |n: u32| m[(0i64, n)]@)
}

/// A walk over a table of contents as plain values.
pub struct WalkView {
    pub url: Seq<char>,
    pub needed: Option<usize>,
    pub marker: Seq<char>,
    pub page_param: Seq<char>,
    pub max_pages: u32,
    pub found: Map<u32, RefView>,
    pub page: u32,
    pub done: bool,
}

/// With the links whose numbers were not known yet; of links with the same
/// number the first counts.
pub open spec fn with_links(m: Map<u32, RefView>, links: Seq<RefView>) -> Map<u32, RefView>
    decreases links.len(),
{
    if links.len() == 0 {
        m
    } else {
        let before = with_links(m, links.drop_last());
        if before.contains_key(links.last().number) {
            before
        } else {
            before.insert(links.last().number, links.last())
        }
    }
}

impl WalkView {
    pub open spec fn start(
        url: Seq<char>,
        needed: Option<usize>,
        profile: ProfileView,
    ) -> WalkView {
        WalkView {
            url,
            needed,
            marker: profile.chapter_marker,
            page_param: profile.page_param,
            max_pages: profile.max_pages,
            found: Map::empty(),
            page: 1,
            done: false,
        }
    }

    /// The address of the next page to read.
    pub open spec fn next(self) -> Option<Seq<char>> {
        if self.done {
            None
        } else if self.page == 1 {
            Some(self.url)
        } else {
            Some(
                self.url + "?"@ + self.page_param + "="@ + text::decimal(self.page as nat),
            )
        }
    }

    /// The walk once a page's links are taken in. It ends on a page without
    /// links, once enough chapters are known, on a page that adds nothing, and
    /// at the cap.
    pub open spec fn after(self, links: Seq<RefView>) -> WalkView {
        let found = with_links(self.found, links);
        let enough = self.needed matches Some(n) && found.dom().len() >= n;
        let stale = found.dom().len() == self.found.dom().len();
        if links.len() == 0 {
            WalkView { done: true, ..self }
        } else if enough || stale || self.page >= self.max_pages {
            WalkView { found, done: true, ..self }
        } else {
            WalkView { found, page: (self.page + 1) as u32, ..self }
        }
    }
}

/// A walk over a site's paginated table of contents: asks for pages, takes them
/// in, and ends with the chapters found.
pub struct TocWalk {
    url: String,
    needed: Option<usize>,
    marker: String,
    page_param: String,
    max_pages: u32,
    found: Table<ChapterRef>,
    page: u32,
    done: bool,
}

impl View for TocWalk {
    type V = WalkView;

    closed spec fn view(&self) -> WalkView {
        WalkView {
            url: self.url@,
            needed: self.needed,
            marker: self.marker@,
            page_param: self.page_param@,
            max_pages: self.max_pages,
            found: by_number(self.found@),
            page: self.page,
            done: self.done,
        }
    }
}

/// Whether every key is a chapter number.
pub open spec fn keyed_by_number(m: Map<Key, ChapterRef>) -> bool {
    forall|k: Key| #[trigger] m.contains_key(k) ==> k.0 == 0
}

impl TocWalk {
    pub closed spec fn wf(&self) -> bool {
        self.found.wf() && keyed_by_number(self.found@) && forall|n: u32| #[trigger]
            self@.found.contains_key(n) ==> self@.found[n].number == n
    }

    /// Start a walk. `needed` lets it stop once that many chapters are known,
    /// instead of walking every page.
    pub fn new(url: &str, needed: Option<usize>, profile: &SiteProfile) -> (r: TocWalk)
        ensures
            r.wf(),
            r@ == WalkView::start(url@, needed, profile@),
    {
        let r = TocWalk {
            url: url.to_string(),
            needed,
            marker: profile.chapter_marker.clone(),
            page_param: profile.page_param.clone(),
            max_pages: profile.max_pages,
            found: Table::new(),
            page: 1,
            done: false,
        };
        assert(r@.found =~= Map::<u32, RefView>::empty());
        r
    }

    /// The page to fetch next; `None` when the walk is over.
    pub fn next_url(&self) -> (r: Option<String>)
        requires
            self.wf(),
        ensures
            text::opt(r) == self@.next(),
    {
        if self.done {
            return None;
        }
        if self.page == 1 {
            return Some(self.url.clone());
        }
        let mut v = text::to_chars(self.url.as_str());
        text::push_str(&mut v, "?");
        text::push_str(&mut v, self.page_param.as_str());
        text::push_str(&mut v, "=");
        let d = text::decimal_chars(self.page as u64);
        text::push_all(&mut v, &d);
        Some(text::to_text(&v))
    }

    /// Take in the links of the page that was asked for.
    pub fn accept_links(&mut self, links: Vec<ChapterRef>)
        requires
            old(self).wf(),
        ensures
            final(self).wf(),
            final(self)@ == old(self)@.after(ref_views(links@)),
    {
        if links.len() == 0 {
            self.done = true;
            return;
        }
        let ghost start = self@;
        let ghost all = ref_views(links@);
        proof {
            lemma_number_count(self.found);
        }
        let before: usize = self.found.len();
        let mut i: usize = 0;
        while i < links.len()
            invariant
                i <= links@.len(),
                all == ref_views(links@),
                self.found.wf(),
                keyed_by_number(self.found@),
                forall|n: u32| #[trigger]
                    by_number(self.found@).contains_key(n) ==> by_number(self.found@)[n].number
                        == n,
                self.url@ == start.url,
                self.needed == start.needed,
                self.marker@ == start.marker,
                self.page_param@ == start.page_param,
                self.max_pages == start.max_pages,
                self.page == start.page,
                self.done == start.done,
                by_number(self.found@) == with_links(start.found, all.take(i as int)),
            decreases links@.len() - i,
        {
            let n: u32 = links[i].number;
            proof {
                let t = all.take(i + 1);
                assert(t.drop_last() =~= all.take(i as int));
                assert(t.last() == links@[i as int]@);
            }
            let ghost prev = self.found@;
            if !self.found.contains((0, n)) {
                let c = links[i].clone();
                self.found.insert((0, n), c);
                proof {
                    assert(by_number(self.found@) =~= by_number(prev).insert(n, c@));
                }
            }
            i += 1;
        }
        proof {
            assert(all.take(all.len() as int) =~= all);
            lemma_number_count(self.found);
        }
        let count: usize = self.found.len();
        let enough = match self.needed {
            Some(n) => count >= n,
            None => false,
        };
        if enough || count == before || self.page >= self.max_pages {
            self.done = true;
        } else {
            self.page = self.page + 1;
        }
    }

    /// Take in the page that was asked for.
    pub fn accept(&mut self, html: &str) -> (r: Result<(), String>)
        requires
            old(self).wf(),
        ensures
            final(self).wf(),
            (match r {
                Ok(_) => Ok(()),
                Err(e) => Err(e@),
            }) == (match links_on(html@, old(self)@.url, old(self)@.marker) {
                Ok(_) => Ok::<(), Seq<char>>(()),
                Err(e) => Err(e),
            }),
            r is Err ==> final(self)@ == old(self)@,
            r is Ok ==> final(self)@ == old(self)@.after(links_on(html@, old(self)@.url, old(self)@.marker)->Ok_0),
    {
        match parse_marked_links(html, self.url.as_str(), self.marker.as_str()) {
            Ok(links) => {
                self.accept_links(links);
                Ok(())
            },
            Err(e) => Err(e),
        }
    }

    /// The chapters found, ascending by number.
    pub fn finish(&self) -> (r: Vec<ChapterRef>)
        requires
            self.wf(),
        ensures
            numbers::lists(ref_numbers(r@), self@.found.dom()),
            forall|i: int|
                0 <= i < r@.len() ==> (#[trigger] r@[i])@ == self@.found[r@[i].number],
    {
        let r = refs_in_order(&self.found);
        assert(Set::new(|n: u32| self.found@.contains_key((0i64, n))) =~= self@.found.dom());
        r
    }
}

/// The chapters of a table, ascending by number.
pub fn refs_in_order(found: &Table<ChapterRef>) -> (r: Vec<ChapterRef>)
    requires
        found.wf(),
        forall|n: u32| #[trigger]
            by_number(found@).contains_key(n) ==> by_number(found@)[n].number == n,
    ensures
        numbers::lists(ref_numbers(r@), Set::new(|n: u32| found@.contains_key((0i64, n)))),
        forall|i: int|
            0 <= i < r@.len() ==> (#[trigger] r@[i])@ == by_number(found@)[r@[i].number],
{
    let v = found.numbers_of(0);
    let mut out: Vec<ChapterRef> = Vec::new();
    let mut i: usize = 0;
    while i < v.len()
        invariant
            i <= v@.len(),
            found.wf(),
            forall|n: u32| #[trigger]
                by_number(found@).contains_key(n) ==> by_number(found@)[n].number == n,
            numbers::lists(v@, Set::new(|n: u32| found@.contains_key((0i64, n)))),
            ref_numbers(out@) == v@.take(i as int),
            forall|j: int|
                0 <= j < out@.len() ==> (#[trigger] out@[j])@ == by_number(found@)[out@[j].number],
        decreases v@.len() - i,
    {
        let n: u32 = v[i];
        assert(v@.contains(n));
        assert(by_number(found@).contains_key(n));
        let ghost before = out@;
        if let Some(c) = found.get((0, n)) {
            let c2 = c.clone();
            assert(c2@ == by_number(found@)[n]);
            out.push(c2);
            assert(ref_numbers(out@) =~= ref_numbers(before).push(n));
        }
        i += 1;
    }
    assert(v@.take(v@.len() as int) =~= v@);
    out
}

pub open spec fn ref_numbers(v: Seq<ChapterRef>) -> Seq<u32> {
    v.map_values(|c: ChapterRef| c.number)
}

proof fn lemma_number_count(t: Table<ChapterRef>)
    requires
        t.wf(),
        keyed_by_number(t@),
    ensures
        by_number(t@).dom().finite(),
        by_number(t@).dom().len() == t.entries().len(),
{
    t.lemma_len();
    t.lemma_entries();
    let e = t.entries();
    let ns = e.map_values(|p: (Key, ChapterRef)| p.0.1);
    assert(ns.no_duplicates()) by {
        assert forall|i: int, j: int| 0 <= i < ns.len() && 0 <= j < ns.len() && i != j implies ns[i]
            != ns[j] by {
            assert(ns[i] == e[i].0.1 && ns[j] == e[j].0.1);
            assert(t@.contains_key(e[i].0) && t@.contains_key(e[j].0));
            if i < j {
                assert(crate::table::below(e[i].0, e[j].0));
            } else {
                assert(crate::table::below(e[j].0, e[i].0));
            }
        }
    }
    ns.unique_seq_to_set();
    assert(ns.to_set() =~= by_number(t@).dom()) by {
        assert forall|n: u32| ns.to_set().contains(n) == by_number(t@).dom().contains(n) by {
            if ns.contains(n) {
                let i = choose|i: int| 0 <= i < ns.len() && ns[i] == n;
                assert(t@.contains_key(e[i].0));
                assert(e[i].0 == (0i64, n));
            }
            if t@.contains_key((0i64, n)) {
                let i = choose|i: int| 0 <= i < e.len() && (#[trigger] e[i]).0 == (0i64, n);
                assert(ns[i] == n);
            }
        }
    }
}

/// A walk never asks for more pages than its cap allows.
pub proof fn law_walk_stays_under_cap(w: WalkView, links: Seq<RefView>)
    requires
        w.page <= w.max_pages,
    ensures
        w.after(links).page <= w.max_pages,
        w.after(links).page == w.page ==> w.after(links).done,
{
}

/// A walk loses no chapter it has found, and the first link for a number stays.
pub proof fn law_walk_keeps_what_it_found(w: WalkView, links: Seq<RefView>, n: u32)
    requires
        w.found.contains_key(n),
    ensures
        w.after(links).found.contains_key(n),
        w.after(links).found[n] == w.found[n],
{
    lemma_with_links_keeps(w.found, links, n);
}

proof fn lemma_with_links_keeps(m: Map<u32, RefView>, links: Seq<RefView>, n: u32)
    requires
        m.contains_key(n),
    ensures
        with_links(m, links).contains_key(n),
        with_links(m, links)[n] == m[n],
    decreases links.len(),
{
    if links.len() > 0 {
        lemma_with_links_keeps(m, links.drop_last(), n);
    }
}

/// A listed chapter leads where its link leads: its address is the link's own, resolved against
/// the page's, its number is the one in that address, and its title is the link's text.
pub proof fn law_a_listed_chapter_is_its_link(
    link: (Option<Seq<char>>, Seq<char>),
    base: Seq<char>,
    marker: Seq<char>,
)
    ensures
        linked_chapter(link, base, marker) matches Some(c) ==> {
            &&& link.0 matches Some(href) && web::joined_url(base, href) == Some(Some(c.url))
            &&& util::number_after(c.url, marker) == Some(c.number as nat)
            &&& c.title == util::cleaned_title(link.1)
        },
{
    if let Some(href) = link.0 {
        if let Some(Some(url)) = web::joined_url(base, href) {
            util::lemma_number_after_fits(url, marker);
        }
    }
}

/// Every link whose address says a slash, the marker and then a number is listed, and no other
/// link is.
pub proof fn law_every_chapter_link_is_listed(
    href: Seq<char>,
    text: Seq<char>,
    url: Seq<char>,
    base: Seq<char>,
    marker: Seq<char>,
    i: int,
)
    requires
        web::joined_url(base, href) == Some(Some(url)),
    ensures
        text::occurs_at(href, seq!['/'] + marker, i) && util::number_after(url, marker) is Some
            ==> linked_chapter((Some(href), text), base, marker) is Some,
        (forall|j: int| 0 <= j ==> !text::occurs_at(href, seq!['/'] + marker, j)) ==> linked_chapter(
            (Some(href), text),
            base,
            marker,
        ) is None,
        util::number_after(url, marker) is None ==> linked_chapter(
            (Some(href), text),
            base,
            marker,
        ) is None,
        linked_chapter((None, text), base, marker) is None,
{
    reveal_strlit("/");
    assert("/"@ =~= seq!['/']);
    text::lemma_find_from(href, "/"@ + marker, 0);
}

/// A page's chapters are listed link by link, in the order of the links.
pub proof fn law_chapters_are_listed_link_by_link(
    links: Seq<(Option<Seq<char>>, Seq<char>)>,
    link: (Option<Seq<char>>, Seq<char>),
    base: Seq<char>,
    marker: Seq<char>,
)
    ensures
        linked_chapters(seq![], base, marker).len() == 0,
        linked_chapter(link, base, marker) matches Some(c) ==> linked_chapters(
            links.push(link),
            base,
            marker,
        ) == linked_chapters(links, base, marker).push(c),
        linked_chapter(link, base, marker) is None ==> linked_chapters(
            links.push(link),
            base,
            marker,
        ) == linked_chapters(links, base, marker),
{
    assert(links.push(link).drop_last() =~= links);
}

/// Every chapter on a page comes from one of its links.
pub proof fn law_listed_chapters_come_from_links(
    links: Seq<(Option<Seq<char>>, Seq<char>)>,
    base: Seq<char>,
    marker: Seq<char>,
    i: int,
)
    requires
        0 <= i < linked_chapters(links, base, marker).len(),
    ensures
        exists|k: int|
            0 <= k < links.len() && (#[trigger] links[k]).0 is Some && web::joined_url(
                base,
                links[k].0->0,
            ) == Some(Some(linked_chapters(links, base, marker)[i].url)),
    decreases links.len(),
{
    let before = links.drop_last();
    let all = linked_chapters(links, base, marker);
    law_a_listed_chapter_is_its_link(links.last(), base, marker);
    if i < linked_chapters(before, base, marker).len() {
        law_listed_chapters_come_from_links(before, base, marker, i);
        let k = choose|k: int|
            0 <= k < before.len() && (#[trigger] before[k]).0 is Some && web::joined_url(
                base,
                before[k].0->0,
            ) == Some(Some(all[i].url));
        assert(before[k] == links[k]);
    } else {
        assert(links[links.len() - 1].0 is Some);
    }
}

/// Paragraphs are read one by one: one that is not blank is added, trimmed, behind those before
/// it, and a blank one adds nothing.
pub proof fn law_paragraphs_are_read_one_by_one(
    found: Seq<(Option<Seq<char>>, Seq<char>)>,
    attribute: Option<Seq<char>>,
    t: Seq<char>,
)
    ensures
        prose(seq![]).len() == 0,
        text::trimmed(t).len() > 0 ==> prose(found.push((attribute, t))) == prose(found).push(
            text::trimmed(t),
        ),
        text::trimmed(t).len() == 0 ==> prose(found.push((attribute, t))) == prose(found),
{
    assert(found.push((attribute, t)).drop_last() =~= found);
}

/// A chapter page gives all its paragraphs, or the reason why it gives none.
pub proof fn law_a_body_is_all_its_paragraphs(
    v: Seq<(Option<Seq<char>>, Seq<char>)>,
    content: Seq<char>,
    paragraph: Seq<char>,
    number: u32,
    title: Seq<char>,
    paragraphs: Seq<Seq<char>>,
    e: Seq<char>,
)
    ensures
        prose(v).len() > 0 ==> body_paragraphs(Some(Some(v)), content, paragraph) == Ok::<
            Seq<Seq<char>>,
            Seq<char>,
        >(prose(v)),
        prose(v).len() == 0 ==> body_paragraphs(Some(Some(v)), content, paragraph) is Err,
        body_paragraphs(Some(None), content, paragraph) is Err,
        body_paragraphs(None, content, paragraph) is Err,
        chapter_of(number, title, Ok(paragraphs)) == Ok::<ChapterView, Seq<char>>(
            ChapterView { number, title, paragraphs },
        ),
        chapter_of(number, title, Err(e)) == Err::<ChapterView, Seq<char>>(e),
{
}

/// A novel is known by what its page says of it, each thing in its place; what is empty is not
/// there, and without a title there is no novel.
pub proof fn law_a_novel_is_what_its_page_says(
    title: Seq<char>,
    author: Seq<char>,
    image: Seq<char>,
    genre: Option<Seq<char>>,
    status: NovelStatus,
    source_url: Seq<char>,
)
    requires
        title.len() > 0,
    ensures
        novel_meta(Some(title), Some(author), Some(image), genre, status, source_url) matches Ok(m)
            && {
            &&& m.title == title
            &&& author.len() > 0 ==> m.author == Some(author)
            &&& author.len() == 0 ==> m.author is None
            &&& image.len() > 0 ==> m.cover_url == Some(image)
            &&& image.len() == 0 ==> m.cover_url is None
            &&& m.genre == genre
            &&& m.status_hint == status
            &&& m.source_url == source_url
        },
        novel_meta(Some(title), None, None, genre, status, source_url) matches Ok(m) && m.author
            is None && m.cover_url is None && m.title == title,
        novel_meta(None, Some(author), Some(image), genre, status, source_url) is Err,
        novel_meta(Some(seq![]), Some(author), Some(image), genre, status, source_url) is Err,
{
}

/// A selector of the profile goes before the page's tag, and the tag stands in where the selector
/// is empty or finds nothing but white space.
pub proof fn law_a_selector_goes_before_the_tag(
    html: Seq<char>,
    selector: Seq<char>,
    tag: Option<Seq<char>>,
    page: Seq<char>,
    found: Seq<(Option<Seq<char>>, Seq<char>)>,
)
    ensures
        selector.len() == 0 ==> told(html, selector, tag) == tag && pictured(
            html,
            selector,
            page,
            tag,
        ) == tag,
        selector.len() > 0 && web::selected(html, selector, ""@) == Some(found) && found.len() > 0
            && text::trimmed(found[0].1).len() > 0 ==> told(html, selector, tag) == Some(
            text::trimmed(found[0].1),
        ),
        selector.len() > 0 && web::selected(html, selector, ""@) == Some(found) && (found.len()
            == 0 || text::trimmed(found[0].1).len() == 0) ==> told(html, selector, tag) == tag,
        selector.len() > 0 && web::selected(html, selector, "src"@) == Some(found) && found.len()
            > 0 && found[0].0 is Some && found[0].0->0.len() > 0 ==> {
            match web::joined_url(page, found[0].0->0) {
                Some(Some(url)) => pictured(html, selector, page, tag) == Some(url),
                _ => pictured(html, selector, page, tag) == tag,
            }
        },
        selector.len() > 0 && web::selected(html, selector, "src"@) == Some(found) && found.len()
            == 0 ==> pictured(html, selector, page, tag) == tag,
{
}

/// A page's title is the novel's own tag, or else the page's, or else the document's.
pub proof fn law_titles_are_looked_for_in_order(html: Seq<char>, t: Seq<char>)
    ensures
        property_of(html, "og:novel:novel_name"@) == Some(t) ==> page_title(html) == Some(t),
        property_of(html, "og:novel:novel_name"@) is None && property_of(html, "og:title"@) == Some(
            t,
        ) ==> page_title(html) == Some(t),
        property_of(html, "og:novel:novel_name"@) is None && property_of(html, "og:title"@) is None
            && first_text(web::selected(html, "title"@, ""@)) == Some(t) ==> page_title(html)
            == Some(text::trimmed(t)),
{
}

/// A page's tag is the content of the first element with that property.
pub proof fn law_a_tag_is_its_content(
    html: Seq<char>,
    property: Seq<char>,
    found: Seq<(Option<Seq<char>>, Seq<char>)>,
)
    requires
        web::selected(html, "meta[property=\""@ + property + "\"]"@, "content"@) == Some(found),
        found.len() > 0,
    ensures
        property_of(html, property) == found[0].0,
{
}

/// The words for a status are known in any ASCII case and with white space around them; the
/// codes stand for the same. Any other word decides nothing.
pub proof fn law_status_words(raw: Seq<char>)
    ensures
        text::lower(text::trimmed(raw)) == text::lower("ongoing"@) || text::lower(
            text::trimmed(raw),
        ) == text::lower("releasing"@) || text::trimmed(raw) == "1"@ <==> status_of(raw)
            == NovelStatus::Ongoing,
        text::lower(text::trimmed(raw)) == text::lower("completed"@) || text::trimmed(raw) == "2"@
            ==> status_of(raw) == NovelStatus::Completed,
        status_of(raw) == NovelStatus::Completed ==> text::lower(text::trimmed(raw)) == text::lower(
            "completed"@,
        ) || text::trimmed(raw) == "2"@,
        status_or_unknown(Some(raw)) == status_of(raw),
        status_or_unknown(None) == NovelStatus::Unknown,
{
    let s = text::trimmed(raw);
    reveal_strlit("ongoing");
    reveal_strlit("releasing");
    reveal_strlit("completed");
    reveal_strlit("1");
    reveal_strlit("2");
    assert("1"@ != "2"@) by {
        assert("1"@[0] != "2"@[0]);
    }
    assert(text::lower("ongoing"@).len() == 7);
    assert(text::lower("releasing"@).len() == 9);
    assert(text::lower("completed"@).len() == 9);
    assert(text::lower("releasing"@)[0] == 'r');
    assert(text::lower("completed"@)[0] == 'c');
    assert(text::lower(s).len() == s.len());
}

/// Chapters in sequence are numbered from 1 to the total, each with its number in its title and
/// its address.
pub proof fn law_sequential_chapters_count_up(
    total: nat,
    before: Seq<char>,
    after: Seq<char>,
    i: int,
)
    requires
        total <= u32::MAX,
        0 <= i < total,
    ensures
        sequential(total, before, after).len() == total,
        sequential(total, before, after)[i].number == i + 1,
        sequential(total, before, after)[i].title == "Chapter "@ + text::decimal((i + 1) as nat),
        sequential(total, before, after)[i].url == before + text::decimal((i + 1) as nat) + after,
{
}

/// A walk starts at the novel's own page, and goes on page by page by the profile's parameter.
pub proof fn law_pages_are_asked_for_in_turn(
    url: Seq<char>,
    needed: Option<usize>,
    profile: ProfileView,
    w: WalkView,
    links: Seq<RefView>,
)
    ensures
        WalkView::start(url, needed, profile).next() == Some(url),
        WalkView::start(url, needed, profile).marker == profile.chapter_marker,
        WalkView::start(url, needed, profile).page_param == profile.page_param,
        WalkView::start(url, needed, profile).max_pages == profile.max_pages,
        w.done ==> w.next() is None,
        !w.done && w.page > 1 ==> w.next() == Some(
            w.url + "?"@ + w.page_param + "="@ + text::decimal(w.page as nat),
        ),
        !w.after(links).done ==> w.after(links).page == (w.page + 1) as u32,
        links.len() == 0 ==> w.after(links).done,
        w.page >= w.max_pages ==> w.after(links).done,
        w.after(links).url == w.url,
        w.after(links).marker == w.marker,
        w.after(links).page_param == w.page_param,
        w.after(links).max_pages == w.max_pages,
        w.after(links).needed == w.needed,
{
}

/// A walk takes in every number a page links to, and of several links with one number the first.
pub proof fn law_a_walk_takes_every_link(m: Map<u32, RefView>, links: Seq<RefView>, i: int)
    requires
        0 <= i < links.len(),
        !m.contains_key(links[i].number),
        forall|j: int| 0 <= j < i ==> (#[trigger] links[j]).number != links[i].number,
    ensures
        with_links(m, links).contains_key(links[i].number),
        with_links(m, links)[links[i].number] == links[i],
    decreases links.len(),
{
    let before = links.drop_last();
    if i < before.len() {
        assert(before[i] == links[i]);
        law_a_walk_takes_every_link(m, before, i);
    } else {
        assert forall|j: int| 0 <= j < before.len() implies (#[trigger] before[j]).number
            != links[i].number by {
            assert(before[j] == links[j]);
        }
        lemma_with_links_adds_no_other(m, before, links[i].number);
    }
}

proof fn lemma_with_links_adds_no_other(m: Map<u32, RefView>, links: Seq<RefView>, n: u32)
    requires
        !m.contains_key(n),
        forall|j: int| 0 <= j < links.len() ==> (#[trigger] links[j]).number != n,
    ensures
        !with_links(m, links).contains_key(n),
    decreases links.len(),
{
    if links.len() > 0 {
        let before = links.drop_last();
        assert forall|j: int| 0 <= j < before.len() implies (#[trigger] before[j]).number != n by {
            assert(before[j] == links[j]);
        }
        lemma_with_links_adds_no_other(m, before, n);
        assert(links[links.len() - 1].number != n);
    }
}

/// A walk that goes on has found something new on the page, keeps all it found, and adds no
/// number that the page does not link to. One that needs more chapters than it has goes on until
/// the cap, as long as pages add some.
pub proof fn law_a_walk_goes_on_while_pages_add_chapters(
    w: WalkView,
    links: Seq<RefView>,
    n: u32,
)
    ensures
        !w.after(links).done ==> with_links(w.found, links).dom().len() != w.found.dom().len(),
        w.after(links).found.contains_key(n) ==> w.found.contains_key(n) || exists|j: int|
            0 <= j < links.len() && (#[trigger] links[j]).number == n,
        !w.done && links.len() > 0 && w.page < w.max_pages && with_links(
            w.found,
            links,
        ).dom().len() != w.found.dom().len() && (w.needed matches Some(k) ==> with_links(
            w.found,
            links,
        ).dom().len() < k) ==> !w.after(links).done,
        w.needed matches Some(k) && links.len() > 0 && with_links(w.found, links).dom().len() >= k
            ==> w.after(links).done,
        links.len() > 0 ==> w.after(links).found == with_links(w.found, links),
{
    if !w.found.contains_key(n) && forall|j: int|
        0 <= j < links.len() ==> (#[trigger] links[j]).number != n {
        lemma_with_links_adds_no_other(w.found, links, n);
    }
}

/// An address belongs to a site by its host, whatever its case; only the lenient test leaves a
/// leading "www." aside.
pub proof fn law_a_site_is_told_by_its_host(url: Seq<char>, host: Seq<char>, h: Seq<char>)
    ensures
        web::host_of(url) == Ok::<Option<Seq<char>>, Seq<char>>(Some(h)) ==> {
            &&& has_host(url, host) <==> text::lower(h) == text::lower(host)
            &&& h.len() < 4 || h.take(4) != "www."@ ==> (has_host_www(url, host) <==> text::lower(h)
                == text::lower(host))
        },
        web::host_of(url) is Err ==> !has_host(url, host) && !has_host_www(url, host),
        h.len() < 4 || h.take(4) != "www."@ ==> without_www(h) == h && without_www("www."@ + h)
            == h,
{
    reveal_strlit("www.");
    let w = "www."@ + h;
    assert(w.take(4) =~= "www."@);
    assert(w.skip(4) =~= h);
    reveal_with_fuel(without_www, 3);
}

/// A novel's address for its chapters is what is left without query, fragment and final slashes.
pub proof fn law_a_base_has_no_final_slash(stripped: Option<Seq<char>>, url: Seq<char>)
    ensures
        base_of(stripped, url).len() > 0 ==> base_of(stripped, url).last() != '/',
        stripped matches Some(u) ==> (u.len() > 0 && u.last() != '/' ==> base_of(stripped, url) == u),
        stripped is None && url.len() > 0 && url.last() != '/' ==> base_of(stripped, url) == url,
{
    let s = match stripped {
        Some(u) => u,
        None => url,
    };
    text::law_only_trailing_characters_go(s, '/');
    if s.len() > 0 && s.last() != '/' {
        let k = base_of(stripped, url).len() as int;
        if k < s.len() {
            assert(s[s.len() - 1] == '/');
        }
        assert(s.take(s.len() as int) =~= s);
    }
}

/// A page is a novel's table of contents only under an address that is one.
pub proof fn law_a_page_lists_its_links(
    html: Seq<char>,
    base: Seq<char>,
    marker: Seq<char>,
    links: Seq<(Option<Seq<char>>, Seq<char>)>,
)
    ensures
        web::host_of(base) is Err ==> links_on(html, base, marker) is Err,
        web::host_of(base) is Ok && web::selected(html, "a[href]"@, "href"@) == Some(links)
            ==> links_on(html, base, marker) == Ok::<Seq<RefView>, Seq<char>>(
            linked_chapters(links, base, marker),
        ),
{
}

/// A profile and a chapter reference are seen as they are.
pub proof fn law_profiles_and_references_are_seen_whole(
    p: SiteProfile,
    v: Seq<ChapterRef>,
    i: int,
)
    requires
        0 <= i < v.len(),
    ensures
        p@.name == p.name@,
        p@.host == p.host@,
        p@.content_selector == p.content_selector@,
        p@.paragraph_selector == p.paragraph_selector@,
        p@.chapter_marker == p.chapter_marker@,
        p@.page_param == p.page_param@,
        p@.max_pages == p.max_pages,
        p@.title_selector == p.title_selector@,
        p@.author_selector == p.author_selector@,
        p@.cover_selector == p.cover_selector@,
        p@.status_selector == p.status_selector@,
        ref_views(v).len() == v.len(),
        ref_views(v)[i].number == v[i].number,
        ref_views(v)[i].title == v[i].title@,
        ref_views(v)[i].url == v[i].url@,
{
}

/// What a reader hands over is seen as it is.
pub proof fn law_results_are_seen_whole(
    m: NovelMeta,
    c: Chapter,
    refs: Vec<ChapterRef>,
    texts: Vec<String>,
    e: String,
)
    ensures
        meta_view(Ok(m)) == Ok::<MetaView, Seq<char>>(m@),
        meta_view(Err(e)) == Err::<MetaView, Seq<char>>(e@),
        refs_view(Ok(refs)) == Ok::<Seq<RefView>, Seq<char>>(ref_views(refs@)),
        refs_view(Err(e)) == Err::<Seq<RefView>, Seq<char>>(e@),
        texts_view(Ok(texts)) == Ok::<Seq<Seq<char>>, Seq<char>>(text::texts(texts@)),
        texts_view(Err(e)) == Err::<Seq<Seq<char>>, Seq<char>>(e@),
        chapter_result(Ok(c)) == Ok::<ChapterView, Seq<char>>(c@),
        chapter_result(Err(e)) == Err::<ChapterView, Seq<char>>(e@),
{
}

/// Of a selection the first element counts: its attribute as it is, its text trimmed and only where
/// it is not blank; of two finds the first that is there.
pub proof fn law_the_first_match_counts(
    v: Seq<(Option<Seq<char>>, Seq<char>)>,
    html: Seq<char>,
    selector: Seq<char>,
    a: Seq<char>,
    b: Option<Seq<char>>,
)
    ensures
        v.len() > 0 ==> first_attr(Some(v)) == v[0].0 && first_text(Some(v)) == Some(v[0].1),
        v.len() == 0 ==> first_attr(Some(v)) is None && first_text(Some(v)) is None,
        first_attr(None) is None,
        first_text(None) is None,
        web::selected(html, selector, ""@) == Some(v) && v.len() > 0 && text::trimmed(v[0].1).len()
            > 0 ==> text_at(html, selector) == Some(text::trimmed(v[0].1)),
        web::selected(html, selector, ""@) == Some(v) && (v.len() == 0 || text::trimmed(
            v[0].1,
        ).len() == 0) ==> text_at(html, selector) is None,
        or_else(Some(a), b) == Some(a),
        or_else(None, b) == b,
        trimmed_opt(Some(a)) == Some(text::trimmed(a)),
        trimmed_opt(None) is None,
        a.len() > 0 ==> nonempty(Some(a)) == Some(a),
        a.len() == 0 ==> nonempty(Some(a)) is None,
        nonempty(None) is None,
{
}

} // verus!
