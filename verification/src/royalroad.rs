//! Hand-written adapter for royalroad.com.
//!
//! The fiction page embeds the whole chapter list as a `window.chapters = [...]`
//! array, so discovery is a single request, but chapter URLs use non-sequential
//! ids, so the list must be read rather than generated.
//!
//! Each chapter is salted with **decoy paragraphs**: a `<style>` block marks one
//! class as `display: none`, and the decoys carry that class. The hidden classes
//! are collected and every `<p>` that uses one is skipped.

use vstd::prelude::*;
use vstd::slice::slice_subrange;

use crate::json::{Json, JsonView};
use crate::json;
use crate::model::{Chapter, ChapterRef, NovelMeta, NovelStatus, RefView};
use crate::source;
use crate::text;
use crate::util;
use crate::web::Found;
use crate::web;

verus! {

/// The royalroad adapter, over whatever fetches its pages.
pub struct RoyalRoadSource<F> {
    pub fetcher: F,
}

// ---------------------------------------------------------------------------
// Titles and metadata
// ---------------------------------------------------------------------------

/// A chapter title without a leading "N. " or "N: " (we render our own prefix). "3.5" is no
/// such numbering.
pub open spec fn unnumbered(raw: Seq<char>) -> Seq<char> {
    let t = text::trimmed(raw);
    let d = text::span(t, text::digits());
    let rest = t.skip(d);
    let name = text::trimmed_start(rest.drop_first());
    if d > 0 && rest.len() > 1 && (rest[0] == '.' || rest[0] == ':') && text::is_white(rest[1])
        && name.len() > 0 {
        name
    } else {
        t
    }
}

/// Strip a leading "N. " / "N: " numbering from a chapter title.
pub fn clean_title(raw: &str) -> (r: String)
    ensures
        r@ == unnumbered(raw@),
{
    let v = text::to_chars(raw);
    let t = text::trim(&v);
    let d: usize = util::leading_digits(t);
    let rest = slice_subrange(t, d, t.len());
    assert(rest@ == t@.skip(d as int));
    if d > 0 && rest.len() > 1 && (rest[0] == '.' || rest[0] == ':') && text::whitespace(rest[1]) {
        let after = slice_subrange(rest, 1, rest.len());
        assert(after@ == rest@.drop_first());
        let name = text::trim_start(after);
        if name.len() > 0 {
            return text::to_text(name);
        }
    }
    text::to_text(t)
}

/// "Title | Royal Road" without what follows the last bar.
pub open spec fn before_brand(t: Seq<char>) -> Seq<char> {
    let tail = text::span_back(t, text::not('|'));
    if tail < t.len() {
        text::trimmed(t.take(t.len() - tail - 1))
    } else {
        t
    }
}

pub fn drop_brand(t: &str) -> (r: String)
    ensures
        r@ == before_brand(t@),
{
    let v = text::to_chars(t);
    let tail: usize = text::after_last_char(&v, '|');
    if tail < v.len() {
        let head = slice_subrange(v.as_slice(), 0, v.len() - tail - 1);
        assert(head@ == v@.take(v@.len() - tail - 1));
        text::to_text(text::trim(head))
    } else {
        text::to_text(&v)
    }
}

pub open spec fn before_brand_opt(o: Option<Seq<char>>) -> Option<Seq<char>> {
    match o {
        Some(t) => Some(before_brand(t)),
        None => None,
    }
}

/// The first label that is a status word; other labels are genre tags.
pub open spec fn labelled(labels: Seq<(Option<Seq<char>>, Seq<char>)>) -> NovelStatus
    decreases labels.len(),
{
    if labels.len() == 0 {
        NovelStatus::Unknown
    } else if source::status_of(labels[0].1) != NovelStatus::Unknown {
        source::status_of(labels[0].1)
    } else {
        labelled(labels.drop_first())
    }
}

pub open spec fn labelled_on(selection: source::Selection) -> NovelStatus {
    match selection {
        Some(v) => labelled(v),
        None => NovelStatus::Unknown,
    }
}

/// The status among a page's labels.
pub fn status_among(labels: &Vec<Found>) -> (r: NovelStatus)
    ensures
        r == labelled(web::found_views(labels@)),
{
    let ghost all = web::found_views(labels@);
    let mut i: usize = 0;
    assert(all.skip(0) =~= all);
    while i < labels.len()
        invariant
            i <= labels@.len(),
            all == web::found_views(labels@),
            labelled(all) == labelled(all.skip(i as int)),
        decreases labels@.len() - i,
    {
        let ghost rest = all.skip(i as int);
        assert(rest[0].1 == labels@[i as int].1@);
        assert(rest.drop_first() =~= all.skip(i + 1));
        let s = source::parse_status_hint(labels[i].1.as_str());
        if s != NovelStatus::Unknown {
            return s;
        }
        i += 1;
    }
    NovelStatus::Unknown
}

/// The status among the labels that match a selector.
pub fn select_status(html: &str, selector: &str) -> (r: NovelStatus)
    ensures
        r == labelled_on(web::selected(html@, selector@, ""@)),
{
    match web::select(html, selector, "") {
        Some(v) => status_among(&v),
        None => NovelStatus::Unknown,
    }
}

/// The title of a fiction page.
pub open spec fn title_on(html: Seq<char>) -> Option<Seq<char>> {
    source::or_else(
        source::trimmed_opt(source::property_of(html, "og:title"@)),
        source::or_else(
            before_brand_opt(source::text_at(html, "title"@)),
            source::text_at(html, "h1"@),
        ),
    )
}

/// The author of a fiction page.
pub open spec fn author_on(html: Seq<char>) -> Option<Seq<char>> {
    source::or_else(
        source::trimmed_opt(
            source::first_attr(
                web::selected(html, "meta[name=\"twitter:creator\"]"@, "content"@),
            ),
        ),
        source::text_at(html, "a[href^=\"/profile/\"]"@),
    )
}

pub fn parse_novel(html: &str, source_url: &str) -> (r: Result<NovelMeta, String>)
    ensures
        source::meta_view(r) == source::novel_meta(
            title_on(html@),
            author_on(html@),
            source::trimmed_opt(source::property_of(html@, "og:image"@)),
            None,
            labelled_on(web::selected(html@, "span.label"@, ""@)),
            source_url@,
        ),
{
    let in_title = match source::text_of(html, "title") {
        Some(t) => Some(drop_brand(t.as_str())),
        None => None,
    };
    let title = source::first_of(
        source::trim_opt(source::meta_content(html, "og:title")),
        source::first_of(in_title, source::text_of(html, "h1")),
    );
    let creator = source::select_attr(html, "meta[name=\"twitter:creator\"]", "content");
    let author = source::first_of(
        source::trim_opt(creator),
        source::text_of(html, "a[href^=\"/profile/\"]"),
    );
    let image = source::trim_opt(source::meta_content(html, "og:image"));
    let status = select_status(html, "span.label");
    source::meta_from(title, author, image, None, status, source_url)
}

// ---------------------------------------------------------------------------
// The embedded chapter list
// ---------------------------------------------------------------------------

/// Whether an entry of the list is marked as hidden.
pub open spec fn is_hidden(entry: JsonView) -> bool {
    match entry.member("visible"@) {
        Some(v) => v.as_u64() == Some(0nat),
        None => false,
    }
}

pub open spec fn text_or_empty(o: Option<JsonView>) -> Seq<char> {
    match o {
        Some(v) => match v.as_text() {
            Some(s) => s,
            None => seq![],
        },
        None => seq![],
    }
}

/// The absolute address of an entry, if it is visible and has one.
pub open spec fn entry_url(entry: JsonView, base: Seq<char>) -> Option<Seq<char>> {
    if is_hidden(entry) {
        None
    } else {
        match entry.member("url"@) {
            Some(v) => match v.as_text() {
                Some(rel) => match web::joined_url(base, rel) {
                    Some(Some(u)) => Some(u),
                    _ => None,
                },
                None => None,
            },
            None => None,
        }
    }
}

/// The entries that lead somewhere, numbered from 1 in their order. (The count
/// starts over past the 32 bits of a chapter number.)
pub open spec fn listed(entries: Seq<JsonView>, base: Seq<char>) -> Seq<RefView>
    decreases entries.len(),
{
    if entries.len() == 0 {
        seq![]
    } else {
        let before = listed(entries.drop_last(), base);
        match entry_url(entries.last(), base) {
            Some(url) => before.push(
                RefView {
                    number: ((before.len() + 1) % 0x1_0000_0000) as u32,
                    title: unnumbered(text_or_empty(entries.last().member("title"@))),
                    url,
                },
            ),
            None => before,
        }
    }
}

fn read_entry_url(entry: &Json, base: &str) -> (r: Option<String>)
    ensures
        text::opt(r) == entry_url(entry@, base@),
{
    if let Some(v) = entry.get("visible") {
        if let Some(n) = v.as_u64() {
            if n == 0 {
                return None;
            }
        }
    }
    assert(!is_hidden(entry@));
    match entry.get("url") {
        Some(v) => match v.as_str() {
            Some(rel) => match web::join_url(base, rel) {
                Some(Some(u)) => Some(u),
                _ => None,
            },
            None => None,
        },
        None => None,
    }
}

/// The chapters of an embedded list.
pub fn refs_from_entries(entries: &Vec<Json>, base: &str) -> (r: Vec<ChapterRef>)
    ensures
        source::ref_views(r@) == listed(json::json_views(entries@), base@),
{
    let ghost all = json::json_views(entries@);
    let mut out: Vec<ChapterRef> = Vec::new();
    let mut i: usize = 0;
    while i < entries.len()
        invariant
            i <= entries@.len(),
            all == json::json_views(entries@),
            source::ref_views(out@) == listed(all.take(i as int), base@),
        decreases entries@.len() - i,
    {
        proof {
            let t = all.take(i + 1);
            assert(t.drop_last() =~= all.take(i as int));
            assert(t.last() == entries@[i as int]@);
        }
        if let Some(url) = read_entry_url(&entries[i], base) {
            let title = match entries[i].get("title") {
                Some(v) => match v.as_str() {
                    Some(s) => clean_title(s),
                    None => clean_title(""),
                },
                None => clean_title(""),
            };
            proof {
                reveal_strlit("");
                assert(""@ =~= seq![]);
            }
            let ghost before = out@;
            assert(source::ref_views(before).len() == before.len());
            let number: u32 = ((out.len() as u128 + 1) % 0x1_0000_0000) as u32;
            let c = ChapterRef { number, title, url };
            out.push(c);
            assert(source::ref_views(out@) =~= source::ref_views(before).push(c@));
        }
        i += 1;
    }
    assert(all.take(all.len() as int) =~= all);
    out
}

/// The text of the list embedded in a page: from the first bracket after
/// `window.chapters`.
pub open spec fn list_text(html: Seq<char>) -> Result<Seq<char>, Seq<char>> {
    match text::find_from(html, "window.chapters"@, 0) {
        None => Err("no window.chapters on the page"@),
        Some(i) => {
            let after = html.skip(i);
            let bracket = text::span(after, text::not('['));
            if bracket >= after.len() {
                Err("malformed chapter list"@)
            } else {
                Ok(after.skip(bracket))
            }
        },
    }
}

fn find_list(html: &str) -> (r: Result<String, String>)
    ensures
        (match r {
            Ok(s) => Ok(s@),
            Err(e) => Err(e@),
        }) == list_text(html@),
{
    let v = text::to_chars(html);
    let needle = text::to_chars("window.chapters");
    match text::find(&v, &needle, 0) {
        None => Err("no window.chapters on the page".to_string()),
        Some(i) => {
            let after = slice_subrange(v.as_slice(), i, v.len());
            assert(after@ == v@.skip(i as int));
            let bracket: usize = text::before_char(after, '[');
            if bracket >= after.len() {
                return Err("malformed chapter list".to_string());
            }
            let list = slice_subrange(after, bracket, after.len());
            assert(list@ == after@.skip(bracket as int));
            Ok(text::to_text(list))
        },
    }
}

/// The chapters a list stands for once it is read as JSON. At least one must be
/// visible.
pub open spec fn chapters_of(
    value: Option<Result<JsonView, Seq<char>>>,
    host: Result<Option<Seq<char>>, Seq<char>>,
    base: Seq<char>,
) -> Result<Seq<RefView>, Seq<char>> {
    match value {
        None => Err("empty chapter list"@),
        Some(Err(e)) => Err("parsing window.chapters: "@ + e),
        Some(Ok(v)) => match host {
            Err(e) => Err(e),
            Ok(_) => match v.as_array() {
                None => Err("chapter list not an array"@),
                Some(entries) => if listed(entries, base).len() == 0 {
                    Err("no visible chapters found"@)
                } else {
                    Ok(listed(entries, base))
                },
            },
        },
    }
}

/// The chapters of a page with an embedded list.
pub open spec fn chapters_on(html: Seq<char>, base: Seq<char>) -> Result<Seq<RefView>, Seq<char>> {
    match list_text(html) {
        Err(e) => Err(e),
        Ok(s) => chapters_of(json::leading_json(s), web::host_of(base), base),
    }
}

/// The chapters of a list that was read as JSON.
pub fn chapters_from(
    value: Option<Result<Json, String>>,
    host: Result<Option<String>, String>,
    base: &str,
) -> (r: Result<Vec<ChapterRef>, String>)
    ensures
        source::refs_view(r) == chapters_of(
            match value {
                None => None,
                Some(Ok(j)) => Some(Ok(j@)),
                Some(Err(e)) => Some(Err(e@)),
            },
            web::host_view(host),
            base@,
        ),
{
    let v = match value {
        None => return Err("empty chapter list".to_string()),
        Some(Err(e)) => return Err(text::concat("parsing window.chapters: ", e.as_str())),
        Some(Ok(v)) => v,
    };
    if let Err(e) = host {
        return Err(e);
    }
    match v.as_array() {
        None => Err("chapter list not an array".to_string()),
        Some(entries) => {
            let out = refs_from_entries(entries, base);
            assert(source::ref_views(out@).len() == out@.len());
            if out.len() == 0 {
                return Err("no visible chapters found".to_string());
            }
            Ok(out)
        },
    }
}

/// Parse the `window.chapters = [...]` JSON array into ordered chapter refs.
pub fn parse_chapters(html: &str, base_url: &str) -> (r: Result<Vec<ChapterRef>, String>)
    ensures
        source::refs_view(r) == chapters_on(html@, base_url@),
{
    match find_list(html) {
        Err(e) => Err(e),
        Ok(s) => chapters_from(
            json::parse_leading_json(s.as_str()),
            web::url_host(base_url),
            base_url,
        ),
    }
}

// ---------------------------------------------------------------------------
// Decoy paragraphs
// ---------------------------------------------------------------------------

/// The class names among the pieces of a rule's selector.
pub open spec fn class_names(tokens: Seq<Seq<char>>) -> Seq<Seq<char>>
    decreases tokens.len(),
{
    if tokens.len() == 0 {
        seq![]
    } else {
        let t = tokens.last();
        if t.len() > 1 && t[0] == '.' {
            class_names(tokens.drop_last()).push(t.drop_first())
        } else {
            class_names(tokens.drop_last())
        }
    }
}

/// Whether a declaration is `display: none`, however it is spaced and whether or not it
/// is marked important.
pub open spec fn hides(declaration: Seq<char>) -> bool {
    let n = text::span(declaration, text::not(':'));
    let value = declaration.skip(n + 1);
    &&& n < declaration.len()
    &&& text::eq_ci(text::trimmed(declaration.take(n)), "display"@)
    &&& text::eq_ci(text::trimmed(value.take(text::span(value, text::not('!')))), "none"@)
}

pub open spec fn any_hides(declarations: Seq<Seq<char>>) -> bool {
    exists|i: int| 0 <= i < declarations.len() && hides(#[trigger] declarations[i])
}

/// The classes a rule hides: those of its selector, if one of its declarations is
/// `display: none`.
pub open spec fn hidden_by_rule(rule: Seq<char>) -> Seq<Seq<char>> {
    let n = text::span(rule, text::not('{'));
    if n < rule.len() && any_hides(text::split(rule.skip(n + 1), ';')) {
        class_names(text::pieces(rule.take(n), text::Separator::CommaOrSpace))
    } else {
        seq![]
    }
}

pub open spec fn hidden_by_rules(rules: Seq<Seq<char>>) -> Seq<Seq<char>>
    decreases rules.len(),
{
    if rules.len() == 0 {
        seq![]
    } else {
        hidden_by_rules(rules.drop_last()) + hidden_by_rule(rules.last())
    }
}

/// A style sheet from `from` on, without its comments.
pub open spec fn uncommented(s: Seq<char>, from: int) -> Seq<char>
    decreases s.len() - from,
{
    proof {
        reveal_strlit("/*");
        reveal_strlit("*/");
        if 0 <= from {
            text::lemma_find_from(s, "/*"@, from);
            if let Some(i) = text::find_from(s, "/*"@, from) {
                text::lemma_find_from(s, "*/"@, i + 2);
            }
        }
    }
    match text::find_from(s, "/*"@, from) {
        Some(i) => if from < 0 {
            seq![]
        } else {
            s.subrange(from, i) + (match text::find_from(s, "*/"@, i + 2) {
                Some(j) => uncommented(s, j + 2),
                None => seq![],
            })
        },
        None => s.skip(from),
    }
}

/// The classes the style sheets of a page hide.
pub open spec fn hidden_by_sheets(sheets: Seq<(Option<Seq<char>>, Seq<char>)>) -> Seq<Seq<char>>
    decreases sheets.len(),
{
    if sheets.len() == 0 {
        seq![]
    } else {
        hidden_by_sheets(sheets.drop_last()) + hidden_by_rules(
            text::split(uncommented(sheets.last().1, 0), '}'),
        )
    }
}

fn drop_comments(s: &[char]) -> (r: Vec<char>)
    ensures
        r@ == uncommented(s@, 0),
{
    let open = text::to_chars("/*");
    let close = text::to_chars("*/");
    proof {
        reveal_strlit("/*");
        reveal_strlit("*/");
    }
    let mut out: Vec<char> = Vec::new();
    let mut from: usize = 0;
    loop
        invariant
            from <= s.len(),
            open@ == "/*"@,
            close@ == "*/"@,
            open@.len() == 2,
            close@.len() == 2,
            uncommented(s@, 0) == out@ + uncommented(s@, from as int),
        decreases s.len() - from,
    {
        match text::find(s, &open, from) {
            None => {
                text::push_all(&mut out, slice_subrange(s, from, s.len()));
                assert(s@.subrange(from as int, s@.len() as int) =~= s@.skip(from as int));
                return out;
            },
            Some(i) => {
                let ghost before = out@;
                text::push_all(&mut out, slice_subrange(s, from, i));
                match text::find(s, &close, i + 2) {
                    None => {
                        assert(out@ =~= before + uncommented(s@, from as int));
                        return out;
                    },
                    Some(j) => {
                        assert(before + uncommented(s@, from as int) =~= out@ + uncommented(
                            s@,
                            j + 2,
                        ));
                        from = j + 2;
                    },
                }
            },
        }
    }
}

fn is_hiding(declaration: &[char]) -> (r: bool)
    ensures
        r == hides(declaration@),
{
    let n: usize = text::before_char(declaration, ':');
    if n == declaration.len() {
        return false;
    }
    let property = slice_subrange(declaration, 0, n);
    let value = slice_subrange(declaration, n + 1, declaration.len());
    assert(property@ == declaration@.take(n as int));
    assert(value@ == declaration@.skip(n + 1));
    let m: usize = text::before_char(value, '!');
    let plain = slice_subrange(value, 0, m);
    assert(plain@ == value@.take(m as int));
    let display = text::to_chars("display");
    let none = text::to_chars("none");
    text::same_ci(text::trim(property), &display) && text::same_ci(text::trim(plain), &none)
}

fn has_hiding(declarations: &Vec<Vec<char>>) -> (r: bool)
    ensures
        r == any_hides(text::views(declarations@)),
{
    let ghost all = text::views(declarations@);
    let mut i: usize = 0;
    while i < declarations.len()
        invariant
            i <= declarations@.len(),
            all == text::views(declarations@),
            forall|j: int| 0 <= j < i ==> !hides(#[trigger] all[j]),
        decreases declarations@.len() - i,
    {
        assert(all[i as int] == declarations@[i as int]@);
        if is_hiding(&declarations[i]) {
            return true;
        }
        i += 1;
    }
    false
}

fn append_rule(out: &mut Vec<Vec<char>>, rule: &[char])
    ensures
        text::views(final(out)@) == text::views(old(out)@) + hidden_by_rule(rule@),
{
    let n: usize = text::before_char(rule, '{');
    if n == rule.len() {
        assert(text::views(out@) =~= text::views(old(out)@) + seq![]);
        return;
    }
    let block = slice_subrange(rule, n + 1, rule.len());
    assert(block@ == rule@.skip(n + 1));
    let declarations = text::split_char(block, ';');
    if !has_hiding(&declarations) {
        assert(text::views(out@) =~= text::views(old(out)@) + seq![]);
        return;
    }
    let selector = slice_subrange(rule, 0, n);
    assert(selector@ == rule@.take(n as int));
    let tokens = text::split_pieces(selector, text::Separator::CommaOrSpace);
    let ghost all = text::views(tokens@);
    let ghost start = text::views(out@);
    let mut i: usize = 0;
    assert(start =~= start + class_names(all.take(0)));
    while i < tokens.len()
        invariant
            i <= tokens@.len(),
            all == text::views(tokens@),
            text::views(out@) == start + class_names(all.take(i as int)),
        decreases tokens@.len() - i,
    {
        proof {
            let t = all.take(i + 1);
            assert(t.drop_last() =~= all.take(i as int));
            assert(t.last() == tokens@[i as int]@);
        }
        if tokens[i].len() > 1 && tokens[i][0] == '.' {
            let name = text::slice(&tokens[i], 1, tokens[i].len());
            assert(name@ =~= tokens@[i as int]@.drop_first());
            let ghost before = out@;
            out.push(name);
            assert(text::views(out@) =~= text::views(before).push(name@));
            assert(text::views(out@) =~= start + class_names(all.take(i + 1)));
        }
        i += 1;
    }
    assert(all.take(all.len() as int) =~= all);
}

/// The classes a page's style sheets mark as not displayed.
pub fn hidden_classes(sheets: &Vec<Found>) -> (r: Vec<Vec<char>>)
    ensures
        text::views(r@) == hidden_by_sheets(web::found_views(sheets@)),
{
    let ghost all = web::found_views(sheets@);
    let mut out: Vec<Vec<char>> = Vec::new();
    let mut i: usize = 0;
    while i < sheets.len()
        invariant
            i <= sheets@.len(),
            all == web::found_views(sheets@),
            text::views(out@) == hidden_by_sheets(all.take(i as int)),
        decreases sheets@.len() - i,
    {
        let sheet = text::to_chars(sheets[i].1.as_str());
        let css = drop_comments(&sheet);
        let rules = text::split_char(&css, '}');
        let ghost rs = text::views(rules@);
        let ghost start = text::views(out@);
        proof {
            let t = all.take(i + 1);
            assert(t.drop_last() =~= all.take(i as int));
            assert(t.last().1 == sheets@[i as int].1@);
            assert(start =~= start + hidden_by_rules(rs.take(0)));
        }
        let mut j: usize = 0;
        while j < rules.len()
            invariant
                j <= rules@.len(),
                rs == text::views(rules@),
                text::views(out@) == start + hidden_by_rules(rs.take(j as int)),
            decreases rules@.len() - j,
        {
            proof {
                let t = rs.take(j + 1);
                assert(t.drop_last() =~= rs.take(j as int));
                assert(t.last() == rules@[j as int]@);
            }
            append_rule(&mut out, &rules[j]);
            assert(text::views(out@) =~= start + hidden_by_rules(rs.take(j + 1)));
            j += 1;
        }
        assert(rs.take(rs.len() as int) =~= rs);
        i += 1;
    }
    assert(all.take(all.len() as int) =~= all);
    out
}

/// Whether an element carries one of these classes.
pub open spec fn carries(class: Option<Seq<char>>, hidden: Seq<Seq<char>>) -> bool {
    match class {
        Some(c) => exists|i: int|
            0 <= i < text::pieces(c, text::Separator::AsciiSpace).len() && hidden.contains(
                #[trigger] text::pieces(c, text::Separator::AsciiSpace)[i],
            ),
        None => false,
    }
}

fn is_listed(list: &Vec<Vec<char>>, name: &[char]) -> (r: bool)
    ensures
        r == text::views(list@).contains(name@),
{
    let ghost all = text::views(list@);
    let mut j: usize = 0;
    while j < list.len()
        invariant
            j <= list@.len(),
            all == text::views(list@),
            forall|k: int| 0 <= k < j ==> #[trigger] all[k] != name@,
        decreases list@.len() - j,
    {
        assert(all[j as int] == list@[j as int]@);
        if text::same_chars(&list[j], name) {
            return true;
        }
        j += 1;
    }
    false
}

fn carries_hidden(class: &Option<String>, hidden: &Vec<Vec<char>>) -> (r: bool)
    ensures
        r == carries(text::opt(*class), text::views(hidden@)),
{
    match class {
        None => false,
        Some(c) => {
            let v = text::to_chars(c.as_str());
            let names = text::split_pieces(&v, text::Separator::AsciiSpace);
            let ghost all = text::pieces(c@, text::Separator::AsciiSpace);
            let mut hit = false;
            let mut i: usize = 0;
            while i < names.len()
                invariant
                    i <= names@.len(),
                    all == text::views(names@),
                    hit == exists|j: int|
                        0 <= j < i && text::views(hidden@).contains(#[trigger] all[j]),
                decreases names@.len() - i,
            {
                assert(all[i as int] == names@[i as int]@);
                if is_listed(hidden, &names[i]) {
                    hit = true;
                }
                i += 1;
            }
            hit
        },
    }
}

/// The visible paragraphs, trimmed, without the blank ones.
pub open spec fn visible_prose(
    found: Seq<(Option<Seq<char>>, Seq<char>)>,
    hidden: Seq<Seq<char>>,
) -> Seq<Seq<char>>
    decreases found.len(),
{
    if found.len() == 0 {
        seq![]
    } else {
        let before = visible_prose(found.drop_last(), hidden);
        let t = text::trimmed(found.last().1);
        if carries(found.last().0, hidden) || t.len() == 0 {
            before
        } else {
            before.push(t)
        }
    }
}

/// The paragraphs that readers of the page see.
pub fn visible_paragraphs(found: &Vec<Found>, hidden: &Vec<Vec<char>>) -> (r: Vec<String>)
    ensures
        text::texts(r@) == visible_prose(web::found_views(found@), text::views(hidden@)),
{
    let ghost all = web::found_views(found@);
    let mut out: Vec<String> = Vec::new();
    let mut i: usize = 0;
    while i < found.len()
        invariant
            i <= found@.len(),
            all == web::found_views(found@),
            text::texts(out@) == visible_prose(all.take(i as int), text::views(hidden@)),
        decreases found@.len() - i,
    {
        proof {
            let t = all.take(i + 1);
            assert(t.drop_last() =~= all.take(i as int));
            assert(t.last() == (text::opt(found@[i as int].0), found@[i as int].1@));
        }
        if !carries_hidden(&found[i].0, hidden) {
            let v = text::to_chars(found[i].1.as_str());
            let t = text::trim(&v);
            if t.len() > 0 {
                let ghost before = out@;
                let s = text::to_text(t);
                out.push(s);
                assert(text::texts(out@) =~= text::texts(before).push(s@));
            }
        }
        i += 1;
    }
    assert(all.take(all.len() as int) =~= all);
    out
}

/// A chapter's visible paragraphs out of what its page holds.
pub open spec fn visible_body(
    sheets: source::Selection,
    found: Option<Option<Seq<(Option<Seq<char>>, Seq<char>)>>>,
) -> Result<Seq<Seq<char>>, Seq<char>> {
    let hidden = match sheets {
        Some(s) => hidden_by_sheets(s),
        None => seq![],
    };
    match found {
        Some(Some(v)) => if visible_prose(v, hidden).len() == 0 {
            Err("no paragraphs extracted from .chapter-inner"@)
        } else {
            Ok(visible_prose(v, hidden))
        },
        _ => Err("no .chapter-inner content container"@),
    }
}

pub fn parse_body(html: &str) -> (r: Result<Vec<String>, String>)
    ensures
        source::texts_view(r) == visible_body(
            web::selected(html@, "style"@, ""@),
            web::selected_within(html@, ".chapter-inner"@, "p"@, "class"@),
        ),
{
    let hidden = match web::select(html, "style", "") {
        Some(sheets) => hidden_classes(&sheets),
        None => {
            let none: Vec<Vec<char>> = Vec::new();
            assert(text::views(none@) =~= seq![]);
            none
        },
    };
    match web::select_within(html, ".chapter-inner", "p", "class") {
        Some(Some(v)) => {
            let out = visible_paragraphs(&v, &hidden);
            assert(text::texts(out@).len() == out@.len());
            if out.len() == 0 {
                return Err("no paragraphs extracted from .chapter-inner".to_string());
            }
            Ok(out)
        },
        _ => Err("no .chapter-inner content container".to_string()),
    }
}

impl<F> RoyalRoadSource<F> {
    pub fn new(fetcher: F) -> (r: Self)
        ensures
            r.fetcher == fetcher,
    {
        Self { fetcher }
    }

    pub fn name(&self) -> (r: &'static str)
        ensures
            r@ == "royalroad"@,
    {
        "royalroad"
    }

    pub fn matches(&self, url: &str) -> (r: bool)
        ensures
            r == source::has_host_www(url@, "royalroad.com"@),
    {
        source::is_host_www(&web::url_host(url), "royalroad.com")
    }

    /// A chapter out of its page.
    pub fn read_chapter(&self, html: &str, chapter: &ChapterRef) -> (r: Result<Chapter, String>)
        ensures
            source::chapter_result(r) == source::chapter_of(
                chapter.number,
                chapter.title@,
                visible_body(
                    web::selected(html@, "style"@, ""@),
                    web::selected_within(html@, ".chapter-inner"@, "p"@, "class"@),
                ),
            ),
    {
        match parse_body(html) {
            Ok(paragraphs) => Ok(
                Chapter { number: chapter.number, title: chapter.title.clone(), paragraphs },
            ),
            Err(e) => Err(e),
        }
    }
}

/// A paragraph that carries a hidden class never reaches the chapter.
pub proof fn law_decoys_are_dropped(
    found: Seq<(Option<Seq<char>>, Seq<char>)>,
    hidden: Seq<Seq<char>>,
    decoy: (Option<Seq<char>>, Seq<char>),
)
    requires
        carries(decoy.0, hidden),
    ensures
        visible_prose(found.push(decoy), hidden) == visible_prose(found, hidden),
{
    assert(found.push(decoy).drop_last() =~= found);
}

/// A paragraph that carries no hidden class and is not blank is in the chapter, trimmed, behind
/// the paragraphs before it. A blank one, or one with a hidden class, adds nothing.
pub proof fn law_visible_paragraphs_are_kept(
    found: Seq<(Option<Seq<char>>, Seq<char>)>,
    hidden: Seq<Seq<char>>,
    class: Seq<char>,
    t: Seq<char>,
    i: int,
)
    ensures
        visible_prose(seq![], hidden).len() == 0,
        text::trimmed(t).len() > 0 ==> visible_prose(found.push((None, t)), hidden)
            == visible_prose(found, hidden).push(text::trimmed(t)),
        text::trimmed(t).len() > 0 && (forall|j: int|
            0 <= j < text::pieces(class, text::Separator::AsciiSpace).len() ==> !hidden.contains(
                #[trigger] text::pieces(class, text::Separator::AsciiSpace)[j],
            )) ==> visible_prose(found.push((Some(class), t)), hidden) == visible_prose(
            found,
            hidden,
        ).push(text::trimmed(t)),
        text::trimmed(t).len() == 0 ==> visible_prose(found.push((Some(class), t)), hidden)
            == visible_prose(found, hidden) && visible_prose(found.push((None, t)), hidden)
            == visible_prose(found, hidden),
        0 <= i < text::pieces(class, text::Separator::AsciiSpace).len() && hidden.contains(
            text::pieces(class, text::Separator::AsciiSpace)[i],
        ) ==> visible_prose(found.push((Some(class), t)), hidden) == visible_prose(found, hidden),
{
    assert(found.push((None, t)).drop_last() =~= found);
    assert(found.push((Some(class), t)).drop_last() =~= found);
    if 0 <= i < text::pieces(class, text::Separator::AsciiSpace).len() && hidden.contains(
        text::pieces(class, text::Separator::AsciiSpace)[i],
    ) {
        lemma_carries(class, hidden, i);
    }
}

proof fn lemma_carries(class: Seq<char>, hidden: Seq<Seq<char>>, i: int)
    requires
        0 <= i < text::pieces(class, text::Separator::AsciiSpace).len(),
        hidden.contains(text::pieces(class, text::Separator::AsciiSpace)[i]),
    ensures
        carries(Some(class), hidden),
{
    let o: Option<Seq<char>> = Some(class);
    assert(o->0 == class);
    assert(0 <= i < text::pieces(o->0, text::Separator::AsciiSpace).len() && hidden.contains(
        text::pieces(o->0, text::Separator::AsciiSpace)[i],
    ));
    assert(carries(o, hidden) == exists|j: int|
        0 <= j < text::pieces(class, text::Separator::AsciiSpace).len() && hidden.contains(
            #[trigger] text::pieces(class, text::Separator::AsciiSpace)[j],
        ));
}

/// A chapter is all that is visible of its page, by the page's own style sheets.
pub proof fn law_a_chapter_is_what_is_visible(
    sheets: Seq<(Option<Seq<char>>, Seq<char>)>,
    v: Seq<(Option<Seq<char>>, Seq<char>)>,
)
    ensures
        visible_prose(v, hidden_by_sheets(sheets)).len() > 0 ==> visible_body(
            Some(sheets),
            Some(Some(v)),
        ) == Ok::<Seq<Seq<char>>, Seq<char>>(visible_prose(v, hidden_by_sheets(sheets))),
        visible_prose(v, hidden_by_sheets(sheets)).len() == 0 ==> visible_body(
            Some(sheets),
            Some(Some(v)),
        ) is Err,
        visible_prose(v, seq![]).len() > 0 ==> visible_body(None, Some(Some(v))) == Ok::<
            Seq<Seq<char>>,
            Seq<char>,
        >(visible_prose(v, seq![])),
        visible_body(Some(sheets), Some(None)) is Err,
        visible_body(Some(sheets), None) is Err,
{
}

/// A declaration hides where it sets `display` to `none`, in any ASCII case and with any white
/// space around either, marked important or not.
pub proof fn law_display_none_hides(
    a: Seq<char>,
    name: Seq<char>,
    b: Seq<char>,
    c: Seq<char>,
    value: Seq<char>,
    d: Seq<char>,
    mark: Seq<char>,
)
    requires
        forall|i: int| 0 <= i < a.len() ==> text::is_white(#[trigger] a[i]),
        forall|i: int| 0 <= i < b.len() ==> text::is_white(#[trigger] b[i]),
        forall|i: int| 0 <= i < c.len() ==> text::is_white(#[trigger] c[i]),
        forall|i: int| 0 <= i < d.len() ==> text::is_white(#[trigger] d[i]),
        text::lower(name) == "display"@,
        text::lower(value) == "none"@,
        mark.len() == 0 || mark[0] == '!',
    ensures
        hides(a + name + b + seq![':'] + (c + value + d + mark)),
{
    reveal_strlit("display");
    reveal_strlit("none");
    let left = a + name + b;
    let right = c + value + d + mark;
    let all = left + seq![':'] + right;
    assert(text::lower("display"@) =~= "display"@);
    assert(text::lower("none"@) =~= "none"@);
    assert(name.len() == 7 && value.len() == 4);
    assert forall|i: int| 0 <= i < 7 implies #[trigger] text::lower(name)[i]
        == text::ascii_lower(name[i]) by {}
    assert forall|i: int| 0 <= i < 4 implies #[trigger] text::lower(value)[i]
        == text::ascii_lower(value[i]) by {}
    assert(text::lower(name)[0] == 'd' && text::lower(name)[6] == 'y');
    assert(text::lower(value)[0] == 'n' && text::lower(value)[3] == 'e');
    assert(text::ascii_lower(name[0]) == 'd' && text::ascii_lower(name[6]) == 'y');
    assert(text::ascii_lower(value[0]) == 'n' && text::ascii_lower(value[3]) == 'e');
    text::law_trimming_undoes_padding(a, name, b);
    text::law_trimming_undoes_padding(c, value, d);
    assert forall|j: int| 0 <= j < left.len() implies text::not(':')(#[trigger] all[j]) by {
        if j < a.len() {
            assert(all[j] == a[j]);
        } else if j < a.len() + 7 {
            assert(all[j] == name[j - a.len()]);
            assert(text::ascii_lower(name[j - a.len()]) == "display"@[j - a.len()]);
        } else {
            assert(all[j] == b[j - a.len() - 7]);
        }
    }
    assert(all[left.len() as int] == ':');
    text::lemma_span_is(all, text::not(':'), left.len() as int);
    assert(all.take(left.len() as int) =~= left);
    let v = all.skip((left.len() + 1) as int);
    assert(v =~= right);
    let body = c + value + d;
    assert forall|j: int| 0 <= j < body.len() implies text::not('!')(#[trigger] right[j]) by {
        if j < c.len() {
            assert(right[j] == c[j]);
        } else if j < c.len() + 4 {
            assert(right[j] == value[j - c.len()]);
            assert(text::ascii_lower(value[j - c.len()]) == "none"@[j - c.len()]);
        } else {
            assert(right[j] == d[j - c.len() - 4]);
        }
    }
    if mark.len() > 0 {
        assert(right[body.len() as int] == mark[0]);
    }
    text::lemma_span_is(right, text::not('!'), body.len() as int);
    assert(right.take(body.len() as int) =~= body);
}

/// The classes of a rule are hidden where one of its declarations hides: each class selector of
/// the rule names one.
pub proof fn law_a_rule_hides_its_classes(
    selector: Seq<char>,
    declarations: Seq<char>,
    i: int,
    k: int,
)
    requires
        forall|j: int| 0 <= j < selector.len() ==> #[trigger] selector[j] != '{',
    ensures
        ({
            let rule = selector + seq!['{'] + declarations;
            let parts = text::pieces(selector, text::Separator::CommaOrSpace);
            &&& 0 <= i < text::split(declarations, ';').len() && hides(
                text::split(declarations, ';')[i],
            ) && 0 <= k < parts.len() && parts[k].len() > 1 && parts[k][0] == '.'
                ==> hidden_by_rule(rule).contains(parts[k].drop_first())
            &&& (forall|j: int|
                0 <= j < text::split(declarations, ';').len() ==> !hides(
                    #[trigger] text::split(declarations, ';')[j],
                )) ==> hidden_by_rule(rule).len() == 0
            &&& forall|x: Seq<char>| #[trigger]
                hidden_by_rule(rule).contains(x) ==> exists|p: int|
                    0 <= p < parts.len() && #[trigger] parts[p] == seq!['.'] + x
        }),
{
    let rule = selector + seq!['{'] + declarations;
    let parts = text::pieces(selector, text::Separator::CommaOrSpace);
    assert forall|j: int| 0 <= j < selector.len() implies text::not('{')(#[trigger] rule[j]) by {
        assert(rule[j] == selector[j]);
    }
    assert(rule[selector.len() as int] == '{');
    text::lemma_span_is(rule, text::not('{'), selector.len() as int);
    assert(rule.take(selector.len() as int) =~= selector);
    assert(rule.skip((selector.len() + 1) as int) =~= declarations);
    lemma_class_names(parts);
    if 0 <= i < text::split(declarations, ';').len() && hides(text::split(declarations, ';')[i]) {
        assert(any_hides(text::split(declarations, ';')));
        if 0 <= k < parts.len() && parts[k].len() > 1 && parts[k][0] == '.' {
            assert(class_names(parts).contains(parts[k].drop_first()));
        }
    }
}

proof fn lemma_class_names(tokens: Seq<Seq<char>>)
    ensures
        forall|k: int|
            0 <= k < tokens.len() && (#[trigger] tokens[k]).len() > 1 && tokens[k][0] == '.'
                ==> class_names(tokens).contains(tokens[k].drop_first()),
        forall|x: Seq<char>| #[trigger]
            class_names(tokens).contains(x) ==> exists|p: int|
                0 <= p < tokens.len() && #[trigger] tokens[p] == seq!['.'] + x,
    decreases tokens.len(),
{
    if tokens.len() > 0 {
        let before = tokens.drop_last();
        let t = tokens.last();
        let names = class_names(tokens);
        let less = class_names(before);
        lemma_class_names(before);
        assert forall|k: int|
            0 <= k < tokens.len() && (#[trigger] tokens[k]).len() > 1 && tokens[k][0]
                == '.' implies names.contains(tokens[k].drop_first()) by {
            if k < before.len() {
                assert(before[k] == tokens[k]);
                let j = choose|j: int| 0 <= j < less.len() && less[j] == tokens[k].drop_first();
                assert(names[j] == less[j]);
            } else {
                assert(names.last() == tokens[k].drop_first());
            }
        }
        assert forall|x: Seq<char>| #[trigger] names.contains(x) implies exists|p: int|
            0 <= p < tokens.len() && #[trigger] tokens[p] == seq!['.'] + x by {
            let j = choose|j: int| 0 <= j < names.len() && names[j] == x;
            if j < less.len() {
                assert(less[j] == x);
                assert(less.contains(x));
                let p = choose|p: int| 0 <= p < before.len() && #[trigger] before[p] == seq!['.']
                    + x;
                assert(tokens[p] == before[p]);
            } else {
                assert(tokens[tokens.len() - 1] =~= seq!['.'] + x);
            }
        }
    }
}

/// The hidden classes of a page are those that any rule of any of its style sheets hides.
pub proof fn law_every_sheet_and_rule_counts(
    sheets: Seq<(Option<Seq<char>>, Seq<char>)>,
    sheet: (Option<Seq<char>>, Seq<char>),
    rules: Seq<Seq<char>>,
    rule: Seq<char>,
    x: Seq<char>,
)
    ensures
        hidden_by_sheets(seq![]).len() == 0,
        hidden_by_rules(seq![]).len() == 0,
        hidden_by_sheets(sheets.push(sheet)).contains(x) <==> hidden_by_sheets(sheets).contains(x)
            || hidden_by_rules(text::split(uncommented(sheet.1, 0), '}')).contains(x),
        hidden_by_rules(rules.push(rule)).contains(x) <==> hidden_by_rules(rules).contains(x)
            || hidden_by_rule(rule).contains(x),
{
    assert(sheets.push(sheet).drop_last() =~= sheets);
    assert(rules.push(rule).drop_last() =~= rules);
    lemma_concat_contains(
        hidden_by_sheets(sheets),
        hidden_by_rules(text::split(uncommented(sheet.1, 0), '}')),
        x,
    );
    lemma_concat_contains(hidden_by_rules(rules), hidden_by_rule(rule), x);
}

proof fn lemma_concat_contains(a: Seq<Seq<char>>, b: Seq<Seq<char>>, x: Seq<char>)
    ensures
        (a + b).contains(x) <==> a.contains(x) || b.contains(x),
{
    if a.contains(x) {
        let i = choose|i: int| 0 <= i < a.len() && a[i] == x;
        assert((a + b)[i] == x);
    }
    if b.contains(x) {
        let i = choose|i: int| 0 <= i < b.len() && b[i] == x;
        assert((a + b)[a.len() + i] == x);
    }
    if (a + b).contains(x) {
        let i = choose|i: int| 0 <= i < (a + b).len() && (a + b)[i] == x;
        if i < a.len() {
            assert(a[i] == x);
        } else {
            assert(b[i - a.len()] == x);
        }
    }
}

/// A style sheet without comments is read as it stands; a comment is passed over.
pub proof fn law_comments_are_passed_over(s: Seq<char>, from: int, i: int, j: int)
    requires
        0 <= from,
    ensures
        (forall|k: int| from <= k ==> !text::occurs_at(s, seq!['/', '*'], k)) ==> uncommented(s, from)
            == s.skip(from),
        from <= i && i + 2 <= j && text::occurs_at(s, seq!['/', '*'], i) && text::occurs_at(
            s,
            seq!['*', '/'],
            j,
        ) && (forall|k: int| from <= k < i ==> !text::occurs_at(s, seq!['/', '*'], k)) && (forall|
            k: int,
        |
            i + 2 <= k < j ==> !text::occurs_at(s, seq!['*', '/'], k)) ==> uncommented(s, from)
            == s.subrange(from, i) + uncommented(s, j + 2),
{
    reveal_strlit("/*");
    reveal_strlit("*/");
    assert("/*"@ =~= seq!['/', '*']);
    assert("*/"@ =~= seq!['*', '/']);
    text::lemma_find_from(s, "/*"@, from);
    if from <= i && i + 2 <= j {
        text::lemma_find_from(s, "*/"@, i + 2);
    }
}

/// A title that opens with no digit is only trimmed; one that opens with "N." or "N:" and a space
/// loses that and keeps the rest.
pub proof fn law_titles_lose_their_numbering_alone(raw: Seq<char>, n: u32, c: char, name: Seq<char>)
    requires
        name.len() > 0,
        !text::is_white(name[0]),
        !text::is_white(name.last()),
        c == '.' || c == ':',
    ensures
        text::trimmed(raw).len() == 0 || !text::is_digit(text::trimmed(raw)[0]) ==> unnumbered(raw)
            == text::trimmed(raw),
        unnumbered(text::decimal(n as nat) + seq![c, ' '] + name) == name,
        unnumbered(text::decimal(n as nat) + seq![c] + name) == text::decimal(n as nat) + seq![c]
            + name,
{
    let d = text::decimal(n as nat);
    text::lemma_decimal(n as nat);
    if text::trimmed(raw).len() == 0 || !text::is_digit(text::trimmed(raw)[0]) {
        text::lemma_span_is(text::trimmed(raw), text::digits(), 0);
    }
    lemma_numbered(d, seq![c, ' '] + name);
    assert(d + (seq![c, ' '] + name) =~= d + seq![c, ' '] + name);
    let w = seq![' '] + name;
    assert((seq![c, ' '] + name).drop_first() =~= w);
    assert(w[1] == name[0]);
    text::lemma_span_is(w, text::white(), 1);
    assert(text::trimmed_start(w) =~= name);
    lemma_numbered(d, seq![c] + name);
    assert(d + (seq![c] + name) =~= d + seq![c] + name);
    assert((seq![c] + name)[1] == name[0]);
}

/// What becomes of a number and what follows it.
proof fn lemma_numbered(d: Seq<char>, rest: Seq<char>)
    requires
        d.len() > 0,
        text::all_digits(d),
        rest.len() > 1,
        rest[0] == '.' || rest[0] == ':',
        !text::is_white(rest.last()),
    ensures
        unnumbered(d + rest) == if text::is_white(rest[1]) && text::trimmed_start(
            rest.drop_first(),
        ).len() > 0 {
            text::trimmed_start(rest.drop_first())
        } else {
            d + rest
        },
{
    let t = d + rest;
    assert(text::is_digit(d[0]));
    assert(t[0] == d[0] && t.last() == rest.last());
    text::law_trimming_settles(t);
    assert forall|j: int| 0 <= j < d.len() implies text::digits()(#[trigger] t[j]) by {
        assert(t[j] == d[j] && text::is_digit(d[j]));
    }
    assert(t[d.len() as int] == rest[0]);
    text::lemma_span_is(t, text::digits(), d.len() as int);
    assert(t.skip(d.len() as int) =~= rest);
}

/// What follows the last bar of a document's title is not part of the novel's.
pub proof fn law_the_brand_is_left_out(name: Seq<char>, brand: Seq<char>)
    requires
        forall|i: int| 0 <= i < brand.len() ==> #[trigger] brand[i] != '|',
    ensures
        before_brand(name + seq!['|'] + brand) == text::trimmed(name),
        before_brand(brand) == brand,
{
    let t = name + seq!['|'] + brand;
    assert forall|j: int| t.len() - brand.len() <= j < t.len() implies text::not('|')(
        #[trigger] t[j],
    ) by {
        assert(t[j] == brand[j - name.len() - 1]);
    }
    assert(t[t.len() - 1 - brand.len()] == '|');
    text::lemma_span_back_is(t, text::not('|'), brand.len() as int);
    assert(t.take(t.len() - brand.len() - 1) =~= name);
    assert forall|j: int| 0 <= j < brand.len() implies text::not('|')(#[trigger] brand[j]) by {}
    text::lemma_span_back_is(brand, text::not('|'), brand.len() as int);
}

/// The first label that is a status word decides, whatever genre tags stand before it.
pub proof fn law_the_first_status_word_decides(
    labels: Seq<(Option<Seq<char>>, Seq<char>)>,
    i: int,
)
    requires
        0 <= i < labels.len(),
        source::status_of(labels[i].1) != NovelStatus::Unknown,
        forall|j: int|
            0 <= j < i ==> source::status_of((#[trigger] labels[j]).1) == NovelStatus::Unknown,
    ensures
        labelled(labels) == source::status_of(labels[i].1),
    decreases labels.len(),
{
    if i > 0 {
        assert(source::status_of(labels[0].1) == NovelStatus::Unknown);
        let rest = labels.drop_first();
        assert(rest[i - 1] == labels[i]);
        assert forall|j: int| 0 <= j < i - 1 implies source::status_of((#[trigger] rest[j]).1)
            == NovelStatus::Unknown by {
            assert(rest[j] == labels[j + 1]);
        }
        law_the_first_status_word_decides(rest, i - 1);
    }
}

/// The chapters of an embedded list are its visible entries with an address, in their order: each
/// gets the next number, its own title and its own address on the page's site.
pub proof fn law_entries_are_numbered_in_order(
    entries: Seq<JsonView>,
    entry: JsonView,
    base: Seq<char>,
    rel: Seq<char>,
    url: Seq<char>,
)
    ensures
        listed(seq![], base).len() == 0,
        !is_hidden(entry) && (entry.member("url"@) matches Some(v) && v.as_text() == Some(rel))
            && web::joined_url(base, rel) == Some(Some(url)) && listed(entries, base).len()
            < u32::MAX ==> {
            let all = listed(entries.push(entry), base);
            &&& all.len() == listed(entries, base).len() + 1
            &&& all.drop_last() == listed(entries, base)
            &&& all.last().number == all.len()
            &&& all.last().url == url
            &&& all.last().title == unnumbered(text_or_empty(entry.member("title"@)))
        },
        is_hidden(entry) || entry.member("url"@) is None ==> listed(entries.push(entry), base)
            == listed(entries, base),
{
    assert(entries.push(entry).drop_last() =~= entries);
    let all = listed(entries.push(entry), base);
    if entry_url(entry, base) is Some {
        assert(all.drop_last() =~= listed(entries, base));
    }
}

/// A list that is read stands for its chapters; without a visible one it is an error.
pub proof fn law_a_list_gives_all_its_chapters(
    v: JsonView,
    entries: Seq<JsonView>,
    host: Option<Seq<char>>,
    base: Seq<char>,
    e: Seq<char>,
)
    ensures
        v.as_array() == Some(entries) && listed(entries, base).len() > 0 ==> chapters_of(
            Some(Ok(v)),
            Ok(host),
            base,
        ) == Ok::<Seq<RefView>, Seq<char>>(listed(entries, base)),
        v.as_array() == Some(entries) && listed(entries, base).len() == 0 ==> chapters_of(
            Some(Ok(v)),
            Ok(host),
            base,
        ) is Err,
        v.as_array() is None ==> chapters_of(Some(Ok(v)), Ok(host), base) is Err,
        chapters_of(None, Ok(host), base) is Err,
        chapters_of(Some(Err(e)), Ok(host), base) is Err,
        chapters_of(Some(Ok(v)), Err(e), base) is Err,
{
}

/// A fiction's title is the page's tag, or else the document's title without the site's name, or
/// else the first heading; its author is the one credited to Twitter, or else the first profile
/// linked to.
pub proof fn law_titles_and_authors_are_looked_for_in_order(html: Seq<char>, t: Seq<char>)
    ensures
        source::property_of(html, "og:title"@) == Some(t) ==> title_on(html) == Some(
            text::trimmed(t),
        ),
        source::property_of(html, "og:title"@) is None && source::text_at(html, "title"@) == Some(t)
            ==> title_on(html) == Some(before_brand(t)),
        source::property_of(html, "og:title"@) is None && source::text_at(html, "title"@) is None
            ==> title_on(html) == source::text_at(html, "h1"@),
        source::first_attr(web::selected(html, "meta[name=\"twitter:creator\"]"@, "content"@))
            == Some(t) ==> author_on(html) == Some(text::trimmed(t)),
        source::first_attr(web::selected(html, "meta[name=\"twitter:creator\"]"@, "content"@))
            is None ==> author_on(html) == source::text_at(html, "a[href^=\"/profile/\"]"@),
{
}

/// The list embedded in a page starts at the first bracket behind its name.
pub proof fn law_the_list_starts_at_its_bracket(html: Seq<char>, i: int, j: int)
    requires
        text::occurs_at(html, "window.chapters"@, i),
        forall|k: int| 0 <= k < i ==> !text::occurs_at(html, "window.chapters"@, k),
    ensures
        i <= j < html.len() && html[j] == '[' && (forall|k: int| i <= k < j ==> html[k] != '[')
            ==> list_text(html) == Ok::<Seq<char>, Seq<char>>(html.skip(j)),
        (forall|k: int| i <= k < html.len() ==> html[k] != '[') ==> list_text(html) is Err,
{
    text::lemma_find_from(html, "window.chapters"@, 0);
    assert(text::find_from(html, "window.chapters"@, 0) == Some(i));
    let after = html.skip(i);
    if i <= j < html.len() && html[j] == '[' && (forall|k: int| i <= k < j ==> html[k] != '[') {
        assert forall|k: int| 0 <= k < j - i implies text::not('[')(#[trigger] after[k]) by {
            assert(after[k] == html[i + k]);
        }
        assert(after[j - i] == html[j]);
        text::lemma_span_is(after, text::not('['), j - i);
        assert(after.skip(j - i) =~= html.skip(j));
    }
    if forall|k: int| i <= k < html.len() ==> html[k] != '[' {
        assert forall|k: int| 0 <= k < after.len() implies text::not('[')(#[trigger] after[k]) by {
            assert(after[k] == html[i + k]);
        }
        text::lemma_span_is(after, text::not('['), after.len() as int);
    }
}

/// An entry is hidden where it says that it is not visible, and only there.
pub proof fn law_hidden_entries_say_so(entry: JsonView)
    ensures
        entry.member("visible"@) == Some(JsonView::Number(text::decimal(0))) ==> is_hidden(entry),
        entry.member("visible"@) is None ==> !is_hidden(entry),
        entry.member("visible"@) == Some(JsonView::Number(text::decimal(1))) ==> !is_hidden(entry),
{
    json::law_whole_numbers_are_read(0);
    json::law_whole_numbers_are_read(1);
}

/// A number in front that no dot or colon follows is part of the title, and so is one that is all
/// there is.
pub proof fn law_other_numbers_stay(n: u32, tail: Seq<char>)
    requires
        tail.len() > 0 ==> !text::is_digit(tail[0]) && tail[0] != '.' && tail[0] != ':'
            && !text::is_white(tail.last()),
    ensures
        unnumbered(text::decimal(n as nat) + tail) == text::decimal(n as nat) + tail,
{
    let d = text::decimal(n as nat);
    let t = d + tail;
    text::lemma_decimal(n as nat);
    assert(text::is_digit(d[0]) && text::is_digit(d.last()));
    assert(t[0] == d[0]);
    if tail.len() > 0 {
        assert(t.last() == tail.last());
        assert(t[d.len() as int] == tail[0]);
    } else {
        assert(t =~= d);
    }
    text::law_trimming_settles(t);
    assert forall|j: int| 0 <= j < d.len() implies text::digits()(#[trigger] t[j]) by {
        assert(t[j] == d[j] && text::is_digit(d[j]));
    }
    text::lemma_span_is(t, text::digits(), d.len() as int);
    assert(t.skip(d.len() as int) =~= tail);
}

/// However much white space follows the dot or the colon of a numbering, the name behind it is the
/// title.
pub proof fn law_white_space_behind_a_numbering_goes(n: u32, c: char, ws: Seq<char>, name: Seq<char>)
    requires
        name.len() > 0,
        !text::is_white(name[0]),
        !text::is_white(name.last()),
        c == '.' || c == ':',
        ws.len() > 0,
        forall|i: int| 0 <= i < ws.len() ==> text::is_white(#[trigger] ws[i]),
    ensures
        unnumbered(text::decimal(n as nat) + seq![c] + ws + name) == name,
{
    let d = text::decimal(n as nat);
    text::lemma_decimal(n as nat);
    let rest = seq![c] + ws + name;
    assert(d + rest =~= d + seq![c] + ws + name);
    assert(rest[1] == ws[0]);
    assert(rest.last() == name.last());
    lemma_numbered(d, rest);
    let w = rest.drop_first();
    assert(w =~= ws + name);
    assert forall|j: int| 0 <= j < ws.len() implies text::white()(#[trigger] w[j]) by {
        assert(w[j] == ws[j]);
    }
    assert(w[ws.len() as int] == name[0]);
    text::lemma_span_is(w, text::white(), ws.len() as int);
    assert(text::trimmed_start(w) =~= name);
}

/// What an unclosed comment covers is not read.
pub proof fn law_an_unclosed_comment_covers_the_rest(s: Seq<char>, from: int, i: int)
    requires
        0 <= from <= i,
        text::occurs_at(s, seq!['/', '*'], i),
        forall|k: int| from <= k < i ==> !text::occurs_at(s, seq!['/', '*'], k),
        forall|k: int| i + 2 <= k ==> !text::occurs_at(s, seq!['*', '/'], k),
    ensures
        uncommented(s, from) == s.subrange(from, i),
{
    reveal_strlit("/*");
    reveal_strlit("*/");
    assert("/*"@ =~= seq!['/', '*']);
    assert("*/"@ =~= seq!['*', '/']);
    text::lemma_find_from(s, "/*"@, from);
    text::lemma_find_from(s, "*/"@, i + 2);
    assert(s.subrange(from, i) + Seq::<char>::empty() =~= s.subrange(from, i));
}

/// A declaration hides where its name is `display` and its value `none`, and nowhere else.
pub proof fn law_nothing_else_hides(left: Seq<char>, value: Seq<char>, mark: Seq<char>)
    requires
        forall|i: int| 0 <= i < left.len() ==> #[trigger] left[i] != ':',
        forall|i: int| 0 <= i < value.len() ==> #[trigger] value[i] != '!',
        mark.len() == 0 || mark[0] == '!',
    ensures
        hides(left + seq![':'] + value + mark) <==> text::lower(text::trimmed(left)) == "display"@
            && text::lower(text::trimmed(value)) == "none"@,
        !hides(left),
{
    reveal_strlit("display");
    reveal_strlit("none");
    assert(text::lower("display"@) =~= "display"@);
    assert(text::lower("none"@) =~= "none"@);
    let all = left + seq![':'] + value + mark;
    assert forall|j: int| 0 <= j < left.len() implies text::not(':')(#[trigger] all[j]) by {
        assert(all[j] == left[j]);
    }
    assert(all[left.len() as int] == ':');
    text::lemma_span_is(all, text::not(':'), left.len() as int);
    assert(all.take(left.len() as int) =~= left);
    let v = all.skip((left.len() + 1) as int);
    assert(v =~= value + mark);
    assert forall|j: int| 0 <= j < value.len() implies text::not('!')(#[trigger] v[j]) by {
        assert(v[j] == value[j]);
    }
    if mark.len() > 0 {
        assert(v[value.len() as int] == mark[0]);
    }
    text::lemma_span_is(v, text::not('!'), value.len() as int);
    assert(v.take(value.len() as int) =~= value);
    assert forall|j: int| 0 <= j < left.len() implies text::not(':')(#[trigger] left[j]) by {}
    text::lemma_span_is(left, text::not(':'), left.len() as int);
}

/// An entry is hidden only where its `visible` is the number zero.
pub proof fn law_only_a_zero_hides_an_entry(entry: JsonView)
    ensures
        is_hidden(entry) ==> (entry.member("visible"@) matches Some(v) && v is Number && v.as_u64()
            == Some(0nat)),
{
}

} // verus!
