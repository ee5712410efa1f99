//! EPUB packaging.
//!
//! Chapters are rendered to clean, reconstructed XHTML (our own `<p>` elements
//! around extracted text rather than site HTML passed through), which keeps the
//! EPUB valid regardless of the source markup.

use epub_builder::{EpubBuilder, EpubContent, EpubVersion, ReferenceType, ZipLibrary};
use vstd::prelude::*;
use vstd::slice::slice_subrange;

use crate::model::{Chapter, ChapterView, MetaView, NovelMeta};
use crate::text;
use crate::web;

verus! {

// ---------------------------------------------------------------------------
// Covers
// ---------------------------------------------------------------------------

/// A cover image to embed: raw bytes plus its MIME type.
#[derive(Debug)]
pub struct Cover {
    pub bytes: Vec<u8>,
    pub mime: String,
}

/// A [`Cover`] as plain values.
#[verifier::ext_equal]
pub struct CoverView {
    pub bytes: Seq<u8>,
    pub mime: Seq<char>,
}

impl View for Cover {
    type V = CoverView;

    open spec fn view(&self) -> CoverView {
        CoverView { bytes: self.bytes@, mime: self.mime@ }
    }
}

/// The image type a `Content-Type` header states, or else JPEG.
pub open spec fn image_type(header: Option<Seq<char>>) -> Seq<char> {
    match header {
        Some(h) => {
            let t = text::trimmed(h.take(text::span(h, text::not(';'))));
            if text::occurs_at(t, "image/"@, 0) {
                t
            } else {
                "image/jpeg"@
            }
        },
        None => "image/jpeg"@,
    }
}

/// A downloaded cover, unless there is nothing in it.
pub fn cover_from(bytes: Vec<u8>, content_type: Option<&str>) -> (r: Option<Cover>)
    ensures
        r is Some == (bytes@.len() > 0),
        r matches Some(c) ==> c@ == (CoverView {
            bytes: bytes@,
            mime: image_type(crate::paths::opt_str(content_type)),
        }),
{
    if bytes.len() == 0 {
        return None;
    }
    if let Some(h) = content_type {
        let v = text::to_chars(h);
        let n: usize = text::before_char(&v, ';');
        let head = slice_subrange(v.as_slice(), 0, n);
        assert(head@ == v@.take(n as int));
        let t = text::trim(head);
        let image = text::to_chars("image/");
        if text::occurs(t, &image, 0) {
            return Some(Cover { bytes, mime: text::to_text(t) });
        }
    }
    Some(Cover { bytes, mime: "image/jpeg".to_string() })
}

/// The file name of a cover inside the book.
pub open spec fn cover_file(mime: Seq<char>) -> Seq<char> {
    if mime == "image/png"@ {
        "cover.png"@
    } else if mime == "image/webp"@ {
        "cover.webp"@
    } else if mime == "image/gif"@ {
        "cover.gif"@
    } else {
        "cover.jpg"@
    }
}

pub fn cover_filename(mime: &str) -> (r: &'static str)
    ensures
        r@ == cover_file(mime@),
{
    if text::same(mime, "image/png") {
        "cover.png"
    } else if text::same(mime, "image/webp") {
        "cover.webp"
    } else if text::same(mime, "image/gif") {
        "cover.gif"
    } else {
        "cover.jpg"
    }
}

// ---------------------------------------------------------------------------
// Rendering
// ---------------------------------------------------------------------------

/// A character as XHTML writes it.
pub open spec fn escaped_char(c: char) -> Seq<char> {
    if c == '&' {
        "&amp;"@
    } else if c == '<' {
        "&lt;"@
    } else if c == '>' {
        "&gt;"@
    } else {
        seq![c]
    }
}

pub open spec fn escaped(s: Seq<char>) -> Seq<char>
    decreases s.len(),
{
    if s.len() == 0 {
        seq![]
    } else {
        escaped(s.drop_last()) + escaped_char(s.last())
    }
}

fn push_escaped(out: &mut Vec<char>, s: &str)
    ensures
        final(out)@ == old(out)@ + escaped(s@),
{
    let v = text::to_chars(s);
    let ghost before = out@;
    let mut i: usize = 0;
    assert(before + escaped(v@.take(0)) =~= before);
    while i < v.len()
        invariant
            i <= v@.len(),
            out@ == before + escaped(v@.take(i as int)),
        decreases v@.len() - i,
    {
        proof {
            let t = v@.take(i + 1);
            assert(t.drop_last() =~= v@.take(i as int));
            assert(t.last() == v@[i as int]);
        }
        let c = v[i];
        let ghost prev = out@;
        if c == '&' {
            text::push_str(out, "&amp;");
        } else if c == '<' {
            text::push_str(out, "&lt;");
        } else if c == '>' {
            text::push_str(out, "&gt;");
        } else {
            out.push(c);
        }
        assert(out@ =~= prev + escaped_char(c));
        assert(out@ =~= before + escaped(v@.take(i + 1)));
        i += 1;
    }
    assert(v@.take(v@.len() as int) =~= v@);
}

pub fn escape(s: &str) -> (r: String)
    ensures
        r@ == escaped(s@),
{
    let mut v: Vec<char> = Vec::new();
    push_escaped(&mut v, s);
    assert(v@ =~= escaped(s@));
    text::to_text(&v)
}

/// Escaped text holds no angle bracket, so it cannot open or close a tag.
pub proof fn law_escaped_text_has_no_brackets(s: Seq<char>, i: int)
    requires
        0 <= i < escaped(s).len(),
    ensures
        escaped(s)[i] != '<' && escaped(s)[i] != '>',
    decreases s.len(),
{
    reveal_strlit("&amp;");
    reveal_strlit("&lt;");
    reveal_strlit("&gt;");
    if s.len() > 0 {
        let front = escaped(s.drop_last());
        if i < front.len() {
            law_escaped_text_has_no_brackets(s.drop_last(), i);
        }
    }
}

/// A body in an XHTML document with an escaped `<title>`.
pub open spec fn document(title: Seq<char>, body: Seq<char>) -> Seq<char> {
    "<?xml version=\"1.0\" encoding=\"UTF-8\"?>\n<html xmlns=\"http://www.w3.org/1999/xhtml\"><head><title>"@
        + escaped(title) + "</title></head><body>"@ + body + "</body></html>"@
}

fn wrap_xhtml(title: &str, body: &[char]) -> (r: String)
    ensures
        r@ == document(title@, body@),
{
    let mut v = text::to_chars(
        "<?xml version=\"1.0\" encoding=\"UTF-8\"?>\n<html xmlns=\"http://www.w3.org/1999/xhtml\"><head><title>",
    );
    push_escaped(&mut v, title);
    text::push_str(&mut v, "</title></head><body>");
    text::push_all(&mut v, body);
    text::push_str(&mut v, "</body></html>");
    text::to_text(&v)
}

pub open spec fn paragraphs_xhtml(paragraphs: Seq<Seq<char>>) -> Seq<char>
    decreases paragraphs.len(),
{
    if paragraphs.len() == 0 {
        seq![]
    } else {
        paragraphs_xhtml(paragraphs.drop_last()) + "<p>"@ + escaped(paragraphs.last()) + "</p>\n"@
    }
}

/// A chapter's page: its heading, then its paragraphs.
pub open spec fn chapter_page(heading: Seq<char>, paragraphs: Seq<Seq<char>>) -> Seq<char> {
    document(
        heading,
        "<h1>"@ + escaped(heading) + "</h1>\n"@ + paragraphs_xhtml(paragraphs),
    )
}

pub fn render_chapter_xhtml(heading: &str, ch: &Chapter) -> (r: String)
    ensures
        r@ == chapter_page(heading@, ch@.paragraphs),
{
    let mut body = text::to_chars("<h1>");
    push_escaped(&mut body, heading);
    text::push_str(&mut body, "</h1>\n");
    let ghost head = body@;
    let ghost all = text::texts(ch.paragraphs@);
    let mut i: usize = 0;
    assert(head + paragraphs_xhtml(all.take(0)) =~= head);
    while i < ch.paragraphs.len()
        invariant
            i <= ch.paragraphs@.len(),
            all == text::texts(ch.paragraphs@),
            body@ == head + paragraphs_xhtml(all.take(i as int)),
        decreases ch.paragraphs@.len() - i,
    {
        proof {
            let t = all.take(i + 1);
            assert(t.drop_last() =~= all.take(i as int));
            assert(t.last() == ch.paragraphs@[i as int]@);
        }
        text::push_str(&mut body, "<p>");
        push_escaped(&mut body, ch.paragraphs[i].as_str());
        text::push_str(&mut body, "</p>\n");
        assert(body@ =~= head + paragraphs_xhtml(all.take(i + 1)));
        i += 1;
    }
    assert(all.take(all.len() as int) =~= all);
    assert(body@ =~= "<h1>"@ + escaped(heading@) + "</h1>\n"@ + paragraphs_xhtml(all));
    wrap_xhtml(heading, &body)
}

// ---------------------------------------------------------------------------
// The notice of missing chapters
// ---------------------------------------------------------------------------

/// How many numbers at the front are at most `n`.
pub open spec fn not_above(s: Seq<u32>, n: u32) -> int
    decreases s.len(),
{
    if s.len() > 0 && s[0] <= n {
        1 + not_above(s.drop_first(), n)
    } else {
        0
    }
}

/// The numbers in rising order.
pub open spec fn rising(s: Seq<u32>) -> Seq<u32>
    decreases s.len(),
{
    if s.len() == 0 {
        seq![]
    } else {
        let before = rising(s.drop_last());
        before.insert(not_above(before, s.last()), s.last())
    }
}

proof fn lemma_not_above(s: Seq<u32>, n: u32, k: int)
    requires
        0 <= k <= s.len(),
        forall|j: int| 0 <= j < k ==> #[trigger] s[j] <= n,
        k < s.len() ==> s[k] > n,
    ensures
        not_above(s, n) == k,
    decreases s.len(),
{
    if k > 0 {
        let t = s.drop_first();
        assert forall|j: int| 0 <= j < k - 1 implies #[trigger] t[j] <= n by {
            assert(t[j] == s[j + 1]);
        }
        lemma_not_above(t, n, k - 1);
    }
}

pub fn sort_numbers(v: &[u32]) -> (r: Vec<u32>)
    ensures
        r@ == rising(v@),
        r@.len() == v@.len(),
{
    let mut out: Vec<u32> = Vec::new();
    let mut i: usize = 0;
    while i < v.len()
        invariant
            i <= v@.len(),
            out@ == rising(v@.take(i as int)),
            out@.len() == i,
        decreases v@.len() - i,
    {
        let n: u32 = v[i];
        proof {
            let t = v@.take(i + 1);
            assert(t.drop_last() =~= v@.take(i as int));
            assert(t.last() == n);
        }
        let mut k: usize = 0;
        while k < out.len() && out[k] <= n
            invariant
                k <= out@.len(),
                forall|j: int| 0 <= j < k ==> #[trigger] out@[j] <= n,
            decreases out@.len() - k,
        {
            k += 1;
        }
        proof {
            lemma_not_above(out@, n, k as int);
        }
        out.insert(k, n);
        i += 1;
    }
    assert(v@.take(v@.len() as int) =~= v@);
    out
}

pub open spec fn decimals(s: Seq<u32>) -> Seq<Seq<char>> {
    s.map_values(|n: u32| text::decimal(n as nat))
}

/// The numbers in decimal, with `sep` between neighbours.
pub fn join_numbers(v: &[u32], sep: &str) -> (r: Vec<char>)
    ensures
        r@ == text::join(decimals(v@), sep@),
{
    let mut parts: Vec<Vec<char>> = Vec::new();
    let mut i: usize = 0;
    while i < v.len()
        invariant
            i <= v@.len(),
            text::views(parts@) == decimals(v@).take(i as int),
        decreases v@.len() - i,
    {
        let ghost before = parts@;
        parts.push(text::decimal_chars(v[i] as u64));
        assert(text::views(parts@) =~= text::views(before).push(text::decimal(v@[i as int] as nat)));
        i += 1;
    }
    assert(decimals(v@).take(v@.len() as int) =~= decimals(v@));
    text::join_chars(&parts, sep)
}

pub open spec fn notice_body(source: Seq<char>, gaps: Seq<u32>) -> Seq<char> {
    "<h1>Missing Chapters</h1>\n<p>"@ + text::decimal(gaps.len()) + (if gaps.len() == 1 {
        " chapter is"@
    } else {
        " chapters are"@
    }) + " not included in this book because "@ + escaped(source)
        + " did not provide it (the chapter URL returned “not found”). This is usually a gap in the source's own numbering, but it may be a genuinely missing chapter.</p>\n<p>Unavailable chapter number(s): "@
        + escaped(text::join(decimals(rising(gaps)), ", "@))
        + ".</p>\n<p>If the chapter reappears at the source, or you add an alternate source for this novel, it will be filled in automatically on a later sync.</p>"@
}

/// The page that says which chapters a book lacks.
pub open spec fn notice_page(
    host: Result<Option<Seq<char>>, Seq<char>>,
    gaps: Seq<u32>,
) -> Seq<char> {
    document(
        "Missing Chapters"@,
        notice_body(
            match host {
                Ok(Some(h)) => h,
                _ => "the source"@,
            },
            gaps,
        ),
    )
}

/// Front-matter page listing chapters the source couldn't provide, for a source
/// with this host.
pub fn render_gap_notice(host: &Result<Option<String>, String>, gaps: &[u32]) -> (r: String)
    ensures
        r@ == notice_page(web::host_view(*host), gaps@),
{
    let sorted = sort_numbers(gaps);
    let list = join_numbers(&sorted, ", ");
    let list_text = text::to_text(&list);
    let source = match host {
        Ok(Some(h)) => h.clone(),
        _ => "the source".to_string(),
    };
    let mut v = text::to_chars("<h1>Missing Chapters</h1>\n<p>");
    let n = text::decimal_chars(gaps.len() as u64);
    text::push_all(&mut v, &n);
    if gaps.len() == 1 {
        text::push_str(&mut v, " chapter is");
    } else {
        text::push_str(&mut v, " chapters are");
    }
    text::push_str(&mut v, " not included in this book because ");
    push_escaped(&mut v, source.as_str());
    text::push_str(
        &mut v,
        " did not provide it (the chapter URL returned “not found”). This is usually a gap in the source's own numbering, but it may be a genuinely missing chapter.</p>\n<p>Unavailable chapter number(s): ",
    );
    push_escaped(&mut v, list_text.as_str());
    text::push_str(
        &mut v,
        ".</p>\n<p>If the chapter reappears at the source, or you add an alternate source for this novel, it will be filled in automatically on a later sync.</p>",
    );
    wrap_xhtml("Missing Chapters", &v)
}

// ---------------------------------------------------------------------------
// The book
// ---------------------------------------------------------------------------

/// What part of the book a page belongs to.
#[derive(Clone, Copy, Debug, PartialEq, Eq, Structural)]
pub enum PageKind {
    Preface,
    Text,
}

/// A file of a book.
#[verifier::ext_equal]
pub enum Entry {
    Cover { file: Seq<char>, bytes: Seq<u8>, mime: Seq<char> },
    Page { file: Seq<char>, title: Seq<char>, kind: PageKind, xhtml: Seq<char> },
}

/// What a book holds: its metadata, and its files in order.
#[verifier::ext_equal]
pub struct BookView {
    pub epub3: bool,
    pub title: Seq<char>,
    pub authors: Seq<Seq<char>>,
    pub subjects: Seq<Seq<char>>,
    pub languages: Seq<Seq<char>>,
    pub entries: Seq<Entry>,
}

/// A list of metadata values with one more; an empty value clears the list.
pub open spec fn with_value(values: Seq<Seq<char>>, value: Seq<char>) -> Seq<Seq<char>> {
    if value.len() == 0 {
        seq![]
    } else {
        values.push(value)
    }
}

impl BookView {
    pub open spec fn empty() -> BookView {
        BookView {
            epub3: false,
            title: seq![],
            authors: seq![],
            subjects: seq![],
            languages: seq![],
            entries: seq![],
        }
    }

    pub open spec fn with_metadata(self, key: Seq<char>, value: Seq<char>) -> BookView {
        if key == "title"@ {
            BookView { title: value, ..self }
        } else if key == "author"@ {
            BookView { authors: with_value(self.authors, value), ..self }
        } else if key == "subject"@ {
            BookView { subjects: with_value(self.subjects, value), ..self }
        } else {
            BookView { languages: with_value(self.languages, value), ..self }
        }
    }

    pub open spec fn with_entry(self, entry: Entry) -> BookView {
        BookView { entries: self.entries.push(entry), ..self }
    }
}

/// The name of a file of a book.
pub open spec fn file_of(entry: Entry) -> Seq<char> {
    match entry {
        Entry::Cover { file, .. } => file,
        Entry::Page { file, .. } => file,
    }
}

/// Whether a name is short, and made of ASCII letters, digits, dots, hyphens and
/// underscores alone.
pub open spec fn is_plain_name(file: Seq<char>) -> bool {
    &&& 0 < file.len() <= 64
    &&& forall|i: int|
        0 <= i < file.len() ==> text::is_ascii_letter(#[trigger] file[i]) || text::is_digit(file[i])
            || file[i] == '.' || file[i] == '-' || file[i] == '_'
}

pub open spec fn has_file(b: BookView, file: Seq<char>) -> bool {
    exists|i: int| 0 <= i < b.entries.len() && file_of(#[trigger] b.entries[i]) == file
}

/// Whether a file's content is far from what an archive can take of one file, 4 GiB, even
/// if every character takes four bytes.
pub open spec fn is_small(entry: Entry) -> bool {
    match entry {
        Entry::Cover { bytes, .. } => bytes.len() < 0x1000_0000,
        Entry::Page { xhtml, .. } => xhtml.len() < 0x1000_0000,
    }
}

pub open spec fn all_small(entries: Seq<Entry>) -> bool {
    forall|i: int| 0 <= i < entries.len() ==> is_small(#[trigger] entries[i])
}

/// Whether a book has room for one more file: its own files and that one are small, and
/// none of them has its name.
pub open spec fn has_room(b: BookView, entry: Entry) -> bool {
    all_small(b.entries) && is_small(entry) && !has_file(b, file_of(entry))
}

/// Whether what a book says of a file, besides its content, is short.
pub open spec fn is_brief(entry: Entry) -> bool {
    match entry {
        Entry::Cover { mime, .. } => mime.len() <= 1_000,
        Entry::Page { title, .. } => title.len() <= 1_000,
    }
}

pub open spec fn is_brief_list(values: Seq<Seq<char>>) -> bool {
    values.len() <= 10 && forall|i: int|
        0 <= i < values.len() ==> (#[trigger] values[i]).len() <= 1_000_000
}

/// Whether the listings of a book, its manifest and its tables of contents, stay far from
/// what an archive can take of one file.
pub open spec fn is_modest(b: BookView) -> bool {
    &&& b.entries.len() <= 100_000
    &&& forall|i: int| 0 <= i < b.entries.len() ==> is_brief(#[trigger] b.entries[i])
    &&& b.title.len() <= 1_000_000
    &&& is_brief_list(b.authors)
    &&& is_brief_list(b.subjects)
    &&& is_brief_list(b.languages)
}

/// Whether a book has a file under a name that is kept for one of its listings, or for its
/// style sheet.
pub open spec fn takes_kept_name(b: BookView) -> bool {
    has_file(b, "stylesheet.css"@) || has_file(b, "content.opf"@) || has_file(b, "toc.ncx"@)
        || has_file(b, "nav.xhtml"@)
}

/// `epub_builder::ZipLibrary`, the archive a book is packed into.
#[verifier::external_type_specification]
#[verifier::external_body]
pub struct ExZipLibrary(ZipLibrary);

/// A book under construction, held by `epub_builder::EpubBuilder`. Its contents are
/// [`held`].
#[verifier::external_body]
pub struct Draft {
    builder: EpubBuilder<ZipLibrary>,
}

/// What an `epub_builder::EpubBuilder` holds.
pub uninterp spec fn held(draft: Draft) -> BookView;

/// Whether `epub_builder::EpubBuilder::generate` can give these bytes for a builder that
/// holds `book`.
pub uninterp spec fn packed(bytes: Seq<u8>, book: BookView) -> bool;

/// `epub_builder::ZipLibrary::new`: an archive with nothing but the EPUB media type in
/// it. It is made in memory, and the one file it starts with is short, so it does not fail.
#[verifier::external_body]
fn new_archive() -> (r: Result<ZipLibrary, String>)
    ensures
        r is Ok,
{
    ZipLibrary::new().map_err(|e| e.to_string())
}

/// `epub_builder::EpubBuilder::new`: a builder without metadata and without files. The
/// version it starts with is EPUB 2. It writes two short files of fixed names, which an
/// archive takes as `epub_builder::ZipLibrary::new` made it, and there is no other kind.
#[verifier::external_body]
fn new_draft(archive: ZipLibrary) -> (r: Result<Draft, String>)
    ensures
        r is Ok,
        r matches Ok(d) ==> held(d) == BookView::empty(),
{
    EpubBuilder::new(archive).map(|builder| Draft { builder }).map_err(|e| e.to_string())
}

/// `epub_builder::EpubBuilder::epub_version` with EPUB 3.0.1: changes the version alone.
#[verifier::external_body]
fn use_epub3(draft: &mut Draft)
    ensures
        held(*final(draft)) == (BookView { epub3: true, ..held(*old(draft)) }),
{
    draft.builder.epub_version(EpubVersion::V30);
}

/// `epub_builder::EpubBuilder::metadata`, which cannot fail on these keys: the title is
/// replaced; an author, subject or language is added, and an empty one clears the list.
#[verifier::external_body]
fn set_metadata(draft: &mut Draft, key: &str, value: &str) -> (r: Result<(), String>)
    requires
        key@ == "title"@ || key@ == "author"@ || key@ == "subject"@ || key@ == "lang"@,
    ensures
        r is Ok,
        held(*final(draft)) == held(*old(draft)).with_metadata(key@, value@),
{
    draft.builder.metadata(key, value).map(|_| ()).map_err(|e| e.to_string())
}

/// `epub_builder::EpubBuilder::add_cover_image`: adds the image as the last file so far.
/// The archive is in memory, so it fails for a name that is in it already and for content
/// of about 4 GiB alone, of this file or of the one before it, whose header is completed
/// here. Then the error's text comes back, and what the builder holds is left open. The
/// name must not be too long for a header, or the archive panics.
#[verifier::external_body]
fn add_cover_image(draft: &mut Draft, file: &str, bytes: &[u8], mime: &str) -> (r: Result<
    (),
    String,
>)
    requires
        is_plain_name(file@),
    ensures
        has_room(
            held(*old(draft)),
            (Entry::Cover { file: file@, bytes: bytes@, mime: mime@ }),
        ) ==> r is Ok,
        has_file(held(*old(draft)), file@) ==> r is Err,
        r is Ok ==> held(*final(draft)) == held(*old(draft)).with_entry(
            (Entry::Cover { file: file@, bytes: bytes@, mime: mime@ }),
        ),
{
    draft.builder.add_cover_image(file, bytes, mime).map(|_| ()).map_err(|e| e.to_string())
}

/// `epub_builder::EpubBuilder::add_content`: adds the page as the last file so far, with
/// its title and its place in the guide. The archive is in memory, so it fails for a name
/// that is in it already and for content of about 4 GiB alone, of this file or of the one
/// before it, whose header is completed here. Then the error's text comes back, and what the
/// builder holds is left open. The name must not be too long for a header, or the archive
/// panics.
#[verifier::external_body]
fn add_page(draft: &mut Draft, file: &str, title: &str, kind: PageKind, xhtml: &str) -> (r: Result<
    (),
    String,
>)
    requires
        is_plain_name(file@),
    ensures
        has_room(
            held(*old(draft)),
            (Entry::Page { file: file@, title: title@, kind, xhtml: xhtml@ }),
        ) ==> r is Ok,
        has_file(held(*old(draft)), file@) ==> r is Err,
        r is Ok ==> held(*final(draft)) == held(*old(draft)).with_entry(
            (Entry::Page { file: file@, title: title@, kind, xhtml: xhtml@ }),
        ),
{
    let reftype = match kind {
        PageKind::Preface => ReferenceType::Preface,
        PageKind::Text => ReferenceType::Text,
    };
    let content = EpubContent::new(file, xhtml.as_bytes()).title(title).reftype(reftype);
    draft.builder.add_content(content).map(|_| ()).map_err(|e| e.to_string())
}

/// `epub_builder::EpubBuilder::generate` into memory: the bytes of an EPUB file of what
/// the builder holds, or the text of the error. The file carries the time and a random
/// identifier, so the bytes are not a function of the book. It adds the style sheet, the
/// manifest and the two tables of contents, made from fixed templates whose every value is
/// given; so of an EPUB 3 it fails for a name or a size that the archive does not take alone.
#[verifier::external_body]
fn generate(draft: Draft) -> (r: Result<Vec<u8>, String>)
    ensures
        held(draft).epub3 && all_small(held(draft).entries) && is_modest(held(draft))
            && !takes_kept_name(held(draft)) ==> r is Ok,
        r matches Ok(bytes) ==> packed(bytes@, held(draft)),
{
    let mut bytes: Vec<u8> = Vec::new();
    draft.builder.generate(&mut bytes).map(|_| bytes).map_err(|e| e.to_string())
}

/// The file name of a chapter's page.
pub open spec fn chapter_file(number: u32) -> Seq<char> {
    "chapter_"@ + text::padded(text::decimal(number as nat), 5) + ".xhtml"@
}

pub open spec fn chapter_heading(number: u32, title: Seq<char>) -> Seq<char> {
    "Chapter "@ + text::decimal(number as nat) + ": "@ + title
}

pub open spec fn chapter_entry(ch: ChapterView) -> Entry {
    Entry::Page {
        file: chapter_file(ch.number),
        title: chapter_heading(ch.number, ch.title),
        kind: PageKind::Text,
        xhtml: chapter_page(chapter_heading(ch.number, ch.title), ch.paragraphs),
    }
}

pub open spec fn chapter_views(chapters: Seq<Chapter>) -> Seq<ChapterView> {
    chapters.map_values(|c: Chapter| c@)
}

pub open spec fn cover_view(cover: Option<&Cover>) -> Option<CoverView> {
    match cover {
        Some(c) => Some(c@),
        None => None,
    }
}

/// The metadata of a novel's book.
pub open spec fn book_metadata(meta: MetaView) -> BookView {
    let titled = (BookView { epub3: true, ..BookView::empty() }).with_metadata(
        "title"@,
        meta.title,
    );
    let authored = match meta.author {
        Some(a) => titled.with_metadata("author"@, a),
        None => titled,
    };
    let sorted = match meta.genre {
        Some(g) => authored.with_metadata("subject"@, g),
        None => authored,
    };
    sorted.with_metadata("lang"@, "en"@)
}

/// The files before the chapters: the cover, and the notice of missing chapters.
pub open spec fn front_matter(
    host: Result<Option<Seq<char>>, Seq<char>>,
    cover: Option<CoverView>,
    gaps: Seq<u32>,
) -> Seq<Entry> {
    (match cover {
        Some(c) => seq![
            (Entry::Cover { file: cover_file(c.mime), bytes: c.bytes, mime: c.mime }),
        ],
        None => seq![],
    }) + (if gaps.len() > 0 {
        seq![
            (Entry::Page {
                file: "missing-chapters.xhtml"@,
                title: "Missing Chapters"@,
                kind: PageKind::Preface,
                xhtml: notice_page(host, gaps),
            }),
        ]
    } else {
        seq![]
    })
}

/// A novel's book: its metadata, the cover, a notice when chapters are missing, and one
/// page for each chapter. `host` is the host of the novel's source.
pub open spec fn book(
    meta: MetaView,
    host: Result<Option<Seq<char>>, Seq<char>>,
    chapters: Seq<ChapterView>,
    cover: Option<CoverView>,
    gaps: Seq<u32>,
) -> BookView {
    BookView {
        entries: front_matter(host, cover, gaps) + chapter_entries(chapters),
        ..book_metadata(meta)
    }
}

pub open spec fn numbers_differ(chapters: Seq<ChapterView>) -> bool {
    forall|i: int, j: int|
        0 <= i < j < chapters.len() ==> (#[trigger] chapters[i]).number != (
        #[trigger] chapters[j]).number
}

pub open spec fn chapter_entries(chapters: Seq<ChapterView>) -> Seq<Entry> {
    chapters.map_values(|c: ChapterView| chapter_entry(c))
}

/// Whether a book can be laid out of these parts: no two chapters share a number, and the
/// cover and every page are small.
pub open spec fn is_regular(
    host: Result<Option<Seq<char>>, Seq<char>>,
    chapters: Seq<ChapterView>,
    cover: Option<CoverView>,
    gaps: Seq<u32>,
) -> bool {
    &&& numbers_differ(chapters)
    &&& all_small(front_matter(host, cover, gaps))
    &&& all_small(chapter_entries(chapters))
}

/// Whether an error is one that the packing library reported.
pub open spec fn packing_error(e: Seq<char>) -> bool {
    exists|m: Seq<char>| e == "epub: "@ + m
}

fn explain(e: String) -> (r: String)
    ensures
        packing_error(r@),
{
    let r = text::concat("epub: ", e.as_str());
    assert(r@ == "epub: "@ + e@);
    r
}

fn start_book(meta: &NovelMeta) -> (r: Result<Draft, String>)
    ensures
        r matches Ok(d) && held(d) == book_metadata(meta@),
{
    let archive = match new_archive() {
        Ok(a) => a,
        Err(e) => return Err(explain(e)),
    };
    let mut d = match new_draft(archive) {
        Ok(d) => d,
        Err(e) => return Err(explain(e)),
    };
    use_epub3(&mut d);
    if let Err(e) = set_metadata(&mut d, "title", meta.title.as_str()) {
        return Err(explain(e));
    }
    if let Some(author) = &meta.author {
        if let Err(e) = set_metadata(&mut d, "author", author.as_str()) {
            return Err(explain(e));
        }
    }
    if let Some(genre) = &meta.genre {
        if let Err(e) = set_metadata(&mut d, "subject", genre.as_str()) {
            return Err(explain(e));
        }
    }
    if let Err(e) = set_metadata(&mut d, "lang", "en") {
        return Err(explain(e));
    }
    Ok(d)
}

proof fn lemma_front_names(mime: Seq<char>)
    ensures
        is_plain_name(cover_file(mime)),
        is_plain_name("missing-chapters.xhtml"@),
        cover_file(mime)[0] == 'c',
        cover_file(mime)[1] == 'o',
        cover_file(mime)[5] == '.',
        "missing-chapters.xhtml"@[0] == 'm',
{
    reveal_strlit("cover.png");
    reveal_strlit("cover.webp");
    reveal_strlit("cover.gif");
    reveal_strlit("cover.jpg");
    reveal_strlit("missing-chapters.xhtml");
}

proof fn lemma_chapter_file(n: u32)
    ensures
        is_plain_name(chapter_file(n)),
        chapter_file(n)[0] == 'c',
        chapter_file(n)[1] == 'h',
{
    reveal_strlit("chapter_");
    reveal_strlit(".xhtml");
    text::lemma_decimal(n as nat);
    text::lemma_short_decimal(n);
    text::lemma_padded(text::decimal(n as nat), 5);
    let d = text::padded(text::decimal(n as nat), 5);
    let f = chapter_file(n);
    assert forall|i: int| 0 <= i < f.len() implies text::is_ascii_letter(#[trigger] f[i])
        || text::is_digit(f[i]) || f[i] == '.' || f[i] == '-' || f[i] == '_' by {
        if i < 8 {
            assert(f[i] == "chapter_"@[i]);
        } else if i < 8 + d.len() {
            assert(f[i] == d[i - 8]);
        } else {
            assert(f[i] == ".xhtml"@[i - 8 - d.len()]);
        }
    }
}

/// Each chapter has a page of its own.
pub proof fn law_chapters_have_their_own_files(a: u32, b: u32)
    requires
        chapter_file(a) == chapter_file(b),
    ensures
        a == b,
{
    let head = "chapter_"@;
    let tail = ".xhtml"@;
    let x = text::padded(text::decimal(a as nat), 5);
    let y = text::padded(text::decimal(b as nat), 5);
    let f = chapter_file(a);
    let g = chapter_file(b);
    assert(f.len() == head.len() + x.len() + tail.len());
    assert(g.len() == head.len() + y.len() + tail.len());
    assert(f.subrange(head.len() as int, (head.len() + x.len()) as int) =~= x);
    assert(g.subrange(head.len() as int, (head.len() + y.len()) as int) =~= y);
    text::lemma_decimal(a as nat);
    text::lemma_decimal(b as nat);
    text::lemma_padded(text::decimal(a as nat), 5);
    text::lemma_padded(text::decimal(b as nat), 5);
}

proof fn lemma_front_files(
    host: Result<Option<Seq<char>>, Seq<char>>,
    cover: Option<CoverView>,
    gaps: Seq<u32>,
    i: int,
)
    requires
        0 <= i < front_matter(host, cover, gaps).len(),
    ensures
        ({
            let f = file_of(front_matter(host, cover, gaps)[i]);
            &&& f.len() > 5
            &&& (f[0] == 'c' && f[1] == 'o' && f[5] == '.') || f == "missing-chapters.xhtml"@
        }),
{
    if let Some(c) = cover {
        lemma_front_names(c.mime);
        reveal_strlit("cover.png");
        reveal_strlit("cover.webp");
        reveal_strlit("cover.gif");
        reveal_strlit("cover.jpg");
    }
    reveal_strlit("missing-chapters.xhtml");
}

proof fn lemma_no_kept_names(
    meta: MetaView,
    host: Result<Option<Seq<char>>, Seq<char>>,
    chapters: Seq<ChapterView>,
    cover: Option<CoverView>,
    gaps: Seq<u32>,
)
    ensures
        !takes_kept_name(book(meta, host, chapters, cover, gaps)),
{
    reveal_strlit("stylesheet.css");
    reveal_strlit("content.opf");
    reveal_strlit("toc.ncx");
    reveal_strlit("nav.xhtml");
    reveal_strlit("missing-chapters.xhtml");
    let b = book(meta, host, chapters, cover, gaps);
    let front = front_matter(host, cover, gaps);
    assert forall|i: int| 0 <= i < b.entries.len() implies ({
        let f = file_of(#[trigger] b.entries[i]);
        f != "stylesheet.css"@ && f != "content.opf"@ && f != "toc.ncx"@ && f != "nav.xhtml"@
    }) by {
        if i < front.len() {
            assert(b.entries[i] == front[i]);
            lemma_front_files(host, cover, gaps, i);
        } else {
            assert(b.entries[i] == chapter_entry(chapters[i - front.len()]));
            lemma_chapter_file(chapters[i - front.len()].number);
        }
    }
}

/// The book as it stands when its front matter and some of its chapters are in has room
/// for the next.
proof fn lemma_room_for_chapter(
    b: BookView,
    host: Result<Option<Seq<char>>, Seq<char>>,
    chapters: Seq<ChapterView>,
    cover: Option<CoverView>,
    gaps: Seq<u32>,
    i: int,
)
    requires
        is_regular(host, chapters, cover, gaps),
        0 <= i < chapters.len(),
        b.entries == front_matter(host, cover, gaps) + chapter_entries(chapters).take(i),
    ensures
        has_room(b, chapter_entry(chapters[i])),
{
    let front = front_matter(host, cover, gaps);
    let pages = chapter_entries(chapters);
    lemma_chapter_file(chapters[i].number);
    assert(is_small(pages[i]));
    assert forall|k: int| 0 <= k < b.entries.len() implies is_small(#[trigger] b.entries[k])
        && file_of(b.entries[k]) != chapter_file(chapters[i].number) by {
        if k < front.len() {
            assert(b.entries[k] == front[k]);
            lemma_front_files(host, cover, gaps, k);
            reveal_strlit("missing-chapters.xhtml");
        } else {
            let j = k - front.len();
            assert(b.entries[k] == pages[j]);
            assert(pages[j] == chapter_entry(chapters[j]));
            assert(chapters[j].number != chapters[i].number);
            if chapter_file(chapters[j].number) == chapter_file(chapters[i].number) {
                law_chapters_have_their_own_files(chapters[j].number, chapters[i].number);
            }
        }
    }
}

fn add_front_matter(
    draft: &mut Draft,
    host: &Result<Option<String>, String>,
    cover: Option<&Cover>,
    gaps: &[u32],
) -> (r: Result<(), String>)
    requires
        held(*old(draft)).entries.len() == 0,
    ensures
        match r {
            Ok(_) => held(*final(draft)) == (BookView {
                entries: front_matter(web::host_view(*host), cover_view(cover), gaps@),
                ..held(*old(draft))
            }),
            Err(e) => packing_error(e@),
        },
        all_small(front_matter(web::host_view(*host), cover_view(cover), gaps@)) ==> r is Ok,
{
    let ghost front = front_matter(web::host_view(*host), cover_view(cover), gaps@);
    proof {
        reveal_strlit("missing-chapters.xhtml");
        lemma_front_names(match cover {
            Some(c) => c.mime@,
            None => seq![],
        });
        if cover is Some && all_small(front) {
            assert(is_small(front[0]));
        }
        if gaps@.len() > 0 && all_small(front) {
            assert(is_small(front[front.len() - 1]));
        }
    }
    if let Some(c) = cover {
        let file = cover_filename(c.mime.as_str());
        if let Err(e) = add_cover_image(draft, file, c.bytes.as_slice(), c.mime.as_str()) {
            return Err(explain(e));
        }
    }
    if gaps.len() > 0 {
        let xhtml = render_gap_notice(host, gaps);
        if let Err(e) = add_page(
            draft,
            "missing-chapters.xhtml",
            "Missing Chapters",
            PageKind::Preface,
            xhtml.as_str(),
        ) {
            return Err(explain(e));
        }
    }
    assert(held(*draft).entries =~= front_matter(web::host_view(*host), cover_view(cover), gaps@));
    Ok(())
}

fn add_chapter(draft: &mut Draft, ch: &Chapter) -> (r: Result<(), String>)
    ensures
        match r {
            Ok(_) => held(*final(draft)) == held(*old(draft)).with_entry(chapter_entry(ch@)),
            Err(e) => packing_error(e@),
        },
        has_room(held(*old(draft)), chapter_entry(ch@)) ==> r is Ok,
        has_file(held(*old(draft)), chapter_file(ch.number)) ==> r is Err,
{
    proof {
        lemma_chapter_file(ch.number);
    }
    let n = text::decimal_chars(ch.number as u64);
    let mut file = text::to_chars("chapter_");
    let number = text::pad_zero(&n, 5);
    text::push_all(&mut file, &number);
    text::push_str(&mut file, ".xhtml");
    let mut heading = text::to_chars("Chapter ");
    text::push_all(&mut heading, &n);
    text::push_str(&mut heading, ": ");
    text::push_str(&mut heading, ch.title.as_str());
    let file = text::to_text(&file);
    let heading = text::to_text(&heading);
    let xhtml = render_chapter_xhtml(heading.as_str(), ch);
    match add_page(draft, file.as_str(), heading.as_str(), PageKind::Text, xhtml.as_str()) {
        Ok(_) => Ok(()),
        Err(e) => Err(explain(e)),
    }
}

/// Lay out the book of `meta`/`chapters`, optionally with a cover image. `gaps` lists
/// chapter numbers the source could not provide (permanent 404 holes); if non-empty, a
/// short notice page is added up front so a reader sees the book is missing chapters. It
/// succeeds on parts of ordinary size, and refuses two chapters of one number.
pub fn lay_out(
    meta: &NovelMeta,
    host: &Result<Option<String>, String>,
    chapters: &[Chapter],
    cover: Option<&Cover>,
    gaps: &[u32],
) -> (r: Result<Draft, String>)
    ensures
        match r {
            Ok(d) => held(d) == book(
                meta@,
                web::host_view(*host),
                chapter_views(chapters@),
                cover_view(cover),
                gaps@,
            ),
            Err(e) => packing_error(e@),
        },
        is_regular(
            web::host_view(*host),
            chapter_views(chapters@),
            cover_view(cover),
            gaps@,
        ) ==> r is Ok,
        !numbers_differ(chapter_views(chapters@)) ==> r is Err,
{
    let mut d = match start_book(meta) {
        Ok(d) => d,
        Err(e) => return Err(e),
    };
    if let Err(e) = add_front_matter(&mut d, host, cover, gaps) {
        return Err(e);
    }
    let ghost front = front_matter(web::host_view(*host), cover_view(cover), gaps@);
    let ghost views = chapter_views(chapters@);
    let ghost pages = chapter_entries(views);
    let ghost regular = is_regular(web::host_view(*host), views, cover_view(cover), gaps@);
    let mut i: usize = 0;
    assert(front + pages.take(0) =~= front);
    while i < chapters.len()
        invariant
            i <= chapters@.len(),
            views == chapter_views(chapters@),
            pages == chapter_entries(views),
            front == front_matter(web::host_view(*host), cover_view(cover), gaps@),
            regular == is_regular(web::host_view(*host), views, cover_view(cover), gaps@),
            held(d) == (BookView { entries: front + pages.take(i as int), ..book_metadata(meta@) }),
            forall|a: int, b: int|
                0 <= a < b < i ==> (#[trigger] views[a]).number != (#[trigger] views[b]).number,
        decreases chapters@.len() - i,
    {
        let ghost before = held(d);
        proof {
            if regular {
                lemma_room_for_chapter(
                    before,
                    web::host_view(*host),
                    views,
                    cover_view(cover),
                    gaps@,
                    i as int,
                );
            }
        }
        if let Err(e) = add_chapter(&mut d, &chapters[i]) {
            return Err(e);
        }
        assert(pages[i as int] == chapter_entry(chapters@[i as int]@));
        assert forall|a: int| 0 <= a < i implies (#[trigger] views[a]).number != views[i as int].number by {
            let k = front.len() + a;
            assert(before.entries[k] == pages[a]);
            assert(pages[a] == chapter_entry(views[a]));
            assert(file_of(before.entries[k]) != chapter_file(views[i as int].number));
        }
        assert((front + pages.take(i as int)).push(pages[i as int]) =~= front + pages.take(i + 1));
        i += 1;
    }
    assert(pages.take(pages.len() as int) =~= pages);
    Ok(d)
}

/// Build an EPUB for `meta`/`chapters`: the bytes of the file. It succeeds on parts of
/// ordinary size, and refuses two chapters of one number.
pub fn build_epub(
    meta: &NovelMeta,
    chapters: &[Chapter],
    cover: Option<&Cover>,
    gaps: &[u32],
) -> (r: Result<Vec<u8>, String>)
    ensures
        match r {
            Ok(bytes) => packed(
                bytes@,
                book(
                    meta@,
                    web::host_of(meta@.source_url),
                    chapter_views(chapters@),
                    cover_view(cover),
                    gaps@,
                ),
            ),
            Err(e) => packing_error(e@),
        },
        is_regular(
            web::host_of(meta@.source_url),
            chapter_views(chapters@),
            cover_view(cover),
            gaps@,
        ) && is_modest(
            book(
                meta@,
                web::host_of(meta@.source_url),
                chapter_views(chapters@),
                cover_view(cover),
                gaps@,
            ),
        ) ==> r is Ok,
        !numbers_differ(chapter_views(chapters@)) ==> r is Err,
{
    let host = web::url_host(meta.source_url.as_str());
    proof {
        let views = chapter_views(chapters@);
        let h = web::host_of(meta@.source_url);
        let b = book(meta@, h, views, cover_view(cover), gaps@);
        lemma_no_kept_names(meta@, h, views, cover_view(cover), gaps@);
        if is_regular(h, views, cover_view(cover), gaps@) {
            let front = front_matter(h, cover_view(cover), gaps@);
            assert forall|i: int| 0 <= i < b.entries.len() implies is_small(
                #[trigger] b.entries[i],
            ) by {
                if i < front.len() {
                    assert(b.entries[i] == front[i]);
                } else {
                    assert(b.entries[i] == chapter_entries(views)[i - front.len()]);
                }
            }
        }
    }
    let d = match lay_out(meta, &host, chapters, cover, gaps) {
        Ok(d) => d,
        Err(e) => return Err(e),
    };
    match generate(d) {
        Ok(bytes) => Ok(bytes),
        Err(e) => Err(explain(e)),
    }
}

/// A book holds one page for each chapter it was given, in their order, after the cover
/// and the notice, and the notice is there exactly when chapters are missing.
pub proof fn law_every_chapter_gets_a_page(
    meta: MetaView,
    host: Result<Option<Seq<char>>, Seq<char>>,
    chapters: Seq<ChapterView>,
    cover: Option<CoverView>,
    gaps: Seq<u32>,
)
    ensures
        ({
            let b = book(meta, host, chapters, cover, gaps);
            let front = (if cover is Some {
                1int
            } else {
                0int
            }) + (if gaps.len() > 0 {
                1int
            } else {
                0int
            });
            &&& b.entries.len() == front + chapters.len()
            &&& gaps.len() > 0 ==> b.entries[front - 1] == (Entry::Page {
                file: "missing-chapters.xhtml"@,
                title: "Missing Chapters"@,
                kind: PageKind::Preface,
                xhtml: notice_page(host, gaps),
            })
            &&& forall|i: int|
                0 <= i < chapters.len() ==> b.entries[front + i] == chapter_entry(
                    #[trigger] chapters[i],
                )
        }),
{
}

/// How many characters some paragraphs have together.
pub open spec fn total_len(paragraphs: Seq<Seq<char>>) -> nat
    decreases paragraphs.len(),
{
    if paragraphs.len() == 0 {
        0
    } else {
        total_len(paragraphs.drop_last()) + paragraphs.last().len()
    }
}

/// Whether a chapter is of no unheard-of length.
pub open spec fn is_ordinary(ch: ChapterView) -> bool {
    ch.title.len() <= 10_000_000 && ch.paragraphs.len() <= 1_000_000 && total_len(ch.paragraphs)
        <= 10_000_000
}

proof fn lemma_escaped_len(s: Seq<char>)
    ensures
        escaped(s).len() <= 5 * s.len(),
    decreases s.len(),
{
    reveal_strlit("&amp;");
    reveal_strlit("&lt;");
    reveal_strlit("&gt;");
    if s.len() > 0 {
        lemma_escaped_len(s.drop_last());
    }
}

proof fn lemma_paragraphs_len(paragraphs: Seq<Seq<char>>)
    ensures
        paragraphs_xhtml(paragraphs).len() <= 5 * total_len(paragraphs) + 8 * paragraphs.len(),
    decreases paragraphs.len(),
{
    reveal_strlit("<p>");
    reveal_strlit("</p>\n");
    if paragraphs.len() > 0 {
        lemma_paragraphs_len(paragraphs.drop_last());
        lemma_escaped_len(paragraphs.last());
    }
}

proof fn lemma_document_len(title: Seq<char>, body: Seq<char>)
    ensures
        document(title, body).len() <= 5 * title.len() + body.len() + 1_000,
{
    reveal_strlit(
        "<?xml version=\"1.0\" encoding=\"UTF-8\"?>\n<html xmlns=\"http://www.w3.org/1999/xhtml\"><head><title>",
    );
    reveal_strlit("</title></head><body>");
    reveal_strlit("</body></html>");
    lemma_escaped_len(title);
}

proof fn lemma_chapter_is_small(ch: ChapterView)
    requires
        is_ordinary(ch),
    ensures
        is_small(chapter_entry(ch)),
{
    reveal_strlit("Chapter ");
    reveal_strlit(": ");
    reveal_strlit("<h1>");
    reveal_strlit("</h1>\n");
    text::lemma_short_decimal(ch.number);
    let heading = chapter_heading(ch.number, ch.title);
    lemma_escaped_len(heading);
    lemma_paragraphs_len(ch.paragraphs);
    lemma_document_len(
        heading,
        "<h1>"@ + escaped(heading) + "</h1>\n"@ + paragraphs_xhtml(ch.paragraphs),
    );
}

proof fn lemma_rising_len(s: Seq<u32>)
    ensures
        rising(s).len() == s.len(),
    decreases s.len(),
{
    if s.len() > 0 {
        lemma_rising_len(s.drop_last());
        let before = rising(s.drop_last());
        lemma_not_above_len(before, s.last());
    }
}

proof fn lemma_not_above_len(s: Seq<u32>, n: u32)
    ensures
        0 <= not_above(s, n) <= s.len(),
    decreases s.len(),
{
    if s.len() > 0 {
        lemma_not_above_len(s.drop_first(), n);
    }
}

proof fn lemma_joined_len(s: Seq<u32>)
    ensures
        text::join(decimals(s), ", "@).len() <= 12 * s.len(),
    decreases s.len(),
{
    reveal_strlit(", ");
    let parts = decimals(s);
    if s.len() > 0 {
        text::lemma_short_decimal(s.last());
        lemma_joined_len(s.drop_last());
        assert(parts.drop_last() =~= decimals(s.drop_last()));
        assert(parts.last() == text::decimal(s.last() as nat));
    }
}

proof fn lemma_notice_is_small(host: Result<Option<Seq<char>>, Seq<char>>, gaps: Seq<u32>)
    requires
        host matches Ok(Some(h)) ==> h.len() <= 1_000_000,
        gaps.len() <= 1_000_000,
    ensures
        notice_page(host, gaps).len() < 0x1000_0000,
{
    reveal_strlit("the source");
    reveal_strlit("Missing Chapters");
    reveal_strlit("<h1>Missing Chapters</h1>\n<p>");
    reveal_strlit(" chapter is");
    reveal_strlit(" chapters are");
    reveal_strlit(" not included in this book because ");
    reveal_strlit(
        " did not provide it (the chapter URL returned “not found”). This is usually a gap in the source's own numbering, but it may be a genuinely missing chapter.</p>\n<p>Unavailable chapter number(s): ",
    );
    reveal_strlit(
        ".</p>\n<p>If the chapter reappears at the source, or you add an alternate source for this novel, it will be filled in automatically on a later sync.</p>",
    );
    let source = match host {
        Ok(Some(h)) => h,
        _ => "the source"@,
    };
    text::lemma_short_decimal(gaps.len() as u32);
    lemma_escaped_len(source);
    lemma_rising_len(gaps);
    lemma_joined_len(rising(gaps));
    lemma_escaped_len(text::join(decimals(rising(gaps)), ", "@));
    lemma_document_len("Missing Chapters"@, notice_body(source, gaps));
}

/// A book of chapters of different numbers, none of unheard-of length, can be laid out.
pub proof fn law_ordinary_books_are_laid_out(
    host: Result<Option<Seq<char>>, Seq<char>>,
    chapters: Seq<ChapterView>,
    cover: Option<CoverView>,
    gaps: Seq<u32>,
)
    requires
        numbers_differ(chapters),
        forall|i: int| 0 <= i < chapters.len() ==> is_ordinary(#[trigger] chapters[i]),
        cover matches Some(c) ==> c.bytes.len() < 0x1000_0000,
        gaps.len() > 0 ==> (host matches Ok(Some(h)) ==> h.len() <= 1_000_000),
        gaps.len() <= 1_000_000,
    ensures
        is_regular(host, chapters, cover, gaps),
{
    if gaps.len() > 0 {
        lemma_notice_is_small(host, gaps);
    }
    let pages = chapter_entries(chapters);
    assert forall|i: int| 0 <= i < pages.len() implies is_small(#[trigger] pages[i]) by {
        assert(is_ordinary(chapters[i]));
        lemma_chapter_is_small(chapters[i]);
    }
}

proof fn lemma_metadata(meta: MetaView)
    ensures
        ({
            let b = book_metadata(meta);
            &&& b.epub3
            &&& b.title == meta.title
            &&& b.authors.len() <= 1
            &&& b.authors.len() == 1 ==> meta.author == Some(b.authors[0])
            &&& b.subjects.len() <= 1
            &&& b.subjects.len() == 1 ==> meta.genre == Some(b.subjects[0])
            &&& b.languages == seq!["en"@]
        }),
{
    reveal_strlit("title");
    reveal_strlit("author");
    reveal_strlit("subject");
    reveal_strlit("lang");
    reveal_strlit("en");
    assert("lang"@[0] != "title"@[0] && "lang"@[0] != "author"@[0] && "lang"@[0] != "subject"@[0]);
    assert("author"@[0] != "title"@[0] && "subject"@[0] != "title"@[0] && "subject"@[0]
        != "author"@[0]);
    assert(book_metadata(meta).languages =~= seq!["en"@]);
}

/// A book of titles of ordinary length, and of no more than some ten thousands of chapters,
/// has listings that an archive takes.
pub proof fn law_ordinary_books_are_modest(
    meta: MetaView,
    host: Result<Option<Seq<char>>, Seq<char>>,
    chapters: Seq<ChapterView>,
    cover: Option<CoverView>,
    gaps: Seq<u32>,
)
    requires
        chapters.len() <= 99_000,
        forall|i: int| 0 <= i < chapters.len() ==> (#[trigger] chapters[i]).title.len() <= 900,
        cover matches Some(c) ==> c.mime.len() <= 1_000,
        meta.title.len() <= 1_000_000,
        meta.author matches Some(a) ==> a.len() <= 1_000_000,
        meta.genre matches Some(g) ==> g.len() <= 1_000_000,
    ensures
        is_modest(book(meta, host, chapters, cover, gaps)),
{
    lemma_metadata(meta);
    reveal_strlit("en");
    reveal_strlit("Missing Chapters");
    reveal_strlit("Chapter ");
    reveal_strlit(": ");
    let b = book(meta, host, chapters, cover, gaps);
    let front = front_matter(host, cover, gaps);
    assert forall|i: int| 0 <= i < b.entries.len() implies is_brief(#[trigger] b.entries[i]) by {
        if i < front.len() {
            assert(b.entries[i] == front[i]);
        } else {
            let c = chapters[i - front.len()];
            assert(b.entries[i] == chapter_entry(c));
            text::lemma_short_decimal(c.number);
        }
    }
}

/// The text that escaped text stands for: `&amp;`, `&lt;` and `&gt;` read as the characters they
/// name, and any other character as itself.
pub open spec fn unescaped(s: Seq<char>) -> Seq<char>
    decreases s.len(),
{
    if s.len() == 0 {
        seq![]
    } else if s.len() >= 5 && s.take(5) == seq!['&', 'a', 'm', 'p', ';'] {
        seq!['&'] + unescaped(s.skip(5))
    } else if s.len() >= 4 && s.take(4) == seq!['&', 'l', 't', ';'] {
        seq!['<'] + unescaped(s.skip(4))
    } else if s.len() >= 4 && s.take(4) == seq!['&', 'g', 't', ';'] {
        seq!['>'] + unescaped(s.skip(4))
    } else {
        seq![s[0]] + unescaped(s.skip(1))
    }
}

/// Escaping loses nothing: undoing it gives the text back.
pub proof fn law_escaping_loses_nothing(s: Seq<char>)
    ensures
        unescaped(escaped(s)) == s,
    decreases s.len(),
{
    if s.len() > 0 {
        let c = s[0];
        let t = s.drop_first();
        law_escaping_loses_nothing(t);
        assert(s =~= seq![c] + t);
        lemma_escaped_front(c, t);
        let e = escaped(t);
        reveal_strlit("&amp;");
        reveal_strlit("&lt;");
        reveal_strlit("&gt;");
        let whole = escaped_char(c) + e;
        if c == '&' {
            assert(whole.take(5) =~= seq!['&', 'a', 'm', 'p', ';']);
            assert(whole.skip(5) =~= e);
        } else if c == '<' {
            assert(whole.take(4) =~= seq!['&', 'l', 't', ';']);
            assert(whole.len() >= 5 ==> whole.take(5)[1] == 'l');
            assert(whole.skip(4) =~= e);
        } else if c == '>' {
            assert(whole.take(4) =~= seq!['&', 'g', 't', ';']);
            assert(whole.take(4)[1] == 'g');
            assert(whole.len() >= 5 ==> whole.take(5)[1] == 'g');
            assert(whole.skip(4) =~= e);
        } else {
            assert(whole[0] == c);
            assert(whole.len() >= 5 ==> whole.take(5)[0] == c);
            assert(whole.len() >= 4 ==> whole.take(4)[0] == c);
            assert(whole.skip(1) =~= e);
        }
    } else {
        assert(escaped(s) =~= seq![]);
        assert(s =~= seq![]);
    }
}

proof fn lemma_escaped_front(c: char, t: Seq<char>)
    ensures
        escaped(seq![c] + t) == escaped_char(c) + escaped(t),
    decreases t.len(),
{
    let s = seq![c] + t;
    if t.len() == 0 {
        assert(s.drop_last() =~= seq![]);
        assert(escaped(s.drop_last()) =~= seq![]);
        assert(escaped(t) =~= seq![]);
        assert(escaped(s) =~= escaped_char(c) + escaped(t));
    } else {
        lemma_escaped_front(c, t.drop_last());
        assert(s.drop_last() =~= seq![c] + t.drop_last());
        assert(s.last() == t.last());
        assert(escaped(s) =~= escaped_char(c) + escaped(t));
    }
}

/// Text is escaped character by character: the ampersand and the two brackets by their names, and
/// any other character stands as it was.
pub proof fn law_escaping_touches_three_characters_alone(s: Seq<char>, c: char)
    ensures
        escaped(seq![]).len() == 0,
        c != '&' && c != '<' && c != '>' ==> escaped(s.push(c)) == escaped(s).push(c),
        escaped(s.push('&')) == escaped(s) + seq!['&', 'a', 'm', 'p', ';'],
        escaped(s.push('<')) == escaped(s) + seq!['&', 'l', 't', ';'],
        escaped(s.push('>')) == escaped(s) + seq!['&', 'g', 't', ';'],
{
    reveal_strlit("&amp;");
    reveal_strlit("&lt;");
    reveal_strlit("&gt;");
    assert("&amp;"@ =~= seq!['&', 'a', 'm', 'p', ';']);
    assert("&lt;"@ =~= seq!['&', 'l', 't', ';']);
    assert("&gt;"@ =~= seq!['&', 'g', 't', ';']);
    assert(s.push(c).drop_last() =~= s);
    assert(s.push('&').drop_last() =~= s);
    assert(s.push('<').drop_last() =~= s);
    assert(s.push('>').drop_last() =~= s);
    assert(escaped(s) + seq![c] =~= escaped(s).push(c));
}

/// A page holds every paragraph, escaped, in an element of its own, and in order.
pub proof fn law_pages_hold_every_paragraph(paragraphs: Seq<Seq<char>>, p: Seq<char>)
    ensures
        paragraphs_xhtml(seq![]).len() == 0,
        paragraphs_xhtml(paragraphs.push(p)) == paragraphs_xhtml(paragraphs) + "<p>"@ + escaped(p)
            + "</p>\n"@,
{
    assert(paragraphs.push(p).drop_last() =~= paragraphs);
}

/// A chapter's page stands under its number, is titled and headed by its number and title, and
/// holds its paragraphs behind the heading.
pub proof fn law_a_chapter_page_is_headed_and_filled(ch: ChapterView) -> (r: (int, int))
    ensures
        chapter_entry(ch) matches Entry::Page { file, title, kind, xhtml } && {
            let heading = "Chapter "@ + text::decimal(ch.number as nat) + ": "@ + ch.title;
            &&& file == "chapter_"@ + text::padded(text::decimal(ch.number as nat), 5) + ".xhtml"@
            &&& title == heading
            &&& kind == PageKind::Text
            &&& text::occurs_at(xhtml, "<h1>"@ + escaped(heading) + "</h1>\n"@, r.0)
            &&& text::occurs_at(xhtml, paragraphs_xhtml(ch.paragraphs), r.1)
            &&& r.1 == r.0 + ("<h1>"@ + escaped(heading) + "</h1>\n"@).len()
            &&& text::occurs_at(
                xhtml,
                "</body></html>"@,
                (r.1 + paragraphs_xhtml(ch.paragraphs).len()) as int,
            )
            &&& text::occurs_at(
                xhtml,
                "<title>"@ + escaped(heading) + "</title></head><body>"@,
                r.0 - ("<title>"@ + escaped(heading) + "</title></head><body>"@).len(),
            )
        },
{
    let heading = chapter_heading(ch.number, ch.title);
    let before =
        "<?xml version=\"1.0\" encoding=\"UTF-8\"?>\n<html xmlns=\"http://www.w3.org/1999/xhtml\"><head><title>"@
        + escaped(heading) + "</title></head><body>"@;
    let head = "<h1>"@ + escaped(heading) + "</h1>\n"@;
    let body = paragraphs_xhtml(ch.paragraphs);
    let page = chapter_page(heading, ch.paragraphs);
    let a = before.len() as int;
    let b = a + head.len();
    assert(page =~= before + head + body + "</body></html>"@);
    assert(page.subrange(a, b) =~= head);
    assert(page.subrange(b, (b + body.len()) as int) =~= body);
    assert(page.subrange((b + body.len()) as int, page.len() as int) =~= "</body></html>"@);
    let named = "<title>"@ + escaped(heading) + "</title></head><body>"@;
    lemma_document_opens();
    assert(page.subrange(a - named.len(), a) =~= named);
    (a, b)
}

proof fn lemma_document_opens()
    ensures
        ({
            let open =
                "<?xml version=\"1.0\" encoding=\"UTF-8\"?>\n<html xmlns=\"http://www.w3.org/1999/xhtml\"><head><title>"@;
            &&& open.len() >= "<title>"@.len()
            &&& open.skip(open.len() - "<title>"@.len()) == "<title>"@
        }),
{
    reveal_strlit(
        "<?xml version=\"1.0\" encoding=\"UTF-8\"?>\n<html xmlns=\"http://www.w3.org/1999/xhtml\"><head><title>",
    );
    reveal_strlit("<title>");
    let open =
        "<?xml version=\"1.0\" encoding=\"UTF-8\"?>\n<html xmlns=\"http://www.w3.org/1999/xhtml\"><head><title>"@;
    assert(open.skip(open.len() - "<title>"@.len()) =~= "<title>"@);
}

/// The numbers in rising order are the same numbers, sorted.
pub proof fn law_rising_numbers_are_sorted(s: Seq<u32>, n: u32)
    ensures
        rising(s).len() == s.len(),
        forall|i: int, j: int|
            0 <= i <= j < rising(s).len() ==> #[trigger] rising(s)[i] <= #[trigger] rising(s)[j],
        rising(s).contains(n) <==> s.contains(n),
    decreases s.len(),
{
    if s.len() > 0 {
        let before = rising(s.drop_last());
        let x = s.last();
        law_rising_numbers_are_sorted(s.drop_last(), n);
        let k = not_above(before, x);
        lemma_not_above_splits(before, x);
        let all = rising(s);
        assert(all == before.insert(k, x));
        assert forall|i: int, j: int| 0 <= i <= j < all.len() implies #[trigger] all[i]
            <= #[trigger] all[j] by {
            if j < k {
                assert(all[i] == before[i] && all[j] == before[j]);
            } else if j == k {
                if i < k {
                    assert(all[i] == before[i]);
                }
            } else if i < k {
                assert(all[i] == before[i] && all[j] == before[j - 1]);
            } else if i == k {
                assert(all[j] == before[j - 1]);
            } else {
                assert(all[i] == before[i - 1] && all[j] == before[j - 1]);
            }
        }
        if s.contains(n) {
            let i = choose|i: int| 0 <= i < s.len() && s[i] == n;
            if i < s.len() - 1 {
                assert(s.drop_last()[i] == n);
                let j = choose|j: int| 0 <= j < before.len() && before[j] == n;
                if j < k {
                    assert(all[j] == n);
                } else {
                    assert(all[j + 1] == n);
                }
            } else {
                assert(all[k] == n);
            }
        }
        if all.contains(n) {
            let i = choose|i: int| 0 <= i < all.len() && all[i] == n;
            if i == k {
                assert(s[s.len() - 1] == n);
            } else {
                let j = if i < k {
                    i
                } else {
                    i - 1
                };
                assert(before[j] == n);
                assert(before.contains(n));
                let m = choose|m: int| 0 <= m < s.len() - 1 && s.drop_last()[m] == n;
                assert(s[m] == n);
            }
        }
    }
}

proof fn lemma_not_above_splits(s: Seq<u32>, n: u32)
    requires
        forall|i: int, j: int| 0 <= i <= j < s.len() ==> #[trigger] s[i] <= #[trigger] s[j],
    ensures
        0 <= not_above(s, n) <= s.len(),
        forall|i: int| 0 <= i < not_above(s, n) ==> #[trigger] s[i] <= n,
        forall|i: int| not_above(s, n) <= i < s.len() ==> #[trigger] s[i] > n,
    decreases s.len(),
{
    if s.len() > 0 && s[0] <= n {
        let t = s.drop_first();
        assert forall|i: int, j: int| 0 <= i <= j < t.len() implies #[trigger] t[i]
            <= #[trigger] t[j] by {
            assert(t[i] == s[i + 1] && t[j] == s[j + 1]);
        }
        lemma_not_above_splits(t, n);
        assert forall|i: int| 0 <= i < not_above(s, n) implies #[trigger] s[i] <= n by {
            if i > 0 {
                assert(t[i - 1] == s[i]);
            }
        }
        assert forall|i: int| not_above(s, n) <= i < s.len() implies #[trigger] s[i] > n by {
            assert(t[i - 1] == s[i]);
        }
    } else if s.len() > 0 {
        assert forall|i: int| 0 <= i < s.len() implies #[trigger] s[i] > n by {
            assert(s[0] <= s[i]);
        }
    }
}

/// The notice says how many chapters are missing, which, in rising order and with commas between,
/// and whose they are.
pub proof fn law_the_notice_names_every_gap(
    host: Seq<char>,
    gaps: Seq<u32>,
    n: u32,
) -> (r: (int, int, int))
    ensures
        ({
            let page = notice_page(Ok(Some(host)), gaps);
            let list = Seq::new(
                gaps.len(),
                |i: int| text::decimal(rising(gaps)[i] as nat),
            );
            &&& text::occurs_at(page, text::decimal(gaps.len()), r.0)
            &&& text::occurs_at(page, escaped(host), r.1)
            &&& text::occurs_at(page, escaped(text::join(list, ", "@)), r.2)
            &&& 0 < r.0 < r.1 < r.2
        }),
{
    let list = Seq::new(gaps.len(), |i: int| text::decimal(rising(gaps)[i] as nat));
    law_rising_numbers_are_sorted(gaps, n);
    assert(decimals(rising(gaps)) =~= list);
    let open = "<?xml version=\"1.0\" encoding=\"UTF-8\"?>\n<html xmlns=\"http://www.w3.org/1999/xhtml\"><head><title>"@ + escaped(
        "Missing Chapters"@,
    ) + "</title></head><body>"@ + "<h1>Missing Chapters</h1>\n<p>"@;
    let verb = if gaps.len() == 1 {
        " chapter is"@
    } else {
        " chapters are"@
    };
    let why = verb + " not included in this book because "@;
    let then =
        " did not provide it (the chapter URL returned “not found”). This is usually a gap in the source's own numbering, but it may be a genuinely missing chapter.</p>\n<p>Unavailable chapter number(s): "@;
    let end =
        ".</p>\n<p>If the chapter reappears at the source, or you add an alternate source for this novel, it will be filled in automatically on a later sync.</p>"@
        + "</body></html>"@;
    let count = text::decimal(gaps.len());
    let named = escaped(text::join(list, ", "@));
    let page = notice_page(Ok(Some(host)), gaps);
    assert(page =~= open + count + why + escaped(host) + then + named + end);
    reveal_strlit("<h1>Missing Chapters</h1>\n<p>");
    reveal_strlit(
        " did not provide it (the chapter URL returned “not found”). This is usually a gap in the source's own numbering, but it may be a genuinely missing chapter.</p>\n<p>Unavailable chapter number(s): ",
    );
    text::lemma_decimal(gaps.len());
    let a = open.len() as int;
    let b = a + count.len() + why.len();
    let c = b + escaped(host).len() + then.len();
    assert(page.subrange(a, (a + count.len()) as int) =~= count);
    assert(page.subrange(b, (b + escaped(host).len()) as int) =~= escaped(host));
    assert(page.subrange(c, (c + named.len()) as int) =~= named);
    (a, b, c)
}

/// A book carries its novel's title, author and genre, is in English, and opens with its cover
/// where it has one: the very bytes, under the name for their type.
pub proof fn law_a_book_carries_its_metadata_and_cover(
    meta: MetaView,
    host: Result<Option<Seq<char>>, Seq<char>>,
    chapters: Seq<ChapterView>,
    cover: Option<CoverView>,
    gaps: Seq<u32>,
)
    ensures
        ({
            let b = book(meta, host, chapters, cover, gaps);
            &&& b.epub3
            &&& b.title == meta.title
            &&& meta.author matches Some(a) ==> (a.len() > 0 ==> b.authors == seq![a])
            &&& meta.author is None ==> b.authors.len() == 0
            &&& meta.genre matches Some(g) ==> (g.len() > 0 ==> b.subjects == seq![g])
            &&& meta.genre is None ==> b.subjects.len() == 0
            &&& b.languages == seq!["en"@]
            &&& cover matches Some(c) ==> b.entries.len() > 0 && b.entries[0] == (Entry::Cover {
                file: cover_file(c.mime),
                bytes: c.bytes,
                mime: c.mime,
            })
        }),
{
    lemma_metadata(meta);
    reveal_strlit("title");
    reveal_strlit("author");
    reveal_strlit("subject");
    reveal_strlit("lang");
    assert("lang"@[0] != "title"@[0] && "lang"@[0] != "author"@[0] && "lang"@[0] != "subject"@[0]);
    assert("author"@[0] != "title"@[0] && "subject"@[0] != "title"@[0] && "subject"@[0]
        != "author"@[0]);
    let b = book_metadata(meta);
    if let Some(a) = meta.author {
        if a.len() > 0 {
            assert(b.authors =~= seq![a]);
        }
    }
    if let Some(g) = meta.genre {
        if g.len() > 0 {
            assert(b.subjects =~= seq![g]);
        }
    }
}

/// A cover's file is named for its type, and its type is the one its server states: what stands
/// before the semicolon, if it is an image's.
pub proof fn law_cover_types(t: Seq<char>, parameters: Seq<char>)
    requires
        forall|i: int| 0 <= i < t.len() ==> #[trigger] t[i] != ';',
    ensures
        cover_file("image/png"@) == "cover.png"@,
        cover_file("image/webp"@) == "cover.webp"@,
        cover_file("image/gif"@) == "cover.gif"@,
        cover_file("image/jpeg"@) == "cover.jpg"@,
        image_type(None) == "image/jpeg"@,
        text::occurs_at(text::trimmed(t), "image/"@, 0) ==> image_type(Some(t)) == text::trimmed(t)
            && image_type(Some(t + seq![';'] + parameters)) == text::trimmed(t),
        !text::occurs_at(text::trimmed(t), "image/"@, 0) ==> image_type(Some(t)) == "image/jpeg"@,
{
    reveal_strlit("image/png");
    reveal_strlit("image/webp");
    reveal_strlit("image/gif");
    reveal_strlit("image/jpeg");
    assert("image/png"@.len() == 9 && "image/webp"@.len() == 10 && "image/gif"@.len() == 9
        && "image/jpeg"@.len() == 10);
    assert("image/png"@[6] != "image/gif"@[6]);
    assert("image/webp"@[6] != "image/jpeg"@[6]);
    assert forall|j: int| 0 <= j < t.len() implies text::not(';')(#[trigger] t[j]) by {}
    text::lemma_span_is(t, text::not(';'), t.len() as int);
    assert(t.take(t.len() as int) =~= t);
    let h = t + seq![';'] + parameters;
    assert forall|j: int| 0 <= j < t.len() implies text::not(';')(#[trigger] h[j]) by {
        assert(h[j] == t[j]);
    }
    assert(h[t.len() as int] == ';');
    text::lemma_span_is(h, text::not(';'), t.len() as int);
    assert(h.take(t.len() as int) =~= t);
}

/// Chapters and a cover are seen as they are.
pub proof fn law_chapters_and_covers_are_seen_whole(v: Seq<Chapter>, i: int, c: Cover)
    requires
        0 <= i < v.len(),
    ensures
        chapter_views(v).len() == v.len(),
        chapter_views(v)[i] == v[i]@,
        c@.bytes == c.bytes@,
        c@.mime == c.mime@,
        cover_view(Some(&c)) == Some(c@),
        cover_view(None) is None,
{
}

} // verus!
