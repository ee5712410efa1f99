//! Where EPUBs land in the library.
//!
//! Layout: `<library>/<author>/<novel>/<file>.epub`. Each author is a folder;
//! each of their novels is a folder beneath it (so an author with several novels
//! gets sibling novel folders); the EPUB(s) live inside the novel folder. Every
//! path component is sanitized for the filesystem.

use vstd::prelude::*;

use crate::text;
use crate::util;

verus! {

/// Folder name used when a novel has no known author.
pub const UNKNOWN_AUTHOR: &'static str = "Unknown Author";

/// A place below the library's root folder, one component per folder.
#[derive(Debug)]
pub struct LibraryPath {
    pub root: String,
    pub parts: Vec<String>,
}

impl LibraryPath {
    /// The components below the root.
    pub open spec fn components(&self) -> Seq<Seq<char>> {
        text::texts(self.parts@)
    }

    /// Whether the last components are those of `tail`, which separates its own
    /// by `/`.
    pub fn ends_with(&self, tail: &str) -> (r: bool)
        ensures
            r == text::split(tail@, '/').is_suffix_of(self.components()),
    {
        let v = text::to_chars(tail);
        let want = text::split_char(&v, '/');
        let ghost w = text::split(tail@, '/');
        assert(w.len() == want@.len());
        if want.len() > self.parts.len() {
            return false;
        }
        let skip: usize = self.parts.len() - want.len();
        let mut i: usize = 0;
        while i < want.len()
            invariant
                i <= want.len(),
                skip + want.len() == self.parts.len(),
                w == text::views(want@),
                w == text::split(tail@, '/'),
                forall|j: int| 0 <= j < i ==> self.components()[skip + j] == #[trigger] w[j],
            decreases want.len() - i,
        {
            let have = text::to_chars(self.parts[skip + i].as_str());
            assert(self.components()[skip + i] == have@);
            assert(w[i as int] == want@[i as int]@);
            if !text::same_chars(&have, &want[i]) {
                assert(self.components().subrange(skip as int, self.components().len() as int)[i as int]
                    == have@);
                return false;
            }
            i += 1;
        }
        assert(self.components().subrange(skip as int, self.components().len() as int) =~= w);
        true
    }
}

/// The folder name for an author.
pub open spec fn author_folder(author: Option<Seq<char>>) -> Seq<char> {
    match author {
        Some(a) => if text::trimmed(a).len() > 0 {
            util::sanitized(text::trimmed(a))
        } else {
            util::sanitized(UNKNOWN_AUTHOR@)
        },
        None => util::sanitized(UNKNOWN_AUTHOR@),
    }
}

/// The file name of a novel's EPUB, or of one of its volumes.
pub open spec fn epub_name(title: Seq<char>, volume: Option<u32>) -> Seq<char> {
    match volume {
        Some(v) => util::sanitized(title) + " - Vol "@ + text::padded(text::decimal(v as nat), 2)
            + ".epub"@,
        None => util::sanitized(title) + ".epub"@,
    }
}

/// The folders of a novel below the library's root.
pub open spec fn novel_parts(author: Option<Seq<char>>, title: Seq<char>) -> Seq<Seq<char>> {
    seq![author_folder(author), util::sanitized(title)]
}

/// The place of a novel's EPUB below the library's root.
pub open spec fn epub_parts(
    author: Option<Seq<char>>,
    title: Seq<char>,
    volume: Option<u32>,
) -> Seq<Seq<char>> {
    seq![author_folder(author), util::sanitized(title), epub_name(title, volume)]
}

pub open spec fn opt_str(o: Option<&str>) -> Option<Seq<char>> {
    match o {
        Some(s) => Some(s@),
        None => None,
    }
}

fn author_component(author: Option<&str>) -> (r: String)
    ensures
        r@ == author_folder(opt_str(author)),
{
    if let Some(a) = author {
        let v = text::to_chars(a);
        let t = text::trim(&v);
        if t.len() > 0 {
            let name = text::to_text(t);
            return util::sanitize_filename(name.as_str());
        }
    }
    util::sanitize_filename(UNKNOWN_AUTHOR)
}

/// The folder that holds a novel's EPUB(s): `<library>/<author>/<novel>`.
pub fn novel_dir(library: &str, author: Option<&str>, title: &str) -> (r: LibraryPath)
    ensures
        r.root@ == library@,
        r.components() == novel_parts(opt_str(author), title@),
{
    let mut parts: Vec<String> = Vec::new();
    parts.push(author_component(author));
    parts.push(util::sanitize_filename(title));
    let r = LibraryPath { root: library.to_string(), parts };
    assert(r.components() =~= novel_parts(opt_str(author), title@));
    r
}

/// Full path to a novel's EPUB. `volume` produces `"<novel> - Vol NN.epub"`;
/// `None` produces the single-file `"<novel>.epub"`.
pub fn epub_path(library: &str, author: Option<&str>, title: &str, volume: Option<u32>) -> (r:
    LibraryPath)
    ensures
        r.root@ == library@,
        r.components() == epub_parts(opt_str(author), title@, volume),
{
    let name = util::sanitize_filename(title);
    let mut file = text::to_chars(name.as_str());
    if let Some(v) = volume {
        let d = text::decimal_chars(v as u64);
        let n = text::pad_zero(&d, 2);
        text::push_str(&mut file, " - Vol ");
        text::push_all(&mut file, &n);
    }
    text::push_str(&mut file, ".epub");
    assert(file@ == epub_name(title@, volume));
    let mut r = novel_dir(library, author, title);
    let ghost before = r.components();
    r.parts.push(text::to_text(&file));
    assert(r.components() =~= before.push(epub_name(title@, volume)));
    r
}

/// A novel's EPUB, and every volume of it, lies in the novel's folder.
pub proof fn law_epub_lies_in_novel_dir(
    author: Option<Seq<char>>,
    title: Seq<char>,
    volume: Option<u32>,
)
    ensures
        epub_parts(author, title, volume).drop_last() == novel_parts(author, title),
{
    assert(epub_parts(author, title, volume).drop_last() =~= novel_parts(author, title));
}

/// Each volume of a novel has a file of its own.
pub proof fn law_volumes_have_their_own_files(title: Seq<char>, a: u32, b: u32)
    requires
        epub_name(title, Some(a)) == epub_name(title, Some(b)),
    ensures
        a == b,
{
    let head = util::sanitized(title) + " - Vol "@;
    let x = text::padded(text::decimal(a as nat), 2);
    let y = text::padded(text::decimal(b as nat), 2);
    let whole = epub_name(title, Some(a));
    reveal_strlit(".epub");
    assert(whole.len() == head.len() + x.len() + ".epub"@.len());
    assert(epub_name(title, Some(b)).len() == head.len() + y.len() + ".epub"@.len());
    assert(x =~= whole.subrange(head.len() as int, (head.len() + x.len()) as int));
    assert(y =~= whole.subrange(head.len() as int, (head.len() + x.len()) as int)) by {
        assert(epub_name(title, Some(b)).subrange(head.len() as int, (head.len() + y.len()) as int) =~= y);
    }
    text::lemma_decimal(a as nat);
    text::lemma_decimal(b as nat);
    text::lemma_padded(text::decimal(a as nat), 2);
    text::lemma_padded(text::decimal(b as nat), 2);
}

/// A novel's EPUB lies in a folder for its author and one for its title, under its title; a volume
/// has its number, of two digits at least, behind the title. A novel without an author lies under
/// the name for unknown ones.
pub proof fn law_an_epub_lies_by_author_and_title(
    author: Seq<char>,
    title: Seq<char>,
    volume: u32,
)
    ensures
        text::trimmed(author).len() > 0 ==> epub_parts(Some(author), title, None) == seq![
            util::sanitized(text::trimmed(author)),
            util::sanitized(title),
            util::sanitized(title) + ".epub"@,
        ],
        text::trimmed(author).len() > 0 ==> epub_parts(Some(author), title, Some(volume)) == seq![
            util::sanitized(text::trimmed(author)),
            util::sanitized(title),
            util::sanitized(title) + " - Vol "@ + text::padded(text::decimal(volume as nat), 2)
                + ".epub"@,
        ],
        text::trimmed(author).len() == 0 ==> author_folder(Some(author)) == author_folder(None),
        author_folder(None) == "Unknown Author"@,
        novel_parts(None, title) == seq!["Unknown Author"@, util::sanitized(title)],
{
    reveal_strlit("Unknown Author");
    let u = "Unknown Author"@;
    assert(UNKNOWN_AUTHOR@ == u);
    assert(u.len() == 14);
    assert(!util::is_reserved(u)) by {
        assert forall|j: int| 0 <= j < u.len() implies text::not('.')(#[trigger] u[j]) by {}
        text::lemma_span_is(u, text::not('.'), 14);
        let up = text::upper(u.take(14));
        assert(up.len() == 14);
        lemma_reserved_names_are_short(up);
    }
    assert(!util::all_underscores(u)) by {
        assert(u[0] == 'U');
    }
    assert forall|i: int| 0 <= i < u.len() implies !util::illegal(#[trigger] u[i]) by {}
    util::law_a_fit_name_stays(u);
}

proof fn lemma_reserved_names_are_short(name: Seq<char>)
    requires
        name.len() > 4,
    ensures
        !util::reserved_names().contains(name),
{
    reveal_strlit("CON");
    reveal_strlit("PRN");
    reveal_strlit("AUX");
    reveal_strlit("NUL");
    reveal_strlit("COM1");
    reveal_strlit("COM2");
    reveal_strlit("COM3");
    reveal_strlit("COM4");
    reveal_strlit("COM5");
    reveal_strlit("COM6");
    reveal_strlit("COM7");
    reveal_strlit("COM8");
    reveal_strlit("COM9");
    reveal_strlit("LPT1");
    reveal_strlit("LPT2");
    reveal_strlit("LPT3");
    reveal_strlit("LPT4");
    reveal_strlit("LPT5");
    reveal_strlit("LPT6");
    reveal_strlit("LPT7");
    reveal_strlit("LPT8");
    reveal_strlit("LPT9");
    let names = util::reserved_names();
    assert forall|i: int| 0 <= i < names.len() implies (#[trigger] names[i]).len() <= 4 by {}
}

} // verus!
