//! Hand-written adapter for freewebnovel.com.
//!
//! The site's table of contents is paginated by script, so there is no page to
//! scrape it from. Chapter URLs are sequential (`/novel/<slug>/chapter-<n>`) and
//! the landing page states how many there are, so the whole chapter list comes
//! out of a single request. The site also injects adverts into its chapters;
//! [`strip_promo`] takes them out again.

use vstd::prelude::*;
use vstd::slice::slice_subrange;

use crate::model::{Chapter, ChapterRef, ChapterView, RefView};
use crate::source;
use crate::text;
use crate::util;
use crate::web;

verus! {

// ---------------------------------------------------------------------------
// What an injected mark looks like
// ---------------------------------------------------------------------------

/// Words the promo lines put between the pitch and the site's name.
pub open spec fn prepositions() -> Seq<Seq<char>> {
    seq!["on"@, "at"@, "from"@, "with"@, "by"@, "through"@, "via"@, "to"@]
}

/// Words the site opens a pitch with, required for the `empire` spelling only.
///
/// Without this, a paragraph ending "The road to empire." matches the shape of
/// a mark. That sentence is prose, and eating it would be silent and permanent,
/// while missing a mark costs a cosmetic line. `freewebnovel` needs no list,
/// since naming the site is never prose.
pub open spec fn pitch_openers() -> Seq<Seq<char>> {
    seq![
        "Continue"@, "Discover"@, "Enjoy"@, "Experience"@, "Explore"@, "Find"@, "Read"@, "Stay"@,
        "Your"@,
    ]
}

/// Longest pitch a mark uses, in words before the preposition.
pub const PROMO_MAX_PITCH_WORDS: usize = 6;

/// Punctuation the site wraps a mark in, on the opening side.
pub open spec fn is_mark_opener(c: char) -> bool {
    ||| c == '"'
    ||| c == '\''
    ||| c == '\u{201c}'
    ||| c == '\u{2018}'
    ||| c == '('
    ||| c == '['
    ||| c == '<'
    ||| c == '*'
}

/// The same on the closing side, plus the stop a mark sometimes carries.
pub open spec fn is_mark_closer(c: char) -> bool {
    ||| c == '"'
    ||| c == '\''
    ||| c == '\u{201d}'
    ||| c == '\u{2019}'
    ||| c == ')'
    ||| c == ']'
    ||| c == '>'
    ||| c == '*'
    ||| c == '.'
    ||| c == '!'
    ||| c == ','
}

/// A word is letters plus inner apostrophes and hyphens, so punctuation glued
/// to one ends the word instead of joining it, which is what keeps a mark's
/// pitch from reaching back into the sentence before it. A quote in front of a word
/// is no apostrophe.
pub open spec fn is_word_char(c: char) -> bool {
    text::alphabetic(c) || c == '\'' || c == '\u{2019}' || c == '-'
}

pub open spec fn openers() -> spec_fn(char) -> bool {
    |c: char| is_mark_opener(c)
}

pub open spec fn word_chars() -> spec_fn(char) -> bool {
    |c: char| is_word_char(c)
}

pub open spec fn apostrophes() -> spec_fn(char) -> bool {
    |c: char| c == '\'' || c == '\u{2019}'
}

pub open spec fn blanks() -> spec_fn(char) -> bool {
    |c: char| c == ' ' || c == '\t'
}

/// Where the word before `pos` starts and ends.
pub open spec fn word_before(s: Seq<char>, pos: int) -> Option<(int, int)> {
    let end = pos - text::span_back(s.take(pos), blanks());
    let run = end - text::span_back(s.take(end), word_chars());
    let start = run + text::span(s.subrange(run, end), apostrophes());
    if start < end {
        Some((start, end))
    } else {
        None
    }
}

/// `start`, moved back over the quotes and brackets glued to it.
pub open spec fn with_openers(s: Seq<char>, start: int) -> int {
    start - text::span_back(s.take(start), openers())
}

/// `end`, moved past the closing punctuation after it, blanks between included.
pub open spec fn with_closers(s: Seq<char>, end: int) -> int
    decreases s.len() - end,
{
    proof {
        text::lemma_span(s.skip(end), blanks());
    }
    let gap = text::span(s.skip(end), blanks());
    if 0 <= end && end + gap < s.len() && is_mark_closer(s[end + gap]) {
        with_closers(s, end + gap + 1)
    } else {
        end
    }
}

/// Where the pitch that runs up to `cursor` begins: at the nearest capitalised
/// word, at most `budget` words back, with single blanks between them.
pub open spec fn pitch_start(s: Seq<char>, cursor: int, budget: nat) -> Option<int>
    decreases budget,
{
    if budget == 0 {
        None
    } else {
        match word_before(s, cursor) {
            None => None,
            Some((start, _)) => if text::uppercase(s[start]) {
                Some(with_openers(s, start))
            } else if start > 0 && s[start - 1] == ' ' {
                pitch_start(s, start, (budget - 1) as nat)
            } else {
                None
            },
        }
    }
}

/// Where the injected sentence that ends on the site name at `site` begins, if
/// the words before the name are a promo pitch.
pub open spec fn phrase_start(s: Seq<char>, site: int) -> Option<int> {
    match word_before(s, site) {
        None => None,
        Some((start, end)) => if text::any_ci(prepositions(), s.subrange(start, end)) {
            pitch_start(s, start, PROMO_MAX_PITCH_WORDS as nat)
        } else {
            None
        },
    }
}

/// Whether the phrase at `begin` opens with one of the site's pitch words.
pub open spec fn opens_a_pitch(s: Seq<char>, begin: int) -> bool {
    let a = s.skip(begin);
    let b = a.skip(text::span(a, openers()));
    text::any_ci(pitch_openers(), b.take(text::span(b, word_chars())))
}

/// Whether only a mark's own trailing punctuation follows.
pub open spec fn only_decoration(s: Seq<char>) -> bool {
    forall|i: int| 0 <= i < s.len() ==> text::is_white(#[trigger] s[i]) || is_mark_closer(s[i])
}

// ---------------------------------------------------------------------------
// Where the marks are
// ---------------------------------------------------------------------------

/// How much of a ".com" follows the site name.
pub open spec fn domain_len(s: Seq<char>, at: int) -> int {
    if text::occurs_at(text::lower(s), ".com"@, at) {
        4
    } else if text::occurs_at(text::lower(s), ". com"@, at) {
        5
    } else {
        0
    }
}

pub proof fn lemma_with_closers(s: Seq<char>, end: int)
    requires
        0 <= end <= s.len(),
    ensures
        end <= with_closers(s, end) <= s.len(),
    decreases s.len() - end,
{
    text::lemma_span(s.skip(end), blanks());
    let gap = text::span(s.skip(end), blanks());
    if end + gap < s.len() && is_mark_closer(s[end + gap]) {
        lemma_with_closers(s, end + gap + 1);
    }
}

/// Where the mark that names the site at `at` ends.
pub open spec fn site_mark_end(s: Seq<char>, at: int) -> int {
    with_closers(s, at + 12 + domain_len(s, at + 12))
}

pub open spec fn site_mark(s: Seq<char>, at: int) -> (int, int) {
    (
        match phrase_start(s, at) {
            Some(b) => b,
            None => with_openers(s, at),
        },
        site_mark_end(s, at),
    )
}

pub proof fn lemma_site_mark_end(s: Seq<char>, at: int)
    requires
        0 <= at,
        at + 12 <= s.len(),
    ensures
        at + 12 <= site_mark_end(s, at) <= s.len(),
{
    reveal_strlit(".com");
    reveal_strlit(". com");
    lemma_with_closers(s, at + 12 + domain_len(s, at + 12));
}

/// The marks that name `freewebnovel`, which is removed wherever it appears,
/// with its pitch when it has one: no story says the word, so every occurrence
/// is the site talking.
pub open spec fn site_marks(s: Seq<char>, from: int) -> Seq<(int, int)>
    decreases s.len() - from,
{
    proof {
        reveal_strlit("freewebnovel");
        if 0 <= from {
            text::lemma_find_from(text::lower(s), "freewebnovel"@, from);
            if let Some(at) = text::find_from(text::lower(s), "freewebnovel"@, from) {
                lemma_site_mark_end(s, at);
            }
        }
    }
    match text::find_from(text::lower(s), "freewebnovel"@, from) {
        Some(at) => if 0 <= from {
            seq![site_mark(s, at)] + site_marks(s, site_mark_end(s, at))
        } else {
            seq![]
        },
        None => seq![],
    }
}

/// Whether the word of `len` characters at `i` has no letter or digit glued to
/// either side.
pub open spec fn bounded(s: Seq<char>, i: int, len: int) -> bool {
    &&& i == 0 || !text::alphanumeric(s[i - 1])
    &&& i + len == s.len() || !text::alphanumeric(s[i + len])
}

/// The first "empire" that stands as a word of its own at or after `from`.
pub open spec fn find_empire(s: Seq<char>, from: int) -> Option<int>
    decreases s.len() - from,
{
    proof {
        reveal_strlit("empire");
        if 0 <= from {
            text::lemma_find_from(s, "empire"@, from);
        }
    }
    match text::find_from(s, "empire"@, from) {
        Some(i) => if from < 0 {
            None
        } else if bounded(s, i, 6) {
            Some(i)
        } else {
            find_empire(s, i + 6)
        },
        None => None,
    }
}

pub proof fn lemma_find_empire(s: Seq<char>, from: int)
    requires
        0 <= from,
    ensures
        find_empire(s, from) matches Some(i) ==> from <= i && i + 6 <= s.len(),
    decreases s.len() - from,
{
    reveal_strlit("empire");
    text::lemma_find_from(s, "empire"@, from);
    if let Some(i) = text::find_from(s, "empire"@, from) {
        if !bounded(s, i, 6) {
            lemma_find_empire(s, i + 6);
        }
    }
}

/// The marks that name `empire`, a sister site. Prose is full of an in-story
/// empire, so a mark must carry a pitch from the known list and must end the
/// paragraph.
pub open spec fn empire_marks(s: Seq<char>, from: int) -> Seq<(int, int)>
    decreases s.len() - from,
{
    proof {
        if 0 <= from {
            lemma_find_empire(s, from);
        }
    }
    match find_empire(s, from) {
        None => seq![],
        Some(at) => if from < 0 {
            seq![]
        } else {
            let end = with_closers(s, at + 6);
            let rest = empire_marks(s, at + 6);
            match phrase_start(s, at) {
                Some(begin) => if only_decoration(s.skip(end)) && opens_a_pitch(s, begin) {
                    seq![(begin, end)] + rest
                } else {
                    rest
                },
                None => rest,
            }
        },
    }
}

/// Every injected mark in `s`, as positions from and up to.
pub open spec fn marks(s: Seq<char>) -> Seq<(int, int)> {
    site_marks(s, 0) + empire_marks(s, 0)
}

// ---------------------------------------------------------------------------
// Taking them out
// ---------------------------------------------------------------------------

pub open spec fn covered(spans: Seq<(int, int)>, i: int) -> bool {
    exists|k: int| 0 <= k < spans.len() && (#[trigger] spans[k]).0 <= i < spans[k].1
}

/// The characters of the first `n` of `s` that no span covers.
pub open spec fn uncovered(s: Seq<char>, spans: Seq<(int, int)>, n: int) -> Seq<char>
    decreases n,
{
    if n <= 0 {
        seq![]
    } else if covered(spans, n - 1) {
        uncovered(s, spans, n - 1)
    } else {
        uncovered(s, spans, n - 1).push(s[n - 1])
    }
}

pub open spec fn has_alphanumeric(s: Seq<char>) -> bool {
    exists|i: int| 0 <= i < s.len() && text::alphanumeric(#[trigger] s[i])
}

/// A paragraph without its marks; `None` when nothing but marks and stray
/// punctuation is left.
pub open spec fn without_promo(paragraph: Seq<char>) -> Option<Seq<char>> {
    let s = text::trimmed(paragraph);
    if marks(s).len() == 0 {
        if s.len() > 0 {
            Some(s)
        } else {
            None
        }
    } else {
        let tidy = text::join(text::words(uncovered(s, marks(s), s.len() as int)), " "@);
        if has_alphanumeric(tidy) {
            Some(tidy)
        } else {
            None
        }
    }
}

/// The paragraphs that survive, in order.
pub open spec fn survivors(paragraphs: Seq<Seq<char>>) -> Seq<Seq<char>>
    decreases paragraphs.len(),
{
    if paragraphs.len() == 0 {
        seq![]
    } else {
        match without_promo(paragraphs.last()) {
            Some(p) => survivors(paragraphs.drop_last()).push(p),
            None => survivors(paragraphs.drop_last()),
        }
    }
}

/// A chapter without its marks: the original if they account for all of it.
pub open spec fn cleaned_chapter(paragraphs: Seq<Seq<char>>) -> Seq<Seq<char>> {
    if survivors(paragraphs).len() == 0 {
        paragraphs
    } else {
        survivors(paragraphs)
    }
}

// ---------------------------------------------------------------------------
// The search itself
// ---------------------------------------------------------------------------

fn mark_opener(c: char) -> (r: bool)
    ensures
        r == is_mark_opener(c),
{
    c == '"' || c == '\'' || c == '\u{201c}' || c == '\u{2018}' || c == '(' || c == '[' || c == '<'
        || c == '*'
}

fn mark_closer(c: char) -> (r: bool)
    ensures
        r == is_mark_closer(c),
{
    c == '"' || c == '\'' || c == '\u{201d}' || c == '\u{2019}' || c == ')' || c == ']' || c == '>'
        || c == '*' || c == '.' || c == '!' || c == ','
}

fn word_char(c: char) -> (r: bool)
    ensures
        r == is_word_char(c),
{
    c.is_alphabetic() || c == '\'' || c == '\u{2019}' || c == '-'
}

fn previous_word(s: &[char], pos: usize) -> (r: Option<(usize, usize)>)
    requires
        pos <= s.len(),
    ensures
        r is Some == word_before(s@, pos as int) is Some,
        r matches Some((b, e)) ==> word_before(s@, pos as int) == Some((b as int, e as int)) && b
            < e <= pos,
{
    let mut end: usize = pos;
    while end > 0 && (s[end - 1] == ' ' || s[end - 1] == '\t')
        invariant
            end <= pos <= s.len(),
            forall|j: int| end <= j < pos ==> #[trigger] s@.take(pos as int)[j] == ' ' || s@.take(
                pos as int,
            )[j] == '\t',
        decreases end,
    {
        end -= 1;
        assert(s@.take(pos as int)[end as int] == s@[end as int]);
    }
    proof {
        if end > 0 {
            assert(s@.take(pos as int)[end - 1] == s@[end - 1]);
        }
        text::lemma_span_back_is(s@.take(pos as int), blanks(), pos - end);
    }
    let mut run: usize = end;
    while run > 0 && word_char(s[run - 1])
        invariant
            run <= end <= s.len(),
            forall|j: int|
                run <= j < end ==> is_word_char(#[trigger] s@.take(end as int)[j]),
        decreases run,
    {
        run -= 1;
        assert(s@.take(end as int)[run as int] == s@[run as int]);
    }
    proof {
        if run > 0 {
            assert(s@.take(end as int)[run - 1] == s@[run - 1]);
        }
        text::lemma_span_back_is(s@.take(end as int), word_chars(), end - run);
    }
    let ghost word = s@.subrange(run as int, end as int);
    let mut start: usize = run;
    while start < end && (s[start] == '\'' || s[start] == '\u{2019}')
        invariant
            run <= start <= end <= s.len(),
            word == s@.subrange(run as int, end as int),
            forall|j: int| 0 <= j < start - run ==> #[trigger] word[j] == '\'' || word[j] == '\u{2019}',
        decreases end - start,
    {
        assert(word[start - run] == s@[start as int]);
        start += 1;
    }
    proof {
        if start < end {
            assert(word[start - run] == s@[start as int]);
        }
        text::lemma_span_is(word, apostrophes(), start - run);
    }
    if start < end {
        Some((start, end))
    } else {
        None
    }
}

fn absorb_openers(s: &[char], start: usize) -> (r: usize)
    requires
        start <= s.len(),
    ensures
        r == with_openers(s@, start as int),
        r <= start,
{
    let mut at: usize = start;
    while at > 0 && mark_opener(s[at - 1])
        invariant
            at <= start <= s.len(),
            forall|j: int|
                at <= j < start ==> is_mark_opener(#[trigger] s@.take(start as int)[j]),
        decreases at,
    {
        at -= 1;
        assert(s@.take(start as int)[at as int] == s@[at as int]);
    }
    proof {
        if at > 0 {
            assert(s@.take(start as int)[at - 1] == s@[at - 1]);
        }
        text::lemma_span_back_is(s@.take(start as int), openers(), start - at);
    }
    at
}

fn absorb_closers(s: &[char], end: usize) -> (r: usize)
    requires
        end <= s.len(),
    ensures
        r == with_closers(s@, end as int),
        end <= r <= s.len(),
{
    let mut at: usize = end;
    loop
        invariant
            end <= at <= s.len(),
            with_closers(s@, end as int) == with_closers(s@, at as int),
        decreases s.len() - at,
    {
        let ghost rest = s@.skip(at as int);
        let mut k: usize = at;
        while k < s.len() && (s[k] == ' ' || s[k] == '\t')
            invariant
                at <= k <= s.len(),
                rest == s@.skip(at as int),
                forall|j: int| 0 <= j < k - at ==> #[trigger] rest[j] == ' ' || rest[j] == '\t',
            decreases s.len() - k,
        {
            assert(rest[k - at] == s@[k as int]);
            k += 1;
        }
        proof {
            if k < s.len() {
                assert(rest[k - at] == s@[k as int]);
            }
            text::lemma_span_is(rest, blanks(), k - at);
        }
        if k < s.len() && mark_closer(s[k]) {
            at = k + 1;
        } else {
            return at;
        }
    }
}

fn pitch_from(s: &[char], cursor: usize, budget: usize) -> (r: Option<usize>)
    requires
        cursor <= s.len(),
    ensures
        r is Some == pitch_start(s@, cursor as int, budget as nat) is Some,
        r matches Some(b) ==> b == pitch_start(s@, cursor as int, budget as nat)->0 && b <= cursor,
    decreases budget,
{
    if budget == 0 {
        return None;
    }
    match previous_word(s, cursor) {
        None => None,
        Some((start, _)) => if s[start].is_uppercase() {
            Some(absorb_openers(s, start))
        } else if start > 0 && s[start - 1] == ' ' {
            pitch_from(s, start, budget - 1)
        } else {
            None
        },
    }
}

fn find_phrase(s: &[char], site: usize) -> (r: Option<usize>)
    requires
        site <= s.len(),
    ensures
        r is Some == phrase_start(s@, site as int) is Some,
        r matches Some(b) ==> b == phrase_start(s@, site as int)->0 && b <= site,
{
    match previous_word(s, site) {
        None => None,
        Some((start, end)) => {
            let words: [&str; 8] = ["on", "at", "from", "with", "by", "through", "via", "to"];
            assert(words@.map_values(|x: &str| x@) == prepositions());
            if text::listed_ci(&words, slice_subrange(s, start, end)) {
                pitch_from(s, start, PROMO_MAX_PITCH_WORDS)
            } else {
                None
            }
        },
    }
}

fn starts_pitch(s: &[char], begin: usize) -> (r: bool)
    requires
        begin <= s.len(),
    ensures
        r == opens_a_pitch(s@, begin as int),
{
    let a = slice_subrange(s, begin, s.len());
    assert(a@ == s@.skip(begin as int));
    let mut i: usize = 0;
    while i < a.len() && mark_opener(a[i])
        invariant
            i <= a.len(),
            forall|j: int| 0 <= j < i ==> is_mark_opener(#[trigger] a@[j]),
        decreases a.len() - i,
    {
        i += 1;
    }
    proof {
        text::lemma_span_is(a@, openers(), i as int);
    }
    let b = slice_subrange(a, i, a.len());
    assert(b@ == a@.skip(i as int));
    let mut n: usize = 0;
    while n < b.len() && word_char(b[n])
        invariant
            n <= b.len(),
            forall|j: int| 0 <= j < n ==> is_word_char(#[trigger] b@[j]),
        decreases b.len() - n,
    {
        n += 1;
    }
    proof {
        text::lemma_span_is(b@, word_chars(), n as int);
    }
    let word = slice_subrange(b, 0, n);
    assert(word@ == b@.take(n as int));
    let words: [&str; 9] = [
        "Continue", "Discover", "Enjoy", "Experience", "Explore", "Find", "Read", "Stay", "Your",
    ];
    assert(words@.map_values(|x: &str| x@) == pitch_openers());
    text::listed_ci(&words, word)
}

fn is_decoration(s: &[char], from: usize) -> (r: bool)
    requires
        from <= s.len(),
    ensures
        r == only_decoration(s@.skip(from as int)),
{
    let ghost rest = s@.skip(from as int);
    let mut i: usize = from;
    while i < s.len()
        invariant
            from <= i <= s.len(),
            rest == s@.skip(from as int),
            forall|j: int|
                0 <= j < i - from ==> text::is_white(#[trigger] rest[j]) || is_mark_closer(rest[j]),
        decreases s.len() - i,
    {
        assert(rest[i - from] == s@[i as int]);
        if !text::whitespace(s[i]) && !mark_closer(s[i]) {
            return false;
        }
        i += 1;
    }
    true
}

pub open spec fn ends(v: Seq<(usize, usize)>) -> Seq<(int, int)> {
    v.map_values(|p: (usize, usize)| (p.0 as int, p.1 as int))
}

fn find_site_marks(s: &[char], out: &mut Vec<(usize, usize)>)
    ensures
        ends(final(out)@) == ends(old(out)@) + site_marks(s@, 0),
{
    let low = text::lower_chars(s);
    let needle = text::to_chars("freewebnovel");
    let com = text::to_chars(".com");
    let spaced = text::to_chars(". com");
    proof {
        reveal_strlit("freewebnovel");
        reveal_strlit(".com");
        reveal_strlit(". com");
    }
    let ghost before = ends(out@);
    let mut from: usize = 0;
    loop
        invariant
            from <= s.len(),
            low@ == text::lower(s@),
            low@.len() == s@.len(),
            needle@ == "freewebnovel"@,
            needle@.len() == 12,
            com@ == ".com"@,
            spaced@ == ". com"@,
            com@.len() == 4,
            spaced@.len() == 5,
            before == ends(old(out)@),
            before + site_marks(s@, 0) == ends(out@) + site_marks(s@, from as int),
        decreases s.len() - from,
    {
        match text::find(&low, &needle, from) {
            None => {
                assert(ends(out@) + site_marks(s@, from as int) == ends(out@));
                return;
            },
            Some(start) => {
                assert(start + 12 <= s.len());
                let name_end: usize = start + 12;
                let end0: usize = if text::occurs(&low, &com, name_end) {
                    name_end + 4
                } else if text::occurs(&low, &spaced, name_end) {
                    name_end + 5
                } else {
                    name_end
                };
                assert(end0 == start + 12 + domain_len(s@, start + 12));
                let end: usize = absorb_closers(s, end0);
                let begin: usize = match find_phrase(s, start) {
                    Some(b) => b,
                    None => absorb_openers(s, start),
                };
                let ghost prev = out@;
                out.push((begin, end));
                proof {
                    lemma_site_mark_end(s@, start as int);
                    assert(ends(out@) == ends(prev).push(site_mark(s@, start as int)));
                    assert(ends(out@) + site_marks(s@, end as int) == ends(prev) + (seq![
                        site_mark(s@, start as int),
                    ] + site_marks(s@, end as int)));
                }
                from = end;
            },
        }
    }
}

fn find_empire_word(s: &[char], from: usize) -> (r: Option<usize>)
    requires
        from <= s.len(),
    ensures
        r is Some == find_empire(s@, from as int) is Some,
        r matches Some(i) ==> i == find_empire(s@, from as int)->0 && from <= i && i + 6 <= s.len(),
{
    let needle = text::to_chars("empire");
    proof {
        reveal_strlit("empire");
    }
    let mut at: usize = from;
    loop
        invariant
            from <= at <= s.len(),
            needle@ == "empire"@,
            needle@.len() == 6,
            find_empire(s@, from as int) == find_empire(s@, at as int),
        decreases s.len() - at,
    {
        match text::find(s, &needle, at) {
            None => return None,
            Some(i) => {
                assert(i + 6 <= s.len());
                let open_left = i == 0 || !s[i - 1].is_alphanumeric();
                let open_right = i + 6 == s.len() || !s[i + 6].is_alphanumeric();
                if open_left && open_right {
                    return Some(i);
                }
                at = i + 6;
            },
        }
    }
}

fn find_empire_marks(s: &[char], out: &mut Vec<(usize, usize)>)
    ensures
        ends(final(out)@) == ends(old(out)@) + empire_marks(s@, 0),
{
    let ghost before = ends(out@);
    let mut from: usize = 0;
    loop
        invariant
            from <= s.len(),
            before == ends(old(out)@),
            before + empire_marks(s@, 0) == ends(out@) + empire_marks(s@, from as int),
        decreases s.len() - from,
    {
        match find_empire_word(s, from) {
            None => {
                assert(ends(out@) + empire_marks(s@, from as int) == ends(out@));
                return;
            },
            Some(start) => {
                let end: usize = absorb_closers(s, start + 6);
                let ghost prev = out@;
                if let Some(begin) = find_phrase(s, start) {
                    if is_decoration(s, end) && starts_pitch(s, begin) {
                        out.push((begin, end));
                        assert(ends(out@) == ends(prev).push((begin as int, end as int)));
                    }
                }
                from = start + 6;
                assert(ends(out@) + empire_marks(s@, from as int) == ends(prev) + (if ends(
                    out@,
                ).len() > ends(prev).len() {
                    seq![ends(out@).last()] + empire_marks(s@, from as int)
                } else {
                    empire_marks(s@, from as int)
                }));
            },
        }
    }
}

fn is_covered(spans: &Vec<(usize, usize)>, i: usize) -> (r: bool)
    ensures
        r == covered(ends(spans@), i as int),
{
    let mut k: usize = 0;
    while k < spans.len()
        invariant
            k <= spans.len(),
            forall|j: int|
                0 <= j < k ==> !((#[trigger] ends(spans@)[j]).0 <= i < ends(spans@)[j].1),
        decreases spans.len() - k,
    {
        assert(ends(spans@)[k as int] == (spans@[k as int].0 as int, spans@[k as int].1 as int));
        if spans[k].0 <= i && i < spans[k].1 {
            return true;
        }
        k += 1;
    }
    false
}

fn keep_uncovered(s: &[char], spans: &Vec<(usize, usize)>) -> (r: Vec<char>)
    ensures
        r@ == uncovered(s@, ends(spans@), s@.len() as int),
{
    let mut r: Vec<char> = Vec::new();
    let mut i: usize = 0;
    while i < s.len()
        invariant
            i <= s.len(),
            r@ == uncovered(s@, ends(spans@), i as int),
        decreases s.len() - i,
    {
        if !is_covered(spans, i) {
            r.push(s[i]);
        }
        i += 1;
    }
    r
}

fn any_alphanumeric(s: &[char]) -> (r: bool)
    ensures
        r == has_alphanumeric(s@),
{
    let mut i: usize = 0;
    while i < s.len()
        invariant
            i <= s.len(),
            forall|j: int| 0 <= j < i ==> !text::alphanumeric(#[trigger] s@[j]),
        decreases s.len() - i,
    {
        if s[i].is_alphanumeric() {
            return true;
        }
        i += 1;
    }
    false
}

/// Remove the site's injected adverts from a paragraph.
///
/// Returns `None` when nothing but the advert (and stray punctuation) is left.
pub fn strip_promo(paragraph: &str) -> (r: Option<String>)
    ensures
        r is Some == without_promo(paragraph@) is Some,
        r matches Some(p) ==> p@ == without_promo(paragraph@)->0,
{
    let raw = text::to_chars(paragraph);
    let s = text::trim(&raw);
    let mut spans: Vec<(usize, usize)> = Vec::new();
    find_site_marks(s, &mut spans);
    find_empire_marks(s, &mut spans);
    assert(ends(spans@) == marks(s@));
    if spans.len() == 0 {
        assert(marks(s@).len() == 0);
        return if s.len() > 0 {
            Some(text::to_text(s))
        } else {
            None
        };
    }
    assert(marks(s@).len() == spans@.len());
    let kept = keep_uncovered(s, &spans);
    let pieces = text::split_words(&kept);
    let tidy = text::join_chars(&pieces, " ");
    if any_alphanumeric(&tidy) {
        Some(text::to_text(&tidy))
    } else {
        None
    }
}

/// Apply [`strip_promo`] across a chapter, keeping the original if the marks
/// somehow account for all of it: a chapter with the advert still in it beats
/// no chapter at all.
pub fn strip_promo_paragraphs(paragraphs: &[String]) -> (r: Vec<String>)
    ensures
        text::texts(r@) == cleaned_chapter(text::texts(paragraphs@)),
{
    let ghost all = text::texts(paragraphs@);
    let mut cleaned: Vec<String> = Vec::new();
    let mut i: usize = 0;
    while i < paragraphs.len()
        invariant
            i <= paragraphs.len(),
            all == text::texts(paragraphs@),
            text::texts(cleaned@) == survivors(all.take(i as int)),
        decreases paragraphs.len() - i,
    {
        proof {
            let t = all.take(i + 1);
            assert(t.drop_last() == all.take(i as int));
            assert(t.last() == paragraphs@[i as int]@);
        }
        if let Some(p) = strip_promo(paragraphs[i].as_str()) {
            let ghost before = cleaned@;
            cleaned.push(p);
            assert(text::texts(cleaned@) == text::texts(before).push(p@));
        }
        i += 1;
    }
    assert(all.take(all.len() as int) == all);
    if cleaned.len() == 0 {
        assert(survivors(all).len() == 0);
        return text::copy_texts(paragraphs);
    }
    assert(survivors(all).len() == cleaned@.len());
    cleaned
}

// ---------------------------------------------------------------------------
// The adapter
// ---------------------------------------------------------------------------

/// The freewebnovel adapter, over whatever fetches its pages.
pub struct FreewebnovelSource<F> {
    pub fetcher: F,
}

/// Where a chapter's prose stands on its page.
pub const CONTENT_SELECTOR: &'static str = ".txt";

pub const PARAGRAPH_SELECTOR: &'static str = "p";

/// The total a landing page states in `data-total-chapters`.
pub open spec fn stated_total(attribute: Option<Seq<char>>) -> Option<nat> {
    match attribute {
        Some(s) => text::parsed(text::trimmed(s), u32::MAX as nat),
        None => None,
    }
}

/// The total out of the attribute's value.
pub fn total_from(attribute: &Option<String>) -> (r: Option<u32>)
    ensures
        r is Some == stated_total(text::opt(*attribute)) is Some,
        r matches Some(n) ==> n == stated_total(text::opt(*attribute))->0,
{
    match attribute {
        Some(s) => {
            let v = text::to_chars(s.as_str());
            text::parse_u32(text::trim(&v))
        },
        None => None,
    }
}

/// What a landing page's `data-total-chapters` attribute holds.
pub open spec fn total_attribute(html: Seq<char>) -> Option<Seq<char>> {
    source::first_attr(web::selected(html, "[data-total-chapters]"@, "data-total-chapters"@))
}

/// Read `data-total-chapters="N"` from the landing page.
pub fn parse_total_chapters(html: &str) -> (r: Option<u32>)
    ensures
        r is Some == stated_total(total_attribute(html@)) is Some,
        r matches Some(n) ==> n == stated_total(total_attribute(html@))->0,
{
    total_from(&source::select_attr(html, "[data-total-chapters]", "data-total-chapters"))
}

/// A page title without a trailing "| Free Web Novel".
pub open spec fn without_site_suffix(title: Seq<char>) -> Seq<char> {
    let tail = text::span_back(title, text::not('|'));
    let cut = title.len() - tail - 1;
    if tail < title.len() && text::eq_ci(
        text::trimmed(title.skip(cut + 1)),
        "Free Web Novel"@,
    ) {
        text::trimmed(title.take(cut))
    } else {
        title
    }
}

fn site_suffix_off(title: &[char]) -> (r: Vec<char>)
    ensures
        r@ == without_site_suffix(title@),
{
    let tail: usize = text::after_last_char(title, '|');
    if tail < title.len() {
        let cut: usize = title.len() - tail - 1;
        let brand = text::to_chars("Free Web Novel");
        let end = slice_subrange(title, cut + 1, title.len());
        assert(end@ == title@.skip(cut + 1));
        if text::same_ci(text::trim(end), &brand) {
            let head = slice_subrange(title, 0, cut);
            assert(head@ == title@.take(cut as int));
            let t = text::trim(head);
            let r = text::slice(t, 0, t.len());
            assert(r@ == t@);
            return r;
        }
    }
    let r = text::slice(title, 0, title.len());
    assert(r@ == title@);
    r
}

/// Drop the trailing "| Free Web Novel" branding, leaving any earlier `|` (the
/// one separating "Chapter N" from its name) intact.
pub fn strip_site_suffix(title: &str) -> (r: String)
    ensures
        r@ == without_site_suffix(title@),
{
    let v = text::to_chars(title);
    let r = site_suffix_off(&v);
    text::to_text(&r)
}

/// The chapter's name in a page title such as
/// "Novel - Chapter N | Name | Free Web Novel". Anchors on " - Chapter ", so that
/// a novel name containing " - " doesn't break it.
pub open spec fn title_in(raw: Seq<char>) -> Option<Seq<char>> {
    let t = without_site_suffix(text::trimmed(raw));
    match text::find_from(t, " - Chapter "@, 0) {
        None => None,
        Some(i) => source::nonempty(Some(util::cleaned_title(text::trimmed(t.skip(i + 3))))),
    }
}

/// The chapter's name out of a page title.
pub fn title_from(raw: &str) -> (r: Option<String>)
    ensures
        text::opt(r) == title_in(raw@),
{
    let v = text::to_chars(raw);
    let t = site_suffix_off(text::trim(&v));
    let needle = text::to_chars(" - Chapter ");
    proof {
        reveal_strlit(" - Chapter ");
    }
    match text::find(&t, &needle, 0) {
        None => None,
        Some(i) => {
            assert(i + 3 <= t.len());
            let rest = slice_subrange(t.as_slice(), i + 3, t.len());
            assert(rest@ == t@.skip(i + 3));
            let c = util::clean_title_chars(text::trim(rest));
            if c.len() > 0 {
                Some(text::to_text(&c))
            } else {
                None
            }
        },
    }
}

/// The chapter's name in a page's title, if its title has one.
pub open spec fn named_on(html: Seq<char>) -> Option<Seq<char>> {
    match source::first_text(web::selected(html, "title"@, ""@)) {
        Some(raw) => title_in(raw),
        None => None,
    }
}

/// Pull the chapter's name from the page's `<title>`.
pub fn parse_chapter_title(html: &str) -> (r: Option<String>)
    ensures
        text::opt(r) == named_on(html@),
{
    match source::select_text(html, "title") {
        Some(raw) => title_from(raw.as_str()),
        None => None,
    }
}

/// The chapters a landing page stands for: all from 1 to the total it states.
pub open spec fn chapters_listed(total: Option<nat>, base: Seq<char>, url: Seq<char>) -> Result<
    Seq<RefView>,
    Seq<char>,
> {
    match total {
        Some(n) => Ok(source::sequential(n, base + "/chapter-"@, ""@)),
        None => Err("could not read data-total-chapters on "@ + url),
    }
}

/// A chapter without the adverts, under the name its page gives it, or else the
/// one it was listed under.
pub open spec fn chapter_read(
    body: Result<Seq<Seq<char>>, Seq<char>>,
    name: Option<Seq<char>>,
    listed: RefView,
) -> Result<ChapterView, Seq<char>> {
    match body {
        Ok(p) => Ok(
            ChapterView {
                number: listed.number,
                title: match name {
                    Some(t) => t,
                    None => listed.title,
                },
                paragraphs: cleaned_chapter(p),
            },
        ),
        Err(e) => Err(e),
    }
}

impl<F> FreewebnovelSource<F> {
    pub fn new(fetcher: F) -> (r: Self)
        ensures
            r.fetcher == fetcher,
    {
        Self { fetcher }
    }

    pub fn name(&self) -> (r: &'static str)
        ensures
            r@ == "freewebnovel"@,
    {
        "freewebnovel"
    }

    pub fn matches(&self, url: &str) -> (r: bool)
        ensures
            r == source::has_host(url@, "freewebnovel.com"@),
    {
        source::is_host(&web::url_host(url), "freewebnovel.com")
    }

    /// The whole chapter list, out of the landing page.
    pub fn list_chapters(&self, html: &str, url: &str) -> (r: Result<Vec<ChapterRef>, String>)
        ensures
            source::refs_view(r) == chapters_listed(
                stated_total(total_attribute(html@)),
                source::base_of(web::without_query(url@), url@),
                url@,
            ),
    {
        match parse_total_chapters(html) {
            Some(total) => {
                let base = source::novel_base(url);
                let front = text::concat(base.as_str(), "/chapter-");
                Ok(source::list_sequential(total, front.as_str(), ""))
            },
            None => Err(text::concat("could not read data-total-chapters on ", url)),
        }
    }

    /// A chapter out of its page.
    pub fn read_chapter(&self, html: &str, chapter: &ChapterRef) -> (r: Result<Chapter, String>)
        ensures
            source::chapter_result(r) == chapter_read(
                source::body_paragraphs(
                    web::selected_within(html@, CONTENT_SELECTOR@, PARAGRAPH_SELECTOR@, ""@),
                    CONTENT_SELECTOR@,
                    PARAGRAPH_SELECTOR@,
                ),
                named_on(html@),
                chapter@,
            ),
    {
        match source::parse_chapter_body(html, CONTENT_SELECTOR, PARAGRAPH_SELECTOR) {
            Ok(paragraphs) => {
                let paragraphs = strip_promo_paragraphs(&paragraphs);
                let title = match parse_chapter_title(html) {
                    Some(t) => t,
                    None => chapter.title.clone(),
                };
                Ok(Chapter { number: chapter.number, title, paragraphs })
            },
            Err(e) => Err(e),
        }
    }
}

// ---------------------------------------------------------------------------
// What holds of the cleaning
// ---------------------------------------------------------------------------

/// A paragraph that names neither site loses only the whitespace around it.
pub proof fn law_prose_is_left_alone(paragraph: Seq<char>)
    requires
        ({
            let s = text::trimmed(paragraph);
            &&& s.len() > 0
            &&& text::find_from(text::lower(s), "freewebnovel"@, 0) is None
            &&& text::find_from(s, "empire"@, 0) is None
        }),
    ensures
        without_promo(paragraph) == Some(text::trimmed(paragraph)),
{
    let s = text::trimmed(paragraph);
    assert(find_empire(s, 0) is None);
    assert(marks(s) =~= seq![]);
}

/// A chapter never loses all of its text.
pub proof fn law_cleaning_never_empties_a_chapter(paragraphs: Seq<Seq<char>>)
    requires
        paragraphs.len() > 0,
    ensures
        0 < cleaned_chapter(paragraphs).len() <= paragraphs.len(),
{
    lemma_survivors_len(paragraphs);
}

proof fn lemma_survivors_len(paragraphs: Seq<Seq<char>>)
    ensures
        survivors(paragraphs).len() <= paragraphs.len(),
    decreases paragraphs.len(),
{
    if paragraphs.len() > 0 {
        lemma_survivors_len(paragraphs.drop_last());
    }
}

/// Paragraphs are cleaned one by one: one that something is left of is kept, and the others go.
/// Where nothing would be left, everything stays.
pub proof fn law_paragraphs_are_cleaned_one_by_one(paragraphs: Seq<Seq<char>>, p: Seq<char>)
    ensures
        survivors(seq![]).len() == 0,
        without_promo(p) matches Some(q) ==> survivors(paragraphs.push(p)) == survivors(
            paragraphs,
        ).push(q),
        without_promo(p) is None ==> survivors(paragraphs.push(p)) == survivors(paragraphs),
        survivors(paragraphs).len() > 0 ==> cleaned_chapter(paragraphs) == survivors(paragraphs),
        survivors(paragraphs).len() == 0 ==> cleaned_chapter(paragraphs) == paragraphs,
{
    assert(paragraphs.push(p).drop_last() =~= paragraphs);
}

/// What no mark covers stays, in order, and what one covers goes.
pub proof fn law_marks_alone_are_cut(s: Seq<char>, spans: Seq<(int, int)>, n: int, k: int)
    requires
        0 <= n < s.len(),
    ensures
        uncovered(s, spans, 0).len() == 0,
        0 <= k < spans.len() && spans[k].0 <= n < spans[k].1 ==> uncovered(s, spans, n + 1)
            == uncovered(s, spans, n),
        (forall|j: int|
            0 <= j < spans.len() ==> !((#[trigger] spans[j]).0 <= n < spans[j].1)) ==> uncovered(
            s,
            spans,
            n + 1,
        ) == uncovered(s, spans, n).push(s[n]),
{
    if 0 <= k < spans.len() && spans[k].0 <= n < spans[k].1 {
        assert(covered(spans, n));
    }
}

/// A mark of the site takes in the site's name, whole, and the domain behind it.
pub proof fn law_a_mark_takes_in_the_name(s: Seq<char>, at: int)
    requires
        text::occurs_at(text::lower(s), "freewebnovel"@, at),
    ensures
        site_mark(s, at).0 <= at,
        at + 12 <= site_mark(s, at).1,
        text::occurs_at(text::lower(s), ".com"@, at + 12) ==> at + 16 <= site_mark(s, at).1,
        site_marks(s, at).len() > 0 && site_marks(s, at)[0] == site_mark(s, at),
{
    reveal_strlit("freewebnovel");
    reveal_strlit(".com");
    reveal_strlit(". com");
    lemma_site_mark_end(s, at);
    text::lemma_find_from(text::lower(s), "freewebnovel"@, at);
    let d = domain_len(s, at + 12);
    assert(text::lower(s).len() == s.len());
    lemma_closers_go_on(s, at + 12 + d);
    text::lemma_span_back(s.take(at), openers());
    if let Some(b) = phrase_start(s, at) {
        lemma_phrase_start(s, at);
    }
}

proof fn lemma_closers_go_on(s: Seq<char>, end: int)
    requires
        0 <= end <= s.len(),
    ensures
        end <= with_closers(s, end) <= s.len(),
    decreases s.len() - end,
{
    text::lemma_span(s.skip(end), blanks());
    let gap = text::span(s.skip(end), blanks());
    if end + gap < s.len() && is_mark_closer(s[end + gap]) {
        lemma_closers_go_on(s, end + gap + 1);
    }
}

proof fn lemma_word_before(s: Seq<char>, pos: int)
    requires
        0 <= pos <= s.len(),
    ensures
        word_before(s, pos) matches Some((a, b)) ==> 0 <= a < b <= pos,
{
    text::lemma_span_back(s.take(pos), blanks());
    let end = pos - text::span_back(s.take(pos), blanks());
    text::lemma_span_back(s.take(end), word_chars());
    let run = end - text::span_back(s.take(end), word_chars());
    text::lemma_span(s.subrange(run, end), apostrophes());
}

proof fn lemma_pitch_start(s: Seq<char>, cursor: int, budget: nat)
    requires
        0 <= cursor <= s.len(),
    ensures
        pitch_start(s, cursor, budget) matches Some(b) ==> 0 <= b <= cursor,
    decreases budget,
{
    if budget > 0 {
        lemma_word_before(s, cursor);
        if let Some((start, end)) = word_before(s, cursor) {
            text::lemma_span_back(s.take(start), openers());
            if !text::uppercase(s[start]) && start > 0 && s[start - 1] == ' ' {
                lemma_pitch_start(s, start, (budget - 1) as nat);
            }
        }
    }
}

proof fn lemma_phrase_start(s: Seq<char>, site: int)
    requires
        0 <= site <= s.len(),
    ensures
        phrase_start(s, site) matches Some(b) ==> 0 <= b <= site,
{
    lemma_word_before(s, site);
    if let Some((start, end)) = word_before(s, site) {
        lemma_pitch_start(s, start, PROMO_MAX_PITCH_WORDS as nat);
    }
}

/// A paragraph with a mark is what the marks leave of it, with single spaces between its words; it
/// is gone where no letter or digit is left.
pub proof fn law_a_marked_paragraph_is_tidied(p: Seq<char>, i: int)
    requires
        marks(text::trimmed(p)).len() > 0,
    ensures
        ({
            let s = text::trimmed(p);
            let tidy = text::join(
                text::words(uncovered(s, marks(s), s.len() as int)),
                " "@,
            );
            &&& 0 <= i < tidy.len() && text::alphanumeric(tidy[i]) ==> without_promo(p) == Some(tidy)
            &&& (forall|j: int| 0 <= j < tidy.len() ==> !text::alphanumeric(#[trigger] tidy[j]))
                ==> without_promo(p) is None
        }),
{
}

/// A landing page stands for every chapter from 1 to the total it states, each at its own address.
pub proof fn law_all_stated_chapters_are_listed(
    total: nat,
    base: Seq<char>,
    url: Seq<char>,
    i: int,
)
    requires
        0 <= i < total <= u32::MAX,
    ensures
        chapters_listed(Some(total), base, url) matches Ok(refs) && {
            &&& refs.len() == total
            &&& refs[i].number == i + 1
            &&& refs[i].url == base + "/chapter-"@ + text::decimal((i + 1) as nat)
            &&& refs[i].title == "Chapter "@ + text::decimal((i + 1) as nat)
        },
        chapters_listed(None, base, url) is Err,
{
    reveal_strlit("");
    let d = text::decimal((i + 1) as nat);
    assert(base + "/chapter-"@ + d + ""@ =~= base + "/chapter-"@ + d);
}

/// The total is the number the page's attribute states, white space aside.
pub proof fn law_the_total_is_what_is_stated(n: u32)
    ensures
        stated_total(Some(text::decimal(n as nat))) == Some(n as nat),
        stated_total(None) is None,
{
    let d = text::decimal(n as nat);
    text::lemma_decimal(n as nat);
    assert(text::is_digit(d[0]) && text::is_digit(d.last()));
    text::law_trimming_settles(d);
    text::law_numbers_read_back(n as nat, u32::MAX as nat);
}

/// A chapter is named by its page, or else as it was listed; its number is the listed one, and its
/// paragraphs are the page's without the marks.
pub proof fn law_a_chapter_is_named_by_its_page(
    paragraphs: Seq<Seq<char>>,
    name: Seq<char>,
    listed: RefView,
    e: Seq<char>,
)
    ensures
        chapter_read(Ok(paragraphs), Some(name), listed) == Ok::<ChapterView, Seq<char>>(
            ChapterView {
                number: listed.number,
                title: name,
                paragraphs: cleaned_chapter(paragraphs),
            },
        ),
        chapter_read(Ok(paragraphs), None, listed) == Ok::<ChapterView, Seq<char>>(
            ChapterView {
                number: listed.number,
                title: listed.title,
                paragraphs: cleaned_chapter(paragraphs),
            },
        ),
        chapter_read(Err(e), Some(name), listed) == Err::<ChapterView, Seq<char>>(e),
{
}

/// The name in a page's title is what stands behind " - " and the chapter's number, without the
/// site's own name; a title without a chapter names none.
pub proof fn law_a_page_title_names_its_chapter(raw: Seq<char>, i: int)
    ensures
        ({
            let t = without_site_suffix(text::trimmed(raw));
            &&& text::occurs_at(t, " - Chapter "@, i) && (forall|j: int|
                0 <= j < i ==> !text::occurs_at(t, " - Chapter "@, j)) && util::cleaned_title(
                t.skip(i + 3),
            ).len() > 0 ==> title_in(raw) == Some(util::cleaned_title(t.skip(i + 3)))
            &&& (forall|j: int| 0 <= j ==> !text::occurs_at(t, " - Chapter "@, j)) ==> title_in(raw)
                is None
        }),
{
    let t = without_site_suffix(text::trimmed(raw));
    text::lemma_find_from(t, " - Chapter "@, 0);
    if text::occurs_at(t, " - Chapter "@, i) && (forall|j: int|
        0 <= j < i ==> !text::occurs_at(t, " - Chapter "@, j)) {
        assert(text::find_from(t, " - Chapter "@, 0) == Some(i));
        text::law_trimming_settles(t.skip(i + 3));
        assert(util::cleaned_title(text::trimmed(t.skip(i + 3))) == util::cleaned_title(
            t.skip(i + 3),
        ));
    }
}

/// The site's own name behind the last bar of a title is left out, and nothing else is.
pub proof fn law_the_site_suffix_is_left_out(name: Seq<char>, tail: Seq<char>)
    requires
        forall|i: int| 0 <= i < tail.len() ==> #[trigger] tail[i] != '|',
    ensures
        text::lower(text::trimmed(tail)) == text::lower("Free Web Novel"@) ==> without_site_suffix(
            name + seq!['|'] + tail,
        ) == text::trimmed(name),
        text::lower(text::trimmed(tail)) != text::lower("Free Web Novel"@) ==> without_site_suffix(
            name + seq!['|'] + tail,
        ) == name + seq!['|'] + tail,
        without_site_suffix(tail) == tail,
{
    let t = name + seq!['|'] + tail;
    assert forall|j: int| t.len() - tail.len() <= j < t.len() implies text::not('|')(
        #[trigger] t[j],
    ) by {
        assert(t[j] == tail[j - name.len() - 1]);
    }
    assert(t[t.len() - 1 - tail.len()] == '|');
    text::lemma_span_back_is(t, text::not('|'), tail.len() as int);
    let cut = t.len() - tail.len() - 1;
    assert(t.skip(cut + 1) =~= tail);
    assert(t.take(cut) =~= name);
    assert forall|j: int| 0 <= j < tail.len() implies text::not('|')(#[trigger] tail[j]) by {}
    text::lemma_span_back_is(tail, text::not('|'), tail.len() as int);
}

/// The words between a pitch and the site's name are these eight, and the words that open a pitch
/// these nine, in any ASCII case.
pub proof fn law_words_of_a_pitch(w: Seq<char>)
    ensures
        text::any_ci(prepositions(), w) <==> {
            let l = text::lower(w);
            ||| l == text::lower("on"@)
            ||| l == text::lower("at"@)
            ||| l == text::lower("from"@)
            ||| l == text::lower("with"@)
            ||| l == text::lower("by"@)
            ||| l == text::lower("through"@)
            ||| l == text::lower("via"@)
            ||| l == text::lower("to"@)
        },
        text::any_ci(pitch_openers(), w) <==> {
            let l = text::lower(w);
            ||| l == text::lower("Continue"@)
            ||| l == text::lower("Discover"@)
            ||| l == text::lower("Enjoy"@)
            ||| l == text::lower("Experience"@)
            ||| l == text::lower("Explore"@)
            ||| l == text::lower("Find"@)
            ||| l == text::lower("Read"@)
            ||| l == text::lower("Stay"@)
            ||| l == text::lower("Your"@)
        },
{
    let p = prepositions();
    let o = pitch_openers();
    assert(p[0] == "on"@ && p[1] == "at"@ && p[2] == "from"@ && p[3] == "with"@ && p[4] == "by"@
        && p[5] == "through"@ && p[6] == "via"@ && p[7] == "to"@);
    assert(o[0] == "Continue"@ && o[1] == "Discover"@ && o[2] == "Enjoy"@ && o[3] == "Experience"@
        && o[4] == "Explore"@ && o[5] == "Find"@ && o[6] == "Read"@ && o[7] == "Stay"@ && o[8]
        == "Your"@);
    if text::any_ci(p, w) {
        let i = choose|i: int| 0 <= i < p.len() && text::eq_ci(w, #[trigger] p[i]);
        assert(i == 0 || i == 1 || i == 2 || i == 3 || i == 4 || i == 5 || i == 6 || i == 7);
    }
    if text::any_ci(o, w) {
        let i = choose|i: int| 0 <= i < o.len() && text::eq_ci(w, #[trigger] o[i]);
        assert(i == 0 || i == 1 || i == 2 || i == 3 || i == 4 || i == 5 || i == 6 || i == 7 || i
            == 8);
    }
    let l = text::lower(w);
    if l == text::lower("on"@) {
        assert(text::eq_ci(w, p[0]));
    }
    if l == text::lower("at"@) {
        assert(text::eq_ci(w, p[1]));
    }
    if l == text::lower("from"@) {
        assert(text::eq_ci(w, p[2]));
    }
    if l == text::lower("with"@) {
        assert(text::eq_ci(w, p[3]));
    }
    if l == text::lower("by"@) {
        assert(text::eq_ci(w, p[4]));
    }
    if l == text::lower("through"@) {
        assert(text::eq_ci(w, p[5]));
    }
    if l == text::lower("via"@) {
        assert(text::eq_ci(w, p[6]));
    }
    if l == text::lower("to"@) {
        assert(text::eq_ci(w, p[7]));
    }
    if l == text::lower("Continue"@) {
        assert(text::eq_ci(w, o[0]));
    }
    if l == text::lower("Discover"@) {
        assert(text::eq_ci(w, o[1]));
    }
    if l == text::lower("Enjoy"@) {
        assert(text::eq_ci(w, o[2]));
    }
    if l == text::lower("Experience"@) {
        assert(text::eq_ci(w, o[3]));
    }
    if l == text::lower("Explore"@) {
        assert(text::eq_ci(w, o[4]));
    }
    if l == text::lower("Find"@) {
        assert(text::eq_ci(w, o[5]));
    }
    if l == text::lower("Read"@) {
        assert(text::eq_ci(w, o[6]));
    }
    if l == text::lower("Stay"@) {
        assert(text::eq_ci(w, o[7]));
    }
    if l == text::lower("Your"@) {
        assert(text::eq_ci(w, o[8]));
    }
}

/// The word before a place is the nearest run of word characters, with only blanks between, without
/// apostrophes in front of it.
pub proof fn law_the_word_before_is_the_nearest(s: Seq<char>, pos: int, start: int, end: int)
    requires
        0 <= start < end <= pos <= s.len(),
        forall|i: int| start <= i < end ==> is_word_char(#[trigger] s[i]),
        forall|i: int| end <= i < pos ==> #[trigger] s[i] == ' ' || s[i] == '\t',
        start > 0 ==> !is_word_char(s[start - 1]),
        s[start] != '\'' && s[start] != '\u{2019}',
        s[end - 1] != ' ' && s[end - 1] != '\t',
    ensures
        word_before(s, pos) == Some((start, end)),
{
    let a = s.take(pos);
    assert forall|j: int| a.len() - (pos - end) <= j < a.len() implies blanks()(#[trigger] a[j]) by {
        assert(a[j] == s[j]);
    }
    if end > 0 {
        assert(a[a.len() - 1 - (pos - end)] == s[end - 1]);
    }
    text::lemma_span_back_is(a, blanks(), pos - end);
    let b = s.take(end);
    assert forall|j: int| b.len() - (end - start) <= j < b.len() implies word_chars()(
        #[trigger] b[j],
    ) by {
        assert(b[j] == s[j]);
    }
    if start > 0 {
        assert(b[b.len() - 1 - (end - start)] == s[start - 1]);
    }
    text::lemma_span_back_is(b, word_chars(), end - start);
    let w = s.subrange(start, end);
    assert(w[0] == s[start]);
    text::lemma_span_is(w, apostrophes(), 0);
}

/// A pitch reaches back to the nearest capitalised word, over at most six words with single blanks
/// between them.
pub proof fn law_a_pitch_starts_at_a_capital(s: Seq<char>, site: int, start: int, end: int)
    requires
        word_before(s, site) == Some((start, end)),
    ensures
        !text::any_ci(prepositions(), s.subrange(start, end)) ==> phrase_start(s, site) is None,
        text::any_ci(prepositions(), s.subrange(start, end)) ==> phrase_start(s, site)
            == pitch_start(s, start, 6),
        word_before(s, start) is None ==> pitch_start(s, start, 6) is None,
        word_before(s, start) matches Some((a, b)) ==> (text::uppercase(s[a]) ==> pitch_start(
            s,
            start,
            6,
        ) == Some(with_openers(s, a))),
        word_before(s, start) matches Some((a, b)) ==> (!text::uppercase(s[a]) && a > 0 && s[a - 1]
            == ' ' ==> pitch_start(s, start, 6) == pitch_start(s, a, 5)),
        word_before(s, start) matches Some((a, b)) ==> (!text::uppercase(s[a]) && (a == 0 || s[a - 1]
            != ' ') ==> pitch_start(s, start, 6) is None),
        pitch_start(s, start, 0) is None,
{
}

/// The sister site's name is a mark only as a word of its own, with a pitch from the list before it
/// and nothing but punctuation behind it; then the pitch and the name go together.
pub proof fn law_an_empire_is_a_mark_only_with_a_pitch(s: Seq<char>, from: int, at: int, begin: int)
    requires
        0 <= from,
        find_empire(s, from) == Some(at),
    ensures
        phrase_start(s, at) == Some(begin) && only_decoration(s.skip(with_closers(s, at + 6)))
            && opens_a_pitch(s, begin) ==> empire_marks(s, from) == seq![
            (begin, with_closers(s, at + 6)),
        ] + empire_marks(s, at + 6),
        phrase_start(s, at) is None ==> empire_marks(s, from) == empire_marks(s, at + 6),
        phrase_start(s, at) == Some(begin) && !(only_decoration(s.skip(with_closers(s, at + 6)))
            && opens_a_pitch(s, begin)) ==> empire_marks(s, from) == empire_marks(s, at + 6),
        text::occurs_at(s, "empire"@, at),
        at > 0 ==> !text::alphanumeric(s[at - 1]),
        at + 6 < s.len() ==> !text::alphanumeric(s[at + 6]),
{
    lemma_empire_is_bounded(s, from);
}

proof fn lemma_empire_is_bounded(s: Seq<char>, from: int)
    requires
        0 <= from,
    ensures
        find_empire(s, from) matches Some(at) ==> text::occurs_at(s, "empire"@, at) && bounded(
            s,
            at,
            6,
        ) && from <= at,
    decreases s.len() - from,
{
    reveal_strlit("empire");
    text::lemma_find_from(s, "empire"@, from);
    if let Some(i) = text::find_from(s, "empire"@, from) {
        if !bounded(s, i, 6) {
            lemma_empire_is_bounded(s, i + 6);
        }
    }
}

/// Behind a mark the closing punctuation goes with it, and the blanks between.
pub proof fn law_closers_go_with_a_mark(s: Seq<char>, end: int)
    requires
        0 <= end <= s.len(),
    ensures
        end < s.len() && is_mark_closer(s[end]) ==> with_closers(s, end) == with_closers(s, end + 1),
        end == s.len() ==> with_closers(s, end) == end,
        end < s.len() && !is_mark_closer(s[end]) && s[end] != ' ' && s[end] != '\t' ==> with_closers(
            s,
            end,
        ) == end,
{
    let t = s.skip(end);
    if end < s.len() && s[end] != ' ' && s[end] != '\t' {
        assert(t[0] == s[end]);
        text::lemma_span_is(t, blanks(), 0);
    }
    if end == s.len() {
        text::lemma_span_is(t, blanks(), 0);
    }
}

/// The domain behind the site's name goes with it, also where a blank stands in it.
pub proof fn law_a_mark_takes_in_the_domain(s: Seq<char>, at: int)
    requires
        text::occurs_at(text::lower(s), "freewebnovel"@, at),
    ensures
        domain_len(s, at + 12) == if text::occurs_at(text::lower(s), ".com"@, at + 12) {
            4int
        } else if text::occurs_at(text::lower(s), ". com"@, at + 12) {
            5
        } else {
            0
        },
        text::occurs_at(text::lower(s), ". com"@, at + 12) ==> at + 17 <= site_mark(s, at).1
            || text::occurs_at(text::lower(s), ".com"@, at + 12),
        site_mark(s, at).1 <= s.len(),
        phrase_start(s, at) matches Some(b) ==> site_mark(s, at).0 == b,
        phrase_start(s, at) is None ==> site_mark(s, at).0 == with_openers(s, at),
{
    reveal_strlit("freewebnovel");
    reveal_strlit(".com");
    reveal_strlit(". com");
    assert(text::lower(s).len() == s.len());
    lemma_closers_go_on(s, at + 12 + domain_len(s, at + 12));
}

/// The marks of a text are those of the site, one behind the other, and those of its sister.
pub proof fn law_marks_are_found_one_behind_the_other(s: Seq<char>, from: int, at: int)
    requires
        0 <= from <= at,
        text::occurs_at(text::lower(s), "freewebnovel"@, at),
        forall|j: int| from <= j < at ==> !text::occurs_at(text::lower(s), "freewebnovel"@, j),
    ensures
        site_marks(s, from) == seq![site_mark(s, at)] + site_marks(s, site_mark(s, at).1),
        marks(s) == site_marks(s, 0) + empire_marks(s, 0),
{
    text::lemma_find_from(text::lower(s), "freewebnovel"@, from);
}

/// The punctuation around a mark, and the characters of a word.
pub proof fn law_punctuation_around_marks(c: char)
    ensures
        is_mark_opener(c) <==> c == '"' || c == '\'' || c == '\u{201c}' || c == '\u{2018}' || c == '('
            || c == '[' || c == '<' || c == '*',
        is_mark_closer(c) <==> c == '"' || c == '\'' || c == '\u{201d}' || c == '\u{2019}' || c == ')'
            || c == ']' || c == '>' || c == '*' || c == '.' || c == '!' || c == ',',
        is_word_char(c) <==> text::alphabetic(c) || c == '\'' || c == '\u{2019}' || c == '-',
{
}

} // verus!
