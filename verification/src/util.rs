//! Small cross-cutting helpers.

use std::collections::BTreeSet;
use std::time::SystemTime;
use vstd::prelude::*;
use vstd::slice::slice_subrange;

use crate::numbers;
use crate::text;

verus! {

// ---------------------------------------------------------------------------
// Titles as identities
// ---------------------------------------------------------------------------

/// Whether `c` is part of a title's identity.
pub open spec fn letter_or_digit(c: char) -> bool {
    if text::is_ascii(c) {
        text::is_ascii_letter(c) || text::is_digit(c)
    } else {
        text::alphanumeric(c)
    }
}

/// `c` in lower case, which can take several characters.
pub open spec fn lower_form(c: char) -> Seq<char> {
    if text::is_ascii(c) {
        seq![text::ascii_lower(c)]
    } else {
        text::lowercased(c)
    }
}

/// Whether `c` is a letter or digit that lowercasing leaves alone.
pub open spec fn lower_letter_or_digit(c: char) -> bool {
    letter_or_digit(c) && lower_form(c) == seq![c]
}

/// The lower-case letters and digits among `s`.
pub open spec fn kept(s: Seq<char>) -> Seq<char>
    decreases s.len(),
{
    if s.len() == 0 {
        seq![]
    } else if lower_letter_or_digit(s.last()) {
        kept(s.drop_last()).push(s.last())
    } else {
        kept(s.drop_last())
    }
}

/// What one character of a title adds to its identity.
pub open spec fn identity_of(c: char) -> Seq<char> {
    if letter_or_digit(c) {
        kept(lower_form(c))
    } else {
        seq![]
    }
}

/// `s` reduced to its lowercased letters and digits.
pub open spec fn normalized(s: Seq<char>) -> Seq<char>
    decreases s.len(),
{
    if s.len() == 0 {
        seq![]
    } else {
        normalized(s.drop_last()) + identity_of(s.last())
    }
}

proof fn lemma_normalized_parts(a: Seq<char>, b: Seq<char>)
    ensures
        normalized(a + b) == normalized(a) + normalized(b),
    decreases b.len(),
{
    if b.len() == 0 {
        assert(a + b =~= a);
        assert(normalized(a) + normalized(b) =~= normalized(a));
    } else {
        assert((a + b).drop_last() =~= a + b.drop_last());
        assert((a + b).last() == b.last());
        lemma_normalized_parts(a, b.drop_last());
        assert(normalized(a) + normalized(b) =~= normalized(a + b));
    }
}

proof fn lemma_kept(s: Seq<char>)
    ensures
        forall|i: int| 0 <= i < kept(s).len() ==> lower_letter_or_digit(#[trigger] kept(s)[i]),
    decreases s.len(),
{
    if s.len() > 0 {
        let before = kept(s.drop_last());
        lemma_kept(s.drop_last());
        assert forall|i: int| 0 <= i < kept(s).len() implies lower_letter_or_digit(
            #[trigger] kept(s)[i],
        ) by {
            if i < before.len() {
                assert(kept(s)[i] == before[i]);
            }
        }
    }
}

/// Spaces and punctuation make no difference between titles.
pub proof fn law_punctuation_does_not_tell_titles_apart(a: Seq<char>, c: char, b: Seq<char>)
    requires
        !letter_or_digit(c),
    ensures
        normalized(a + seq![c] + b) == normalized(a + b),
{
    lemma_normalized_parts(a + seq![c], b);
    lemma_normalized_parts(a, seq![c]);
    lemma_normalized_parts(a, b);
    let one = seq![c];
    assert(one.drop_last() =~= Seq::<char>::empty());
    assert(normalized(one.drop_last()) == Seq::<char>::empty());
    assert(normalized(one) == Seq::<char>::empty());
    assert(normalized(a) + normalized(seq![c]) =~= normalized(a));
}

/// Whether two characters are one letter or digit up to its case, or neither is any.
pub open spec fn same_but_for_case(c: char, d: char) -> bool {
    letter_or_digit(c) == letter_or_digit(d) && (letter_or_digit(c) ==> lower_form(c) == lower_form(
        d,
    ))
}

/// Case makes no difference between titles.
pub proof fn law_case_does_not_tell_titles_apart(a: Seq<char>, b: Seq<char>)
    requires
        a.len() == b.len(),
        forall|i: int| 0 <= i < a.len() ==> same_but_for_case(#[trigger] a[i], b[i]),
    ensures
        normalized(a) == normalized(b),
    decreases a.len(),
{
    if a.len() > 0 {
        assert forall|i: int| 0 <= i < a.len() - 1 implies same_but_for_case(
            #[trigger] a.drop_last()[i],
            b.drop_last()[i],
        ) by {
            assert(same_but_for_case(a[i], b[i]));
        }
        law_case_does_not_tell_titles_apart(a.drop_last(), b.drop_last());
        assert(same_but_for_case(a[a.len() - 1], b[a.len() - 1]));
    }
}

/// The case of ASCII letters makes no difference between titles.
pub proof fn law_ascii_case_does_not_tell_titles_apart(a: Seq<char>, b: Seq<char>)
    requires
        text::eq_ci(a, b),
    ensures
        normalized(a) == normalized(b),
{
    let x = text::lower(a);
    let y = text::lower(b);
    assert(x.len() == a.len() && y.len() == b.len());
    assert forall|i: int| 0 <= i < a.len() implies same_but_for_case(#[trigger] a[i], b[i]) by {
        assert(x[i] == text::ascii_lower(a[i]));
        assert(y[i] == text::ascii_lower(b[i]));
    }
    law_case_does_not_tell_titles_apart(a, b);
}

/// A normalized title holds nothing but letters and digits in lower case.
pub proof fn law_normalized_titles_are_lower_letters_and_digits(s: Seq<char>)
    ensures
        forall|i: int|
            0 <= i < normalized(s).len() ==> lower_letter_or_digit(#[trigger] normalized(s)[i]),
    decreases s.len(),
{
    if s.len() > 0 {
        law_normalized_titles_are_lower_letters_and_digits(s.drop_last());
        lemma_kept(lower_form(s.last()));
        let a = normalized(s.drop_last());
        let b = identity_of(s.last());
        assert forall|i: int| 0 <= i < normalized(s).len() implies lower_letter_or_digit(
            #[trigger] normalized(s)[i],
        ) by {
            if i < a.len() {
                assert(normalized(s)[i] == a[i]);
            } else {
                assert(normalized(s)[i] == b[i - a.len()]);
            }
        }
    }
}

proof fn lemma_already_normalized(s: Seq<char>)
    requires
        forall|i: int| 0 <= i < s.len() ==> lower_letter_or_digit(#[trigger] s[i]),
    ensures
        normalized(s) == s,
    decreases s.len(),
{
    if s.len() > 0 {
        let t = s.drop_last();
        assert forall|i: int| 0 <= i < t.len() implies lower_letter_or_digit(#[trigger] t[i]) by {
            assert(t[i] == s[i]);
        }
        lemma_already_normalized(t);
        let c = s.last();
        assert(lower_letter_or_digit(s[s.len() - 1]));
        let one = seq![c];
        assert(one.drop_last() =~= Seq::<char>::empty());
        assert(kept(one.drop_last()) == Seq::<char>::empty());
        assert(kept(one) =~= one);
        assert(identity_of(c) == one);
        assert(normalized(s) =~= s);
    }
}

/// Normalizing a title a second time changes nothing.
pub proof fn law_normalizing_settles(s: Seq<char>)
    ensures
        normalized(normalized(s)) == normalized(s),
{
    law_normalized_titles_are_lower_letters_and_digits(s);
    lemma_already_normalized(normalized(s));
}

fn is_letter_or_digit(c: char) -> (r: bool)
    ensures
        r == letter_or_digit(c),
{
    c.is_alphanumeric()
}

fn to_lower_form(c: char) -> (r: Vec<char>)
    ensures
        r@ == lower_form(c),
{
    text::char_lowercase(c)
}

fn keep(out: &mut Vec<char>, s: &[char])
    ensures
        final(out)@ == old(out)@ + kept(s@),
{
    let ghost before = out@;
    let mut i: usize = 0;
    assert(before + kept(s@.take(0)) =~= before);
    while i < s.len()
        invariant
            i <= s.len(),
            out@ == before + kept(s@.take(i as int)),
        decreases s.len() - i,
    {
        proof {
            let t = s@.take(i + 1);
            assert(t.drop_last() =~= s@.take(i as int));
            assert(t.last() == s@[i as int]);
        }
        let low = to_lower_form(s[i]);
        let unchanged = low.len() == 1 && low[0] == s[i];
        assert(unchanged == (low@ == seq![s@[i as int]])) by {
            if unchanged {
                assert(low@ =~= seq![s@[i as int]]);
            }
        }
        if unchanged && is_letter_or_digit(s[i]) {
            out.push(s[i]);
            assert(out@ =~= before + kept(s@.take(i + 1)));
        }
        i += 1;
    }
    assert(s@.take(s@.len() as int) =~= s@);
}

/// Normalize a novel title for cross-source identity: lowercase, keep only
/// alphanumerics (dropping spaces and punctuation). Lets the *same* novel titled
/// slightly differently across sites ("Shadow Slave", "shadow-slave") compare
/// equal, so a repeated subscription can be recognized as a duplicate.
pub fn normalize_title(s: &str) -> (r: String)
    ensures
        r@ == normalized(s@),
{
    let v = text::to_chars(s);
    let mut out: Vec<char> = Vec::new();
    let mut i: usize = 0;
    while i < v.len()
        invariant
            i <= v.len(),
            out@ == normalized(v@.take(i as int)),
        decreases v.len() - i,
    {
        proof {
            let t = v@.take(i + 1);
            assert(t.drop_last() =~= v@.take(i as int));
            assert(t.last() == v@[i as int]);
        }
        if is_letter_or_digit(v[i]) {
            let low = to_lower_form(v[i]);
            keep(&mut out, &low);
        } else {
            assert(out@ + Seq::<char>::empty() =~= out@);
        }
        i += 1;
    }
    assert(v@.take(v@.len() as int) == v@);
    text::to_text(&out)
}

// ---------------------------------------------------------------------------
// File names
// ---------------------------------------------------------------------------

/// Whether Windows forbids `c` in a file name.
pub open spec fn illegal(c: char) -> bool {
    ||| c == '<'
    ||| c == '>'
    ||| c == ':'
    ||| c == '"'
    ||| c == '/'
    ||| c == '\\'
    ||| c == '|'
    ||| c == '?'
    ||| c == '*'
    ||| (c as u32) < 0x20
}

pub open spec fn legal_char(c: char) -> char {
    if illegal(c) {
        '_'
    } else {
        c
    }
}

/// What a file name must not end in: a dot, or white space of any kind.
pub open spec fn dot_or_white() -> spec_fn(char) -> bool {
    |c: char| c == '.' || text::is_white(c)
}

/// The names Windows keeps for devices, whatever follows the first dot.
pub open spec fn reserved_names() -> Seq<Seq<char>> {
    seq![
        "CON"@, "PRN"@, "AUX"@, "NUL"@, "COM1"@, "COM2"@, "COM3"@, "COM4"@, "COM5"@, "COM6"@,
        "COM7"@, "COM8"@, "COM9"@, "LPT1"@, "LPT2"@, "LPT3"@, "LPT4"@, "LPT5"@, "LPT6"@, "LPT7"@,
        "LPT8"@, "LPT9"@,
    ]
}

/// `name` with its illegal characters replaced, without white space at its front and
/// without dots and white space at its end.
pub open spec fn legalized(name: Seq<char>) -> Seq<char> {
    let s = name.map_values(|c: char| legal_char(c));
    text::trimmed_start(s.take(s.len() - text::span_back(s, dot_or_white())))
}

pub open spec fn is_reserved(name: Seq<char>) -> bool {
    reserved_names().contains(text::upper(name.take(text::span(name, text::not('.')))))
}

pub open spec fn all_underscores(s: Seq<char>) -> bool {
    forall|i: int| 0 <= i < s.len() ==> #[trigger] s[i] == '_'
}

/// A name that is safe as a Windows file name, made out of `name`.
pub open spec fn sanitized(name: Seq<char>) -> Seq<char> {
    let t = legalized(name);
    let out = if is_reserved(t) {
        seq!['_'] + t
    } else {
        t
    };
    if all_underscores(out) {
        "untitled"@
    } else {
        out
    }
}

fn replace_illegal(name: &[char]) -> (r: Vec<char>)
    ensures
        r@ == name@.map_values(|c: char| legal_char(c)),
{
    let mut r: Vec<char> = Vec::new();
    let mut i: usize = 0;
    while i < name.len()
        invariant
            i <= name.len(),
            r@ == name@.map_values(|c: char| legal_char(c)).take(i as int),
        decreases name.len() - i,
    {
        let c = name[i];
        let bad = c == '<' || c == '>' || c == ':' || c == '"' || c == '/' || c == '\\' || c == '|'
            || c == '?' || c == '*' || (c as u32) < 0x20;
        r.push(if bad { '_' } else { c });
        i += 1;
    }
    let ghost all = name@.map_values(|c: char| legal_char(c));
    assert(all.take(name@.len() as int) == all);
    r
}

fn reserved(base: &[char]) -> (r: bool)
    ensures
        r == reserved_names().contains(base@),
{
    let names: [&str; 22] = [
        "CON", "PRN", "AUX", "NUL", "COM1", "COM2", "COM3", "COM4", "COM5", "COM6", "COM7", "COM8",
        "COM9", "LPT1", "LPT2", "LPT3", "LPT4", "LPT5", "LPT6", "LPT7", "LPT8", "LPT9",
    ];
    assert(names@.map_values(|s: &str| s@) == reserved_names());
    let mut i: usize = 0;
    while i < 22
        invariant
            i <= 22,
            names@.map_values(|s: &str| s@) == reserved_names(),
            forall|j: int| 0 <= j < i ==> #[trigger] reserved_names()[j] != base@,
        decreases 22 - i,
    {
        let name = text::to_chars(names[i]);
        assert(reserved_names()[i as int] == names@[i as int]@);
        if text::same_chars(&name, base) {
            return true;
        }
        i += 1;
    }
    false
}

fn underscores(s: &[char]) -> (r: bool)
    ensures
        r == all_underscores(s@),
{
    let mut i: usize = 0;
    while i < s.len()
        invariant
            i <= s.len(),
            forall|j: int| 0 <= j < i ==> #[trigger] s@[j] == '_',
        decreases s.len() - i,
    {
        if s[i] != '_' {
            return false;
        }
        i += 1;
    }
    true
}

/// Make a string safe to use as a Windows filename.
///
/// Replaces the characters Windows forbids (`<>:"/\|?*` and control chars),
/// strips trailing dots/spaces, and avoids reserved device names (CON, PRN,
/// ...). Never returns an empty string.
pub fn sanitize_filename(name: &str) -> (r: String)
    ensures
        r@ == sanitized(name@),
{
    let raw = text::to_chars(name);
    let s = replace_illegal(&raw);
    let mut n: usize = s.len();
    while n > 0 && (s[n - 1] == '.' || text::whitespace(s[n - 1]))
        invariant
            n <= s.len(),
            forall|j: int|
                n <= j < s.len() ==> #[trigger] s@[j] == '.' || text::is_white(s@[j]),
        decreases n,
    {
        n -= 1;
    }
    proof {
        text::lemma_span_back_is(s@, dot_or_white(), s@.len() - n);
    }
    let head = slice_subrange(s.as_slice(), 0, n);
    assert(head@ == s@.take(n as int));
    let t = text::trim_start(head);
    let stem: usize = text::before_char(t, '.');
    let base = text::upper_chars(slice_subrange(t, 0, stem));
    assert(base@ == text::upper(t@.take(stem as int)));
    let mut out: Vec<char> = Vec::new();
    if reserved(&base) {
        out.push('_');
    }
    text::push_all(&mut out, t);
    assert(out@ == if is_reserved(t@) {
        seq!['_'] + t@
    } else {
        t@
    });
    if underscores(&out) {
        "untitled".to_string()
    } else {
        text::to_text(&out)
    }
}

/// Whether `name` is safe as a Windows file name: not empty, without a forbidden
/// character, not ending in a dot or a space, and no device name.
pub open spec fn is_safe_name(name: Seq<char>) -> bool {
    &&& name.len() > 0
    &&& forall|i: int| 0 <= i < name.len() ==> !illegal(#[trigger] name[i])
    &&& name.last() != '.' && name.last() != ' '
    &&& !is_reserved(name)
}

/// Whether `sanitize_filename` has nothing to do on `name`.
spec fn is_settled(name: Seq<char>) -> bool {
    &&& is_safe_name(name)
    &&& !text::is_white(name[0])
    &&& !text::is_white(name.last())
    &&& !all_underscores(name)
}

proof fn lemma_legalized(name: Seq<char>)
    ensures
        forall|i: int| 0 <= i < legalized(name).len() ==> !illegal(#[trigger] legalized(name)[i]),
        legalized(name).len() > 0 ==> !text::is_white(legalized(name)[0]) && !text::is_white(
            legalized(name).last(),
        ) && legalized(name).last() != '.',
{
    let s = name.map_values(|c: char| legal_char(c));
    text::lemma_span_back(s, dot_or_white());
    let k = s.take(s.len() - text::span_back(s, dot_or_white()));
    let d = text::span(k, text::white());
    text::lemma_span(k, text::white());
    let t = legalized(name);
    assert(t =~= k.skip(d));
    assert forall|i: int| 0 <= i < t.len() implies !illegal(#[trigger] t[i]) by {
        assert(t[i] == s[i + d]);
        assert(s[i + d] == legal_char(name[i + d]));
    }
    if t.len() > 0 {
        assert(t[0] == k[d]);
        assert(t.last() == s[k.len() - 1]);
    }
}

proof fn lemma_reserved_starts(name: Seq<char>)
    requires
        name.len() > 0,
        name[0] == '_' || name == "untitled"@,
    ensures
        !is_reserved(name),
{
    reveal_strlit("CON");
    reveal_strlit("PRN");
    reveal_strlit("AUX");
    reveal_strlit("NUL");
    reveal_strlit("COM1");
    reveal_strlit("COM2");
    reveal_strlit("COM3");
    reveal_strlit("COM4");
    reveal_strlit("COM5");
    reveal_strlit("COM6");
    reveal_strlit("COM7");
    reveal_strlit("COM8");
    reveal_strlit("COM9");
    reveal_strlit("LPT1");
    reveal_strlit("LPT2");
    reveal_strlit("LPT3");
    reveal_strlit("LPT4");
    reveal_strlit("LPT5");
    reveal_strlit("LPT6");
    reveal_strlit("LPT7");
    reveal_strlit("LPT8");
    reveal_strlit("LPT9");
    reveal_strlit("untitled");
    text::lemma_span(name, text::not('.'));
    let d = text::span(name, text::not('.'));
    assert(d > 0) by {
        if d == 0 {
            assert(!text::not('.')(name[0]));
        }
    }
    let base = text::upper(name.take(d));
    assert(base[0] == text::ascii_upper(name[0]));
    assert(base[0] == '_' || base[0] == 'U');
    let all = reserved_names();
    assert forall|i: int| 0 <= i < all.len() implies #[trigger] all[i] != base by {
        assert(all[i][0] == 'C' || all[i][0] == 'P' || all[i][0] == 'A' || all[i][0] == 'N'
            || all[i][0] == 'L');
    }
}

proof fn lemma_sanitized(name: Seq<char>)
    ensures
        is_settled(sanitized(name)),
{
    reveal_strlit("untitled");
    let t = legalized(name);
    lemma_legalized(name);
    let out = if is_reserved(t) {
        seq!['_'] + t
    } else {
        t
    };
    let r = sanitized(name);
    if all_underscores(out) {
        lemma_reserved_starts("untitled"@);
        assert(r[0] == 'u' && r.last() == 'd');
    } else {
        assert(r == out);
        assert(out.len() > 0);
        if is_reserved(t) {
            lemma_reserved_starts(out);
            if t.len() == 0 {
                assert(out =~= seq!['_']);
            } else {
                assert(out.last() == t.last());
            }
            assert forall|i: int| 0 <= i < out.len() implies !illegal(#[trigger] out[i]) by {
                if i > 0 {
                    assert(out[i] == t[i - 1]);
                }
            }
        }
    }
}

/// A sanitized name is never empty, holds no character that Windows forbids, ends in
/// neither a dot nor a space, and is not the name of a device.
pub proof fn law_sanitized_is_legal(name: Seq<char>)
    ensures
        is_safe_name(sanitized(name)),
{
    lemma_sanitized(name);
}

/// Sanitizing a sanitized name changes nothing.
pub proof fn law_sanitizing_settles(name: Seq<char>)
    ensures
        sanitized(sanitized(name)) == sanitized(name),
{
    let r = sanitized(name);
    lemma_sanitized(name);
    let s = r.map_values(|c: char| legal_char(c));
    assert forall|i: int| 0 <= i < r.len() implies #[trigger] s[i] == r[i] by {
        assert(!illegal(r[i]));
    }
    assert(s =~= r);
    text::lemma_span_back_is(r, dot_or_white(), 0);
    assert(r.take(r.len() as int) =~= r);
    text::lemma_span_is(r, text::white(), 0);
    assert(r.skip(0) =~= r);
    assert(legalized(r) == r);
}

// ---------------------------------------------------------------------------
// Time
// ---------------------------------------------------------------------------

#[verifier::external_type_specification]
#[verifier::external_body]
pub struct ExSystemTime(SystemTime);

/// `SystemTime::now`: the wall clock. Nothing is claimed of what it reads.
#[verifier::external_body]
pub(crate) fn wall_clock() -> (r: SystemTime) {
    SystemTime::now()
}

/// `SystemTime::duration_since` the Unix epoch, in whole seconds; `None` for a
/// clock set before it. Nothing is claimed of the count.
#[verifier::external_body]
fn seconds_since_epoch(t: SystemTime) -> (r: Option<u64>) {
    t.duration_since(SystemTime::UNIX_EPOCH).map(|d| d.as_secs()).ok()
}

/// `SystemTime::duration_since` the Unix epoch, the nanoseconds within its last
/// second; `None` for a clock set before it. Nothing is claimed of them.
#[verifier::external_body]
pub(crate) fn nanos_since_epoch(t: SystemTime) -> (r: Option<u32>) {
    t.duration_since(SystemTime::UNIX_EPOCH).map(|d| d.subsec_nanos()).ok()
}

/// Seconds since the epoch as a timestamp: 0 for a clock set before it, and
/// reduced modulo 2^64 into `i64` for a count past `i64::MAX`.
pub open spec fn timestamp_of(elapsed: Option<u64>) -> int {
    match elapsed {
        None => 0,
        Some(s) => if s <= i64::MAX {
            s as int
        } else {
            s - 0x1_0000_0000_0000_0000
        },
    }
}

pub fn timestamp(elapsed: Option<u64>) -> (r: i64)
    ensures
        r == timestamp_of(elapsed),
{
    match elapsed {
        Some(s) => if s <= i64::MAX as u64 {
            s as i64
        } else {
            (s as i128 - 0x1_0000_0000_0000_0000) as i64
        },
        None => 0,
    }
}

/// Current wall-clock time as Unix seconds. Used for timestamps. The clock can
/// read anything, so nothing is promised of the result; [`timestamp`] says what
/// each reading becomes.
pub fn now_unix() -> (r: i64) {
    timestamp(seconds_since_epoch(wall_clock()))
}

// ---------------------------------------------------------------------------
// Chapter titles and numbers
// ---------------------------------------------------------------------------

pub open spec fn is_title_separator(c: char) -> bool {
    c == '-' || c == ':' || c == '|' || c == '\u{2013}' || c == '\u{2014}'
}

/// What follows "Chapter N" and white space or a separator at the front of `t`, trimmed;
/// the empty text where `t` does not start so. "Chapter 12th" is no such start.
pub open spec fn after_chapter_prefix(t: Seq<char>) -> Seq<char> {
    if t.len() >= 7 && text::eq_ci(t.take(7), "chapter"@) {
        let a = t.skip(7);
        let b = a.skip(text::span(a, text::only(' ')));
        let d = text::span(b, text::digits());
        let c = b.skip(d);
        let e = c.skip(text::span(c, text::only(' ')));
        if d == 0 || c.len() == 0 || !(text::is_white(c[0]) || is_title_separator(c[0])) {
            seq![]
        } else if e.len() > 0 && is_title_separator(e[0]) {
            text::trimmed(e.drop_first())
        } else {
            text::trimmed(e)
        }
    } else {
        seq![]
    }
}

/// A chapter's own name: `raw` without a "Chapter N" prefix, unless that is all
/// there is.
pub open spec fn cleaned_title(raw: Seq<char>) -> Seq<char> {
    let t = text::trimmed(raw);
    if after_chapter_prefix(t).len() > 0 {
        after_chapter_prefix(t)
    } else {
        t
    }
}

/// The rest of `s` after the run of `c` at its front.
fn skip_run(s: &[char], c: char) -> (r: &[char])
    ensures
        r@ == s@.skip(text::span(s@, text::only(c))),
{
    let mut i: usize = 0;
    while i < s.len() && s[i] == c
        invariant
            i <= s.len(),
            forall|j: int| 0 <= j < i ==> #[trigger] s@[j] == c,
        decreases s.len() - i,
    {
        i += 1;
    }
    proof {
        text::lemma_span_is(s@, text::only(c), i as int);
    }
    slice_subrange(s, i, s.len())
}

/// How many digits `s` starts with.
pub fn leading_digits(s: &[char]) -> (r: usize)
    ensures
        r == text::span(s@, text::digits()),
        r <= s.len(),
{
    let mut i: usize = 0;
    while i < s.len() && text::digit(s[i])
        invariant
            i <= s.len(),
            forall|j: int| 0 <= j < i ==> text::is_digit(#[trigger] s@[j]),
        decreases s.len() - i,
    {
        i += 1;
    }
    proof {
        text::lemma_span_is(s@, text::digits(), i as int);
    }
    i
}

fn title_separator(c: char) -> (r: bool)
    ensures
        r == is_title_separator(c),
{
    c == '-' || c == ':' || c == '|' || c == '\u{2013}' || c == '\u{2014}'
}

/// [`clean_chapter_title`] on characters.
pub fn clean_title_chars(raw: &[char]) -> (r: Vec<char>)
    ensures
        r@ == cleaned_title(raw@),
{
    let t = text::trim(raw);
    let word = text::to_chars("chapter");
    proof {
        reveal_strlit("chapter");
    }
    if t.len() >= 7 && text::same_ci(slice_subrange(t, 0, 7), &word) {
        assert(t@.subrange(0, 7) == t@.take(7));
        let a = slice_subrange(t, 7, t.len());
        assert(a@ == t@.skip(7));
        let b = skip_run(a, ' ');
        let d: usize = leading_digits(b);
        let c = slice_subrange(b, d, b.len());
        assert(c@ == b@.skip(d as int));
        if d > 0 && c.len() > 0 && (text::whitespace(c[0]) || title_separator(c[0])) {
            let e = skip_run(c, ' ');
            let rest = if e.len() > 0 && title_separator(e[0]) {
                let f = slice_subrange(e, 1, e.len());
                assert(f@ == e@.drop_first());
                text::trim(f)
            } else {
                text::trim(e)
            };
            assert(rest@ == after_chapter_prefix(t@));
            if rest.len() > 0 {
                let r = text::slice(rest, 0, rest.len());
                assert(r@ == rest@);
                return r;
            }
        }
    } else {
        assert(t@.len() >= 7 ==> t@.subrange(0, 7) == t@.take(7));
    }
    let r = text::slice(t, 0, t.len());
    assert(r@ == t@);
    r
}

/// Strip a leading "Chapter N -/\u{2013}/:/|" prefix from a table-of-contents
/// link's text, leaving just the chapter's actual name. Entries look like
/// "Chapter 1 - Cultivation Online"; we render our own "Chapter N:" prefix, so
/// keeping the site's would double it. If the text is *only* the prefix (no real
/// name), the original is returned unchanged.
pub fn clean_chapter_title(raw: &str) -> (r: String)
    ensures
        r@ == cleaned_title(raw@),
{
    let v = text::to_chars(raw);
    let r = clean_title_chars(&v);
    text::to_text(&r)
}

/// The number that follows the first occurrence of a marker in a URL.
pub open spec fn number_after(url: Seq<char>, marker: Seq<char>) -> Option<nat> {
    match text::find_from(url, marker, 0) {
        None => None,
        Some(i) => {
            let rest = url.skip(i + marker.len());
            text::parsed(rest.take(text::span(rest, text::digits())), u32::MAX as nat)
        },
    }
}

/// The chapter number embedded in a URL, as in `/<slug>/chapter-<n>-<title>.html`.
pub open spec fn chapter_number_in(url: Seq<char>) -> Option<nat> {
    number_after(url, "chapter-"@)
}

/// The number that follows the first occurrence of a marker in a URL, if one does and it
/// fits.
pub fn parse_number_after(url: &str, marker: &str) -> (r: Option<u32>)
    ensures
        r is Some == number_after(url@, marker@) is Some,
        r matches Some(n) ==> n == number_after(url@, marker@)->0,
{
    let v = text::to_chars(url);
    let needle = text::to_chars(marker);
    match text::find(&v, &needle, 0) {
        None => None,
        Some(i) => {
            let len: usize = v.len();
            let end: usize = i + needle.len();
            let rest = slice_subrange(v.as_slice(), end, len);
            assert(rest@ == v@.skip(end as int));
            let d: usize = leading_digits(rest);
            let run = slice_subrange(rest, 0, d);
            assert(run@ == rest@.take(d as int));
            text::parse_u32(run)
        },
    }
}

/// Extract a chapter number from a chapter URL, e.g.
/// `/novel/chapter-42-some-title.html` -> `42`.
pub fn parse_chapter_number(url: &str) -> (r: Option<u32>)
    ensures
        r is Some == chapter_number_in(url@) is Some,
        r matches Some(n) ==> n == chapter_number_in(url@)->0,
{
    parse_number_after(url, "chapter-")
}

/// A chapter number as a reader types it.
pub open spec fn typed_number(raw: Seq<char>) -> Result<nat, Seq<char>> {
    let t = text::trimmed(raw);
    match text::parsed(t, u32::MAX as nat) {
        None => Err(text::quoted(t) + " is not a chapter number"@),
        Some(n) => if n == 0 {
            Err("chapter numbers start at 1"@)
        } else {
            Ok(n)
        },
    }
}

/// Every number from `lo` to `hi`, both included.
pub open spec fn inclusive(lo: nat, hi: nat) -> Set<u32> {
    Set::new(|n: u32| lo <= n <= hi)
}

/// What one comma-separated part of a chapter selection names.
pub open spec fn part_names(raw: Seq<char>) -> Result<Set<u32>, Seq<char>> {
    let part = text::trimmed(raw);
    let dash = text::span(part, text::not('-'));
    if part.len() == 0 {
        Ok(Set::empty())
    } else if dash < part.len() {
        match (typed_number(part.take(dash)), typed_number(part.skip(dash + 1))) {
            (Err(e), _) => Err(e),
            (Ok(_), Err(e)) => Err(e),
            (Ok(lo), Ok(hi)) => if lo > hi {
                Err("range "@ + text::quoted(part) + " counts backwards"@)
            } else {
                Ok(inclusive(lo, hi))
            },
        }
    } else {
        match typed_number(part) {
            Err(e) => Err(e),
            Ok(n) => Ok(inclusive(n, n)),
        }
    }
}

/// What the parts name together; the first bad part decides the error.
pub open spec fn parts_name(parts: Seq<Seq<char>>) -> Result<Set<u32>, Seq<char>>
    decreases parts.len(),
{
    if parts.len() == 0 {
        Ok(Set::empty())
    } else {
        match (parts_name(parts.drop_last()), part_names(parts.last())) {
            (Err(e), _) => Err(e),
            (Ok(_), Err(e)) => Err(e),
            (Ok(a), Ok(b)) => Ok(a.union(b)),
        }
    }
}

/// What a chapter selection names.
pub open spec fn selection(spec: Seq<char>) -> Result<Set<u32>, Seq<char>> {
    match parts_name(text::split(spec, ',')) {
        Err(e) => Err(e),
        Ok(set) => if set == Set::<u32>::empty() {
            Err(text::quoted(spec) + " names no chapters"@)
        } else {
            Ok(set)
        },
    }
}

fn parse_number(raw: &[char]) -> (r: Result<u32, String>)
    ensures
        r is Ok == typed_number(raw@) is Ok,
        r matches Ok(n) ==> n == typed_number(raw@)->Ok_0,
        r matches Err(e) ==> e@ == typed_number(raw@)->Err_0,
{
    let t = text::trim(raw);
    match text::parse_u32(t) {
        None => {
            let shown = text::to_text(t);
            let q = text::quote(shown.as_str());
            Err(text::concat(q.as_str(), " is not a chapter number"))
        },
        Some(n) => if n == 0 {
            Err("chapter numbers start at 1".to_string())
        } else {
            Ok(n)
        },
    }
}

/// Parse one part into its lowest and highest number; `None` for a blank part.
fn parse_part(raw: &[char]) -> (r: Result<Option<(u32, u32)>, String>)
    ensures
        r is Ok == part_names(raw@) is Ok,
        r matches Err(e) ==> e@ == part_names(raw@)->Err_0,
        r matches Ok(None) ==> part_names(raw@)->Ok_0 == Set::<u32>::empty(),
        r matches Ok(Some((lo, hi))) ==> 0 < lo <= hi && part_names(raw@)->Ok_0 == inclusive(
            lo as nat,
            hi as nat,
        ),
{
    let part = text::trim(raw);
    if part.len() == 0 {
        return Ok(None);
    }
    let dash: usize = text::before_char(part, '-');
    if dash < part.len() {
        let left = slice_subrange(part, 0, dash);
        assert(left@ == part@.take(dash as int));
        let right = slice_subrange(part, dash + 1, part.len());
        assert(right@ == part@.skip(dash + 1));
        let lo: u32 = match parse_number(left) {
            Ok(n) => n,
            Err(e) => return Err(e),
        };
        let hi: u32 = match parse_number(right) {
            Ok(n) => n,
            Err(e) => return Err(e),
        };
        if lo > hi {
            let shown = text::to_text(part);
            let q = text::quote(shown.as_str());
            let front = text::concat("range ", q.as_str());
            return Err(text::concat(front.as_str(), " counts backwards"));
        }
        Ok(Some((lo, hi)))
    } else {
        match parse_number(part) {
            Ok(n) => Ok(Some((n, n))),
            Err(e) => Err(e),
        }
    }
}

fn insert_range(out: &mut BTreeSet<u32>, lo: u32, hi: u32)
    requires
        lo <= hi,
    ensures
        final(out)@ == old(out)@.union(inclusive(lo as nat, hi as nat)),
{
    let ghost before = out@;
    let mut n: u32 = lo;
    loop
        invariant
            lo <= n <= hi,
            before == old(out)@,
            out@ == before.union(Set::new(|k: u32| lo <= k < n)),
        decreases hi - n,
    {
        numbers::insert_number(out, n);
        assert(out@ == before.union(Set::new(|k: u32| lo <= k <= n)));
        if n == hi {
            assert(out@ == before.union(inclusive(lo as nat, hi as nat)));
            return;
        }
        n += 1;
    }
}

/// Parse a chapter selection like `"152"`, `"152-154"` or `"1,5,10-20"` into
/// the set of numbers it names.
///
/// Ranges are inclusive, because that is how a reader refers to chapters:
/// "152-154" means all three. Chapter numbering starts at 1, so 0 is rejected
/// rather than silently dropped: a selection that doesn't mean what the user
/// typed should fail loudly, since the commands built on this rewrite stored
/// text.
pub fn parse_chapter_spec(spec: &str) -> (r: Result<BTreeSet<u32>, String>)
    ensures
        r is Ok == selection(spec@) is Ok,
        r matches Ok(set) ==> set@ == selection(spec@)->Ok_0,
        r matches Err(e) ==> e@ == selection(spec@)->Err_0,
{
    let v = text::to_chars(spec);
    let parts = text::split_char(&v, ',');
    let ghost names = text::views(parts@);
    let mut out: BTreeSet<u32> = numbers::no_numbers();
    let mut i: usize = 0;
    while i < parts.len()
        invariant
            i <= parts.len(),
            names == text::views(parts@),
            names == text::split(spec@, ','),
            parts_name(names.take(i as int)) is Ok,
            out@ == parts_name(names.take(i as int))->Ok_0,
        decreases parts.len() - i,
    {
        proof {
            let t = names.take(i + 1);
            assert(t.drop_last() == names.take(i as int));
            assert(t.last() == parts@[i as int]@);
        }
        match parse_part(&parts[i]) {
            Err(e) => {
                proof {
                    lemma_error_stays(names, i + 1);
                }
                return Err(e);
            },
            Ok(None) => {
                assert(out@.union(Set::<u32>::empty()) == out@);
            },
            Ok(Some((lo, hi))) => {
                insert_range(&mut out, lo, hi);
            },
        }
        i += 1;
    }
    assert(names.take(names.len() as int) == names);
    if numbers::is_empty_set(&out) {
        let q = text::quote(spec);
        return Err(text::concat(q.as_str(), " names no chapters"));
    }
    Ok(out)
}

/// Parts after a bad one do not change the error.
proof fn lemma_error_stays(parts: Seq<Seq<char>>, k: int)
    requires
        0 <= k <= parts.len(),
        parts_name(parts.take(k)) is Err,
    ensures
        parts_name(parts) == parts_name(parts.take(k)),
    decreases parts.len() - k,
{
    if k == parts.len() {
        assert(parts.take(k) == parts);
    } else {
        assert(parts.take(k + 1).drop_last() == parts.take(k));
        lemma_error_stays(parts, k + 1);
    }
}

/// A selection names at least one chapter, and never chapter 0.
pub proof fn law_selection_starts_at_one(spec: Seq<char>)
    ensures
        selection(spec) matches Ok(set) ==> !set.contains(0) && exists|n: u32| set.contains(n),
{
    let parts = text::split(spec, ',');
    lemma_parts_start_at_one(parts);
    if let Ok(set) = selection(spec) {
        assert(set != Set::<u32>::empty());
        if forall|n: u32| !set.contains(n) {
            assert(set =~= Set::<u32>::empty());
        }
    }
}

proof fn lemma_parts_start_at_one(parts: Seq<Seq<char>>)
    ensures
        parts_name(parts) matches Ok(set) ==> !set.contains(0),
    decreases parts.len(),
{
    if parts.len() > 0 {
        lemma_parts_start_at_one(parts.drop_last());
    }
}

/// A range names both its ends and everything between them.
pub proof fn law_ranges_are_inclusive(lo: Seq<char>, hi: Seq<char>, a: nat, b: nat, n: u32)
    requires
        typed_number(lo) == Ok::<nat, Seq<char>>(a),
        typed_number(hi) == Ok::<nat, Seq<char>>(b),
        a <= b,
        text::trimmed(lo + seq!['-'] + hi) == lo + seq!['-'] + hi,
        forall|i: int| 0 <= i < lo.len() ==> #[trigger] lo[i] != '-',
    ensures
        part_names(lo + seq!['-'] + hi) is Ok,
        part_names(lo + seq!['-'] + hi)->Ok_0.contains(n) <==> a <= n <= b,
{
    let part = lo + seq!['-'] + hi;
    assert(part[lo.len() as int] == '-');
    assert forall|j: int| 0 <= j < lo.len() implies #[trigger] part[j] != '-' by {
        assert(part[j] == lo[j]);
    }
    text::lemma_span_is(part, text::not('-'), lo.len() as int);
    assert(part.take(lo.len() as int) == lo);
    assert(part.skip(lo.len() as int + 1) == hi);
}

/// A number in an address fits a chapter number.
pub proof fn lemma_number_after_fits(url: Seq<char>, marker: Seq<char>)
    ensures
        number_after(url, marker) matches Some(n) ==> n <= u32::MAX,
{
}

/// The number of an address is the one that stands behind the first marker in it. Without a
/// marker, or where no digit follows it, there is none.
pub proof fn law_an_address_holds_its_number(
    url: Seq<char>,
    marker: Seq<char>,
    i: int,
    n: u32,
    rest: Seq<char>,
)
    requires
        text::occurs_at(url, marker, i),
        forall|j: int| 0 <= j < i ==> !text::occurs_at(url, marker, j),
    ensures
        url.skip(i + marker.len()) == text::decimal(n as nat) + rest && (rest.len() == 0
            || !text::is_digit(rest[0])) ==> number_after(url, marker) == Some(n as nat),
        url.skip(i + marker.len()) == rest && (rest.len() == 0 || !text::is_digit(rest[0]))
            ==> number_after(url, marker) is None,
        forall|u: Seq<char>|
            (forall|j: int| 0 <= j ==> !text::occurs_at(u, marker, j)) ==> #[trigger] number_after(
                u,
                marker,
            ) is None,
{
    text::lemma_find_from(url, marker, 0);
    assert(text::find_from(url, marker, 0) == Some(i));
    let tail = url.skip(i + marker.len());
    if tail == text::decimal(n as nat) + rest && (rest.len() == 0 || !text::is_digit(rest[0])) {
        let d = text::decimal(n as nat);
        text::lemma_decimal(n as nat);
        assert forall|j: int| 0 <= j < d.len() implies text::digits()(#[trigger] tail[j]) by {
            assert(text::is_digit(d[j]));
        }
        if rest.len() > 0 {
            assert(tail[d.len() as int] == rest[0]);
        }
        text::lemma_span_is(tail, text::digits(), d.len() as int);
        assert(tail.take(d.len() as int) =~= d);
        text::law_numbers_read_back(n as nat, u32::MAX as nat);
    }
    if tail == rest && (rest.len() == 0 || !text::is_digit(rest[0])) {
        text::lemma_span_is(tail, text::digits(), 0);
        assert(tail.take(0) =~= seq![]);
    }
    assert forall|u: Seq<char>|
        (forall|j: int| 0 <= j ==> !text::occurs_at(u, marker, j)) implies #[trigger] number_after(
        u,
        marker,
    ) is None by {
        text::lemma_find_from(u, marker, 0);
    }
}

/// A title that does not open with the word "chapter" is only trimmed.
pub proof fn law_a_plain_title_stays(raw: Seq<char>)
    ensures
        text::trimmed(raw).len() < 7 || text::lower(text::trimmed(raw).take(7)) != "chapter"@
            ==> cleaned_title(raw) == text::trimmed(raw),
        cleaned_title(raw).len() == 0 <==> text::trimmed(raw).len() == 0,
{
    reveal_strlit("chapter");
    assert(text::lower("chapter"@) =~= "chapter"@);
}

/// "Chapter N" with a colon or a dash behind it is taken off the front of a title, and the name
/// that follows stays whole.
pub proof fn law_the_numbering_of_a_title_goes(n: u32, name: Seq<char>)
    requires
        name.len() > 0,
        !text::is_white(name[0]),
        !text::is_white(name.last()),
    ensures
        cleaned_title("Chapter "@ + text::decimal(n as nat) + ": "@ + name) == name,
        cleaned_title("Chapter "@ + text::decimal(n as nat) + " - "@ + name) == name,
        cleaned_title("Chapter "@ + text::decimal(n as nat)) == "Chapter "@ + text::decimal(
            n as nat,
        ),
{
    reveal_strlit("Chapter ");
    reveal_strlit("chapter");
    reveal_strlit(": ");
    reveal_strlit(" - ");
    let d = text::decimal(n as nat);
    let word = seq!['C', 'h', 'a', 'p', 't', 'e', 'r'];
    let blank = seq![' '];
    let none = Seq::<char>::empty();
    text::lemma_decimal(n as nat);
    assert(text::lower(word) =~= "chapter"@);
    text::law_trimming_undoes_padding(blank, name, none);
    assert(blank + name + none =~= blank + name);
    let x = seq![':'] + (blank + name);
    let y = seq!['-'] + (blank + name);
    assert(x.drop_first() =~= blank + name);
    assert(y.drop_first() =~= blank + name);
    assert(x.last() == name.last() && y.last() == name.last());
    law_a_numbering_is_read_to_its_end(word, blank, d, none, x);
    law_a_numbering_is_read_to_its_end(word, blank, d, blank, y);
    assert(word + blank + d + none + x =~= "Chapter "@ + d + ": "@ + name);
    assert(word + blank + d + blank + y =~= "Chapter "@ + d + " - "@ + name);
    lemma_bare_number(d);
}

proof fn lemma_bare_number(d: Seq<char>)
    requires
        d.len() > 0,
        text::all_digits(d),
    ensures
        cleaned_title("Chapter "@ + d) == "Chapter "@ + d,
{
    reveal_strlit("Chapter ");
    let bare = "Chapter "@ + d;
    assert(text::is_digit(d[0]) && text::is_digit(d.last()));
    assert(bare.last() == d.last());
    text::law_trimming_settles(bare);
    let a = bare.skip(7);
    assert(a =~= seq![' '] + d);
    text::lemma_span_is(a, text::only(' '), 1);
    let b = a.skip(1);
    assert(b =~= d);
    assert forall|j: int| 0 <= j < b.len() implies text::digits()(#[trigger] b[j]) by {
        assert(text::is_digit(d[j]));
    }
    text::lemma_span_is(b, text::digits(), d.len() as int);
    assert(b.skip(d.len() as int).len() == 0);
    assert(after_chapter_prefix(bare).len() == 0);
}

/// A selection is the union of what its parts name, and the first bad part spoils it.
pub proof fn law_a_selection_is_the_union_of_its_parts(
    parts: Seq<Seq<char>>,
    part: Seq<char>,
    n: u32,
)
    ensures
        (parts_name(parts) matches Ok(a) && part_names(part) matches Ok(b)) ==> (parts_name(
            parts.push(part),
        ) matches Ok(c) && (c.contains(n) <==> parts_name(parts)->Ok_0.contains(n) || part_names(
            part,
        )->Ok_0.contains(n))),
        parts_name(parts) matches Err(e) ==> parts_name(parts.push(part)) == Err::<
            Set<u32>,
            Seq<char>,
        >(e),
        parts_name(parts) is Ok && part_names(part) is Err ==> parts_name(parts.push(part)) is Err,
{
    assert(parts.push(part).drop_last() =~= parts);
}

/// A number by itself names that chapter and no other; zero names none.
pub proof fn law_a_number_names_its_chapter(n: u32, m: u32)
    ensures
        n > 0 ==> (part_names(text::decimal(n as nat)) matches Ok(s) && (s.contains(m) <==> m == n)),
        n == 0 ==> part_names(text::decimal(n as nat)) is Err,
{
    let d = text::decimal(n as nat);
    text::lemma_decimal(n as nat);
    assert(text::is_digit(d[0]) && text::is_digit(d.last()));
    text::law_trimming_settles(d);
    assert forall|j: int| 0 <= j < d.len() implies text::not('-')(#[trigger] d[j]) by {
        assert(text::is_digit(d[j]));
    }
    text::lemma_span_is(d, text::not('-'), d.len() as int);
    text::law_numbers_read_back(n as nat, u32::MAX as nat);
}

/// A name without a forbidden character that neither starts with white space, ends in white space
/// or a dot, is a device's nor is made of underscores alone is kept as it is.
pub proof fn law_a_fit_name_stays(name: Seq<char>)
    requires
        name.len() > 0,
        forall|i: int| 0 <= i < name.len() ==> !illegal(#[trigger] name[i]),
        !text::is_white(name[0]),
        !text::is_white(name.last()),
        name.last() != '.',
        !is_reserved(name),
        !all_underscores(name),
    ensures
        sanitized(name) == name,
        legalized(name) == name,
{
    let s = name.map_values(|c: char| legal_char(c));
    assert forall|i: int| 0 <= i < name.len() implies #[trigger] s[i] == name[i] by {
        assert(!illegal(name[i]));
    }
    assert(s =~= name);
    text::lemma_span_back_is(s, dot_or_white(), 0);
    assert(s.take(s.len() as int) =~= s);
    text::lemma_span_is(s, text::white(), 0);
    assert(s.skip(0) =~= s);
}

/// Each forbidden character gives way to one underscore, and every other character stays.
pub proof fn law_forbidden_characters_become_underscores(name: Seq<char>, i: int)
    requires
        name.len() > 0,
        !text::is_white(name[0]),
        !text::is_white(name.last()),
        name.last() != '.',
        0 <= i < name.len(),
    ensures
        legalized(name).len() == name.len(),
        legalized(name)[i] == if name[i] == '<' || name[i] == '>' || name[i] == ':' || name[i] == '"'
            || name[i] == '/' || name[i] == '\\' || name[i] == '|' || name[i] == '?' || name[i]
            == '*' || (name[i] as u32) < 0x20 {
            '_'
        } else {
            name[i]
        },
        !is_reserved(legalized(name)) && !all_underscores(legalized(name)) ==> sanitized(name)
            == legalized(name),
        is_reserved(legalized(name)) ==> sanitized(name) == seq!['_'] + legalized(name),
        all_underscores(legalized(name)) ==> sanitized(name) == "untitled"@,
{
    let s = name.map_values(|c: char| legal_char(c));
    assert(s[0] == legal_char(name[0]));
    assert(s.last() == legal_char(name.last()));
    text::lemma_span_back_is(s, dot_or_white(), 0);
    assert(s.take(s.len() as int) =~= s);
    text::lemma_span_is(s, text::white(), 0);
    assert(s.skip(0) =~= s);
    let t = legalized(name);
    if is_reserved(t) {
        if t[0] == '_' {
            lemma_reserved_starts(t);
        }
        assert(!all_underscores(seq!['_'] + t)) by {
            if all_underscores(seq!['_'] + t) {
                assert((seq!['_'] + t)[1] == t[0]);
                assert(t[0] == '_');
            }
        }
    }
}

/// Letters and digits of ASCII count for a title's identity, in lower case; other ASCII does not.
pub proof fn law_identity_character_by_character(s: Seq<char>, c: char)
    requires
        (c as u32) < 128,
    ensures
        normalized(seq![]).len() == 0,
        ('a' <= c && c <= 'z') || ('0' <= c && c <= '9') ==> normalized(s.push(c)) == normalized(
            s,
        ).push(c),
        'A' <= c && c <= 'Z' ==> normalized(s.push(c)) == normalized(s).push(
            ((c as u32) + 32) as char,
        ),
        !(('a' <= c && c <= 'z') || ('A' <= c && c <= 'Z') || ('0' <= c && c <= '9'))
            ==> normalized(s.push(c)) == normalized(s),
{
    assert(s.push(c).drop_last() =~= s);
    let f = lower_form(c);
    let l = text::ascii_lower(c);
    assert(f =~= seq![l]);
    if letter_or_digit(c) {
        assert(lower_form(l) =~= seq![l]);
        assert(f.drop_last() =~= seq![]);
        assert(f.last() == l);
        assert(kept(f.drop_last()) =~= seq![]);
        assert(kept(f) =~= seq![l]);
        assert(normalized(s) + seq![l] =~= normalized(s).push(l));
    } else {
        assert(normalized(s) + seq![] =~= normalized(s));
    }
}

/// A reading of the clock is the seconds since the epoch; a clock before it reads zero.
pub proof fn law_timestamps_are_the_seconds(s: u64)
    ensures
        timestamp_of(None) == 0,
        s <= i64::MAX ==> timestamp_of(Some(s)) == s,
        (timestamp_of(Some(s)) - s) % 0x1_0000_0000_0000_0000 == 0,
{
}

/// "Chapter", blanks, a number, blanks and a dash, a colon or a bar make a numbering: what follows is
/// the title, trimmed, if anything does. Where neither white space nor such a mark follows the
/// number, the whole is the title.
pub proof fn law_a_numbering_is_read_to_its_end(
    word: Seq<char>,
    a: Seq<char>,
    d: Seq<char>,
    b: Seq<char>,
    x: Seq<char>,
)
    requires
        text::lower(word) == "chapter"@,
        forall|i: int| 0 <= i < a.len() ==> #[trigger] a[i] == ' ',
        d.len() > 0,
        text::all_digits(d),
        forall|i: int| 0 <= i < b.len() ==> #[trigger] b[i] == ' ',
        x.len() > 0,
        x[0] != ' ',
        !text::is_digit(x[0]) || b.len() > 0,
        !text::is_white(x.last()),
    ensures
        ({
            let t = word + a + d + b + x;
            let mark = x[0] == '-' || x[0] == ':' || x[0] == '|' || x[0] == '\u{2013}' || x[0]
                == '\u{2014}';
            &&& mark && text::trimmed(x.drop_first()).len() > 0 ==> cleaned_title(t)
                == text::trimmed(x.drop_first())
            &&& mark && text::trimmed(x.drop_first()).len() == 0 ==> cleaned_title(t) == t
            &&& !mark && (b.len() > 0 || text::is_white(x[0])) ==> cleaned_title(t)
                == text::trimmed(x)
            &&& !mark && b.len() == 0 && !text::is_white(x[0]) ==> cleaned_title(t) == t
        }),
{
    let t = word + a + d + b + x;
    let c = b + x;
    assert(t =~= word + a + d + c);
    assert(c[0] == if b.len() > 0 {
        b[0]
    } else {
        x[0]
    });
    lemma_after_prefix(word, a, d, c);
    lemma_chapter_letters(word);
    assert(t[0] == word[0] && t.last() == x.last());
    text::law_trimming_settles(t);
    assert forall|j: int| 0 <= j < b.len() implies text::only(' ')(#[trigger] c[j]) by {
        assert(c[j] == b[j]);
    }
    assert(c[b.len() as int] == x[0]);
    text::lemma_span_is(c, text::only(' '), b.len() as int);
    assert(c.skip(b.len() as int) =~= x);
    if text::trimmed(x).len() == 0 {
        text::law_blank_is_all_whitespace(x);
        assert(text::is_white(x[x.len() - 1]));
    }
}

proof fn lemma_chapter_letters(word: Seq<char>)
    requires
        text::lower(word) == "chapter"@,
    ensures
        word.len() == 7,
        !text::is_white(word[0]),
        text::eq_ci(word, "chapter"@),
{
    reveal_strlit("chapter");
    assert(text::lower(word).len() == word.len());
    assert(text::lower(word)[0] == 'c');
    assert(text::ascii_lower(word[0]) == 'c');
    assert(text::lower("chapter"@) =~= "chapter"@);
}

proof fn lemma_after_prefix(word: Seq<char>, a: Seq<char>, d: Seq<char>, c: Seq<char>)
    requires
        text::lower(word) == "chapter"@,
        forall|i: int| 0 <= i < a.len() ==> #[trigger] a[i] == ' ',
        d.len() > 0,
        text::all_digits(d),
        c.len() > 0,
        !text::is_digit(c[0]),
    ensures
        ({
            let e = c.skip(text::span(c, text::only(' ')));
            after_chapter_prefix(word + a + d + c) == (if !(text::is_white(c[0])
                || is_title_separator(c[0])) {
                seq![]
            } else if e.len() > 0 && is_title_separator(e[0]) {
                text::trimmed(e.drop_first())
            } else {
                text::trimmed(e)
            })
        }),
{
    let t = word + a + d + c;
    lemma_chapter_letters(word);
    assert(t.take(7) =~= word);
    let after = t.skip(7);
    assert(after =~= a + d + c);
    assert(text::is_digit(d[0]));
    assert(after[a.len() as int] == d[0]);
    assert forall|j: int| 0 <= j < a.len() implies text::only(' ')(#[trigger] after[j]) by {
        assert(after[j] == a[j]);
    }
    text::lemma_span_is(after, text::only(' '), a.len() as int);
    let n = after.skip(a.len() as int);
    assert(n =~= d + c);
    assert forall|j: int| 0 <= j < d.len() implies text::digits()(#[trigger] n[j]) by {
        assert(n[j] == d[j] && text::is_digit(d[j]));
    }
    assert(n[d.len() as int] == c[0]);
    text::lemma_span_is(n, text::digits(), d.len() as int);
    assert(n.skip(d.len() as int) =~= c);
}

/// White space in front of a name, and white space and dots behind it, are left out.
pub proof fn law_ends_of_names_are_left_out(a: Seq<char>, name: Seq<char>, b: Seq<char>)
    requires
        forall|i: int| 0 <= i < a.len() ==> #[trigger] a[i] == ' ',
        forall|i: int| 0 <= i < b.len() ==> #[trigger] b[i] == ' ' || b[i] == '.',
        name.len() > 0,
        !text::is_white(name[0]),
        !text::is_white(name.last()),
        name.last() != '.',
    ensures
        legalized(a + name + b) == legalized(name),
{
    let f = |c: char| legal_char(c);
    let s = (a + name + b).map_values(f);
    let m = name.map_values(f);
    assert(s =~= a + m + b);
    assert(m.last() == legal_char(name.last()));
    assert(m[0] == legal_char(name[0]));
    assert forall|j: int| s.len() - b.len() <= j < s.len() implies dot_or_white()(#[trigger] s[j]) by {
        assert(s[j] == b[j - a.len() - name.len()]);
    }
    assert(s[s.len() - 1 - b.len()] == m.last());
    text::lemma_span_back_is(s, dot_or_white(), b.len() as int);
    let u = s.take(s.len() - b.len());
    assert(u =~= a + m);
    assert forall|j: int| 0 <= j < a.len() implies text::white()(#[trigger] u[j]) by {
        assert(u[j] == a[j]);
    }
    assert(u[a.len() as int] == m[0]);
    text::lemma_span_is(u, text::white(), a.len() as int);
    assert(u.skip(a.len() as int) =~= m);
    text::lemma_span_back_is(m, dot_or_white(), 0);
    assert(m.take(m.len() as int) =~= m);
    text::lemma_span_is(m, text::white(), 0);
    assert(m.skip(0) =~= m);
}

/// The device names are these, in any ASCII case, with or without something behind a dot.
pub proof fn law_device_names(stem: Seq<char>, rest: Seq<char>)
    requires
        forall|i: int| 0 <= i < stem.len() ==> #[trigger] stem[i] != '.',
    ensures
        is_reserved(stem) <==> {
            let u = text::upper(stem);
            ||| u == "CON"@
            ||| u == "PRN"@
            ||| u == "AUX"@
            ||| u == "NUL"@
            ||| u == "COM1"@
            ||| u == "COM2"@
            ||| u == "COM3"@
            ||| u == "COM4"@
            ||| u == "COM5"@
            ||| u == "COM6"@
            ||| u == "COM7"@
            ||| u == "COM8"@
            ||| u == "COM9"@
            ||| u == "LPT1"@
            ||| u == "LPT2"@
            ||| u == "LPT3"@
            ||| u == "LPT4"@
            ||| u == "LPT5"@
            ||| u == "LPT6"@
            ||| u == "LPT7"@
            ||| u == "LPT8"@
            ||| u == "LPT9"@
        },
        is_reserved(stem + seq!['.'] + rest) == is_reserved(stem),
{
    let whole = stem + seq!['.'] + rest;
    assert forall|j: int| 0 <= j < stem.len() implies text::not('.')(#[trigger] stem[j]) by {}
    text::lemma_span_is(stem, text::not('.'), stem.len() as int);
    assert(stem.take(stem.len() as int) =~= stem);
    assert forall|j: int| 0 <= j < stem.len() implies text::not('.')(#[trigger] whole[j]) by {
        assert(whole[j] == stem[j]);
    }
    assert(whole[stem.len() as int] == '.');
    text::lemma_span_is(whole, text::not('.'), stem.len() as int);
    assert(whole.take(stem.len() as int) =~= stem);
    let r = reserved_names();
    let u = text::upper(stem);
    assert(r.len() == 22);
    assert(r[0] == "CON"@ && r[1] == "PRN"@ && r[2] == "AUX"@ && r[3] == "NUL"@ && r[4] == "COM1"@
        && r[5] == "COM2"@ && r[6] == "COM3"@ && r[7] == "COM4"@ && r[8] == "COM5"@ && r[9]
        == "COM6"@ && r[10] == "COM7"@ && r[11] == "COM8"@ && r[12] == "COM9"@ && r[13] == "LPT1"@
        && r[14] == "LPT2"@ && r[15] == "LPT3"@ && r[16] == "LPT4"@ && r[17] == "LPT5"@ && r[18]
        == "LPT6"@ && r[19] == "LPT7"@ && r[20] == "LPT8"@ && r[21] == "LPT9"@);
    if r.contains(u) {
        let i = choose|i: int| 0 <= i < r.len() && r[i] == u;
        assert(r[i] == u);
        assert(i == 0 || i == 1 || i == 2 || i == 3 || i == 4 || i == 5 || i == 6 || i == 7 || i == 8
            || i == 9 || i == 10 || i == 11 || i == 12 || i == 13 || i == 14 || i == 15 || i == 16
            || i == 17 || i == 18 || i == 19 || i == 20 || i == 21);
    }
}

/// A range that counts backwards is refused, and so is one with an end that is no number from 1 on.
/// A blank part names nothing.
pub proof fn law_bad_ranges_are_refused(lo: Seq<char>, hi: Seq<char>, blank: Seq<char>)
    requires
        text::trimmed(lo + seq!['-'] + hi) == lo + seq!['-'] + hi,
        forall|i: int| 0 <= i < lo.len() ==> #[trigger] lo[i] != '-',
        text::trimmed(blank).len() == 0,
    ensures
        typed_number(lo) is Err || typed_number(hi) is Err ==> part_names(lo + seq!['-'] + hi) is Err,
        typed_number(lo) is Ok && typed_number(hi) is Ok && typed_number(lo)->Ok_0 > typed_number(
            hi,
        )->Ok_0 ==> part_names(lo + seq!['-'] + hi) is Err,
        part_names(blank) == Ok::<Set<u32>, Seq<char>>(Set::empty()),
{
    let part = lo + seq!['-'] + hi;
    assert(part[lo.len() as int] == '-');
    assert forall|j: int| 0 <= j < lo.len() implies text::not('-')(#[trigger] part[j]) by {
        assert(part[j] == lo[j]);
    }
    text::lemma_span_is(part, text::not('-'), lo.len() as int);
    assert(part.take(lo.len() as int) =~= lo);
    assert(part.skip(lo.len() as int + 1) =~= hi);
}

/// A typed number is read for what it says, white space around it aside; zero is refused, and so is
/// what is no number.
pub proof fn law_typed_numbers_are_read(a: Seq<char>, n: u32, b: Seq<char>, raw: Seq<char>)
    requires
        forall|i: int| 0 <= i < a.len() ==> text::is_white(#[trigger] a[i]),
        forall|i: int| 0 <= i < b.len() ==> text::is_white(#[trigger] b[i]),
    ensures
        n > 0 ==> typed_number(a + text::decimal(n as nat) + b) == Ok::<nat, Seq<char>>(n as nat),
        n == 0 ==> typed_number(a + text::decimal(n as nat) + b) is Err,
        text::parsed(text::trimmed(raw), u32::MAX as nat) is None ==> typed_number(raw) is Err,
{
    let d = text::decimal(n as nat);
    text::lemma_decimal(n as nat);
    assert(text::is_digit(d[0]) && text::is_digit(d.last()));
    text::law_trimming_undoes_padding(a, d, b);
    text::law_numbers_read_back(n as nat, u32::MAX as nat);
}

/// A selection names what its parts between the commas name together, and is refused where they name
/// nothing.
pub proof fn law_a_selection_is_its_parts(spec: Seq<char>, n: u32)
    ensures
        parts_name(text::split(spec, ',')) is Err ==> selection(spec) is Err,
        parts_name(text::split(spec, ',')) matches Ok(s) ==> (s.contains(n) ==> (
        selection(spec) matches Ok(t) && t.contains(n))),
        selection(spec) matches Ok(t) ==> (t.contains(n) ==> parts_name(
            text::split(spec, ','),
        )->Ok_0.contains(n)),
        parts_name(text::split(spec, ',')) matches Ok(s) ==> ((forall|m: u32| !s.contains(m))
            ==> selection(spec) is Err),
{
    if let Ok(s) = parts_name(text::split(spec, ',')) {
        if s.contains(n) {
            assert(s != Set::<u32>::empty());
        }
        if forall|m: u32| !s.contains(m) {
            assert(s =~= Set::<u32>::empty());
        }
    }
}

/// A number that is read back is made of digits, with at most a plus sign in front, and is within the
/// bound.
pub proof fn law_only_digits_are_numbers(s: Seq<char>, max: nat, i: int)
    ensures
        s.len() == 0 ==> text::parsed(s, max) is None,
        0 <= i < s.len() && !text::is_digit(s[i]) && !(i == 0 && s[i] == '+') ==> text::parsed(s, max)
            is None,
        text::parsed(s, max) matches Some(n) ==> n <= max,
{
    if 0 <= i < s.len() && !text::is_digit(s[i]) && !(i == 0 && s[i] == '+') {
        if s[0] == '+' {
            let d = s.drop_first();
            assert(d[i - 1] == s[i]);
        }
    }
}

} // verus!
