//! Text as sequences of characters: the primitives the parsers are written in.
//!
//! Every function here works on `char` positions, never on byte offsets, so no
//! position can fall inside a character.

use vstd::prelude::*;
use vstd::slice::slice_subrange;

verus! {

// ---------------------------------------------------------------------------
// Character classes
// ---------------------------------------------------------------------------

/// Whether Unicode gives `c` the `Alphabetic` property or a numeric category.
pub uninterp spec fn alphanumeric(c: char) -> bool;

/// Whether Unicode gives `c` the `Alphabetic` property.
pub uninterp spec fn alphabetic(c: char) -> bool;

/// Whether Unicode gives `c` the `Uppercase` property.
pub uninterp spec fn uppercase(c: char) -> bool;

/// The characters Unicode lowercases `c` to.
pub uninterp spec fn lowercased(c: char) -> Seq<char>;

/// The text Unicode lowercases `s` to, final sigmas included.
pub uninterp spec fn lowercased_text(s: Seq<char>) -> Seq<char>;

/// `s` the way `{:?}` writes it: quoted, with its control characters escaped.
pub uninterp spec fn quoted(s: Seq<char>) -> Seq<char>;

/// `char::is_alphanumeric`: the result is a property of the character alone,
/// and for ASCII it singles out the letters and the digits.
pub assume_specification[ char::is_alphanumeric ](c: char) -> (r: bool)
    ensures
        r == alphanumeric(c),
        is_ascii(c) ==> r == (is_ascii_letter(c) || is_digit(c)),
;

/// `char::is_alphabetic`: the result is a property of the character alone, and
/// for ASCII it singles out the letters.
pub assume_specification[ char::is_alphabetic ](c: char) -> (r: bool)
    ensures
        r == alphabetic(c),
        is_ascii(c) ==> r == is_ascii_letter(c),
;

/// `char::is_uppercase`: the result is a property of the character alone, and
/// for ASCII it singles out `A` to `Z`.
pub assume_specification[ char::is_uppercase ](c: char) -> (r: bool)
    ensures
        r == uppercase(c),
        is_ascii(c) ==> r == ('A' <= c && c <= 'Z'),
;

/// `char::to_lowercase`, collected: the result depends on the character alone,
/// and for ASCII it is the one lower-case character.
#[verifier::external_body]
pub(crate) fn char_lowercase(c: char) -> (r: Vec<char>)
    ensures
        r@ == lowercased(c),
        is_ascii(c) ==> r@ == seq![ascii_lower(c)],
{
    c.to_lowercase().collect()
}

/// `str::to_lowercase`: the result depends on the text alone.
#[verifier::external_body]
pub(crate) fn str_lowercase(s: &str) -> (r: String)
    ensures
        r@ == lowercased_text(s@),
{
    s.to_lowercase()
}

/// `format!("{:?}")` of a string: the result depends on the text alone.
#[verifier::external_body]
pub(crate) fn quote(s: &str) -> (r: String)
    ensures
        r@ == quoted(s@),
{
    format!("{s:?}")
}

/// `String::push`: appends one character.
pub assume_specification[ String::push ](s: &mut String, c: char)
    ensures
        final(s)@ == old(s)@.push(c),
;

pub open spec fn is_ascii(c: char) -> bool {
    (c as u32) < 128
}

pub open spec fn is_digit(c: char) -> bool {
    '0' <= c && c <= '9'
}

pub open spec fn is_ascii_letter(c: char) -> bool {
    ('a' <= c && c <= 'z') || ('A' <= c && c <= 'Z')
}

pub open spec fn ascii_lower(c: char) -> char {
    if 'A' <= c && c <= 'Z' {
        ((c as u32) + 32) as char
    } else {
        c
    }
}

pub open spec fn ascii_upper(c: char) -> char {
    if 'a' <= c && c <= 'z' {
        ((c as u32) - 32) as char
    } else {
        c
    }
}

/// The characters with Unicode's `White_Space` property.
pub open spec fn is_white(c: char) -> bool {
    let n = c as u32;
    ||| 0x09 <= n <= 0x0d
    ||| n == 0x20
    ||| n == 0x85
    ||| n == 0xa0
    ||| n == 0x1680
    ||| 0x2000 <= n <= 0x200a
    ||| n == 0x2028
    ||| n == 0x2029
    ||| n == 0x202f
    ||| n == 0x205f
    ||| n == 0x3000
}

pub fn whitespace(c: char) -> (r: bool)
    ensures
        r == is_white(c),
{
    let n: u32 = c as u32;
    (0x09 <= n && n <= 0x0d) || n == 0x20 || n == 0x85 || n == 0xa0 || n == 0x1680 || (0x2000 <= n
        && n <= 0x200a) || n == 0x2028 || n == 0x2029 || n == 0x202f || n == 0x205f || n == 0x3000
}

pub fn digit(c: char) -> (r: bool)
    ensures
        r == is_digit(c),
{
    '0' <= c && c <= '9'
}

pub fn to_lower(c: char) -> (r: char)
    ensures
        r == ascii_lower(c),
{
    if 'A' <= c && c <= 'Z' {
        (c as u8 + 32) as char
    } else {
        c
    }
}

pub fn to_upper(c: char) -> (r: char)
    ensures
        r == ascii_upper(c),
{
    if 'a' <= c && c <= 'z' {
        (c as u8 - 32) as char
    } else {
        c
    }
}

// ---------------------------------------------------------------------------
// Between strings and characters
// ---------------------------------------------------------------------------

pub fn to_chars(s: &str) -> (v: Vec<char>)
    ensures
        v@ == s@,
{
    let mut v: Vec<char> = Vec::new();
    for c in it: s.chars()
        invariant
            v@ == s@.take(it.index()),
            it.seq() == s@,
    {
        v.push(c);
    }
    v
}

pub fn to_text(v: &[char]) -> (s: String)
    ensures
        s@ == v@,
{
    let mut s = String::new();
    let mut i: usize = 0;
    while i < v.len()
        invariant
            i <= v.len(),
            s@ == v@.take(i as int),
        decreases v.len() - i,
    {
        s.push(v[i]);
        i += 1;
    }
    assert(v@.take(v@.len() as int) == v@);
    s
}

/// Whether two strings hold the same text.
pub fn same(a: &str, b: &str) -> (r: bool)
    ensures
        r == (a@ == b@),
{
    let x = to_chars(a);
    let y = to_chars(b);
    same_chars(&x, &y)
}

pub fn same_chars(x: &[char], y: &[char]) -> (r: bool)
    ensures
        r == (x@ == y@),
{
    if x.len() != y.len() {
        return false;
    }
    let mut i: usize = 0;
    while i < x.len()
        invariant
            i <= x.len(),
            x.len() == y.len(),
            forall|j: int| 0 <= j < i ==> x@[j] == y@[j],
        decreases x.len() - i,
    {
        if x[i] != y[i] {
            return false;
        }
        i += 1;
    }
    assert(x@ == y@);
    true
}

/// The characters of `v` from `from` up to, not including, `to`.
pub fn slice(v: &[char], from: usize, to: usize) -> (r: Vec<char>)
    requires
        from <= to <= v.len(),
    ensures
        r@ == v@.subrange(from as int, to as int),
{
    let mut r: Vec<char> = Vec::new();
    let mut i: usize = from;
    while i < to
        invariant
            from <= i <= to <= v.len(),
            r@ == v@.subrange(from as int, i as int),
        decreases to - i,
    {
        r.push(v[i]);
        i += 1;
    }
    r
}

/// Append every character of `more`.
pub fn push_all(v: &mut Vec<char>, more: &[char])
    ensures
        final(v)@ == old(v)@ + more@,
{
    let ghost before = v@;
    let mut i: usize = 0;
    while i < more.len()
        invariant
            i <= more.len(),
            v@ == before + more@.take(i as int),
        decreases more.len() - i,
    {
        v.push(more[i]);
        i += 1;
        assert(v@ == before + more@.take(i as int));
    }
    assert(more@.take(more@.len() as int) == more@);
}

pub fn push_str(v: &mut Vec<char>, more: &str)
    ensures
        final(v)@ == old(v)@ + more@,
{
    let chars = to_chars(more);
    push_all(v, &chars);
}

/// The two texts, one after the other.
pub fn concat(a: &str, b: &str) -> (r: String)
    ensures
        r@ == a@ + b@,
{
    let mut v = to_chars(a);
    push_str(&mut v, b);
    to_text(&v)
}

// ---------------------------------------------------------------------------
// ASCII case
// ---------------------------------------------------------------------------

pub open spec fn lower(s: Seq<char>) -> Seq<char> {
    s.map_values(|c: char| ascii_lower(c))
}

pub open spec fn upper(s: Seq<char>) -> Seq<char> {
    s.map_values(|c: char| ascii_upper(c))
}

/// Equality up to ASCII case.
pub open spec fn eq_ci(a: Seq<char>, b: Seq<char>) -> bool {
    lower(a) == lower(b)
}

pub fn lower_chars(s: &[char]) -> (r: Vec<char>)
    ensures
        r@ == lower(s@),
{
    let mut r: Vec<char> = Vec::new();
    let mut i: usize = 0;
    while i < s.len()
        invariant
            i <= s.len(),
            r@ == lower(s@).take(i as int),
        decreases s.len() - i,
    {
        r.push(to_lower(s[i]));
        i += 1;
    }
    assert(lower(s@).take(s@.len() as int) == lower(s@));
    r
}

pub fn upper_chars(s: &[char]) -> (r: Vec<char>)
    ensures
        r@ == upper(s@),
{
    let mut r: Vec<char> = Vec::new();
    let mut i: usize = 0;
    while i < s.len()
        invariant
            i <= s.len(),
            r@ == upper(s@).take(i as int),
        decreases s.len() - i,
    {
        r.push(to_upper(s[i]));
        i += 1;
    }
    assert(upper(s@).take(s@.len() as int) == upper(s@));
    r
}

pub fn same_ci(a: &[char], b: &[char]) -> (r: bool)
    ensures
        r == eq_ci(a@, b@),
{
    let x = lower_chars(a);
    let y = lower_chars(b);
    same_chars(&x, &y)
}

/// Whether `w` is one of `words`, up to ASCII case.
pub open spec fn any_ci(words: Seq<Seq<char>>, w: Seq<char>) -> bool {
    exists|i: int| 0 <= i < words.len() && eq_ci(w, #[trigger] words[i])
}

pub fn listed_ci(words: &[&str], w: &[char]) -> (r: bool)
    ensures
        r == any_ci(words@.map_values(|x: &str| x@), w@),
{
    let ghost all = words@.map_values(|x: &str| x@);
    let mut i: usize = 0;
    while i < words.len()
        invariant
            i <= words.len(),
            all == words@.map_values(|x: &str| x@),
            forall|j: int| 0 <= j < i ==> !eq_ci(w@, #[trigger] all[j]),
        decreases words.len() - i,
    {
        let x = to_chars(words[i]);
        assert(all[i as int] == words@[i as int]@);
        if same_ci(w, &x) {
            return true;
        }
        i += 1;
    }
    false
}

// ---------------------------------------------------------------------------
// Searching
// ---------------------------------------------------------------------------

/// Whether `needle` stands in `s` at position `i`.
pub open spec fn occurs_at(s: Seq<char>, needle: Seq<char>, i: int) -> bool {
    0 <= i && i + needle.len() <= s.len() && s.subrange(i, i + needle.len()) == needle
}

/// The first position at or after `from` where `needle` stands in `s`.
pub open spec fn find_from(s: Seq<char>, needle: Seq<char>, from: int) -> Option<int>
    decreases s.len() + 1 - from,
{
    if from + needle.len() > s.len() {
        None
    } else if occurs_at(s, needle, from) {
        Some(from)
    } else {
        find_from(s, needle, from + 1)
    }
}

/// `find_from` gives the least occurrence.
pub proof fn lemma_find_from(s: Seq<char>, needle: Seq<char>, from: int)
    requires
        0 <= from,
    ensures
        find_from(s, needle, from) matches Some(i) ==> from <= i && occurs_at(s, needle, i) && (
        forall|j: int| from <= j < i ==> !occurs_at(s, needle, j)),
        find_from(s, needle, from) is None ==> forall|j: int|
            from <= j ==> !occurs_at(s, needle, j),
    decreases s.len() + 1 - from,
{
    if from + needle.len() <= s.len() && !occurs_at(s, needle, from) {
        lemma_find_from(s, needle, from + 1);
    }
}

pub fn occurs(s: &[char], needle: &[char], i: usize) -> (r: bool)
    ensures
        r == occurs_at(s@, needle@, i as int),
{
    if needle.len() > s.len() || i > s.len() - needle.len() {
        return false;
    }
    same_chars(slice_subrange(s, i, i + needle.len()), needle)
}

pub fn find(s: &[char], needle: &[char], from: usize) -> (r: Option<usize>)
    ensures
        r is Some == find_from(s@, needle@, from as int) is Some,
        r is Some ==> r->0 == find_from(s@, needle@, from as int)->0,
        r matches Some(i) ==> from <= i && i + needle@.len() <= s@.len(),
{
    let mut i: usize = from;
    while needle.len() <= s.len() && i <= s.len() - needle.len()
        invariant
            from <= i,
            find_from(s@, needle@, from as int) == find_from(s@, needle@, i as int),
        decreases s.len() + 1 - i,
    {
        if occurs(s, needle, i) {
            return Some(i);
        }
        assert(needle@.len() > 0) by {
            if needle@.len() == 0 {
                assert(s@.subrange(i as int, i as int) == needle@);
            }
        }
        i += 1;
    }
    None
}

/// The last position at or before `upto` where `needle` stands in `s`.
pub open spec fn find_back(s: Seq<char>, needle: Seq<char>, upto: int) -> Option<int>
    decreases upto + 1,
{
    if upto < 0 {
        None
    } else if occurs_at(s, needle, upto) {
        Some(upto)
    } else {
        find_back(s, needle, upto - 1)
    }
}

/// What follows the last `needle` in `s`: all of it, if there is none.
pub open spec fn after_last(s: Seq<char>, needle: Seq<char>) -> Seq<char> {
    match find_back(s, needle, s.len() as int) {
        Some(i) => s.skip(i + needle.len()),
        None => s,
    }
}

pub fn after_last_of<'a>(s: &'a [char], needle: &[char]) -> (r: &'a [char])
    ensures
        r@ == after_last(s@, needle@),
{
    let mut i: usize = s.len();
    loop
        invariant
            i <= s.len(),
            find_back(s@, needle@, s@.len() as int) == find_back(s@, needle@, i as int),
        decreases i,
    {
        if occurs(s, needle, i) {
            let rest = slice_subrange(s, i + needle.len(), s.len());
            assert(rest@ == s@.skip(i + needle@.len()));
            return rest;
        }
        if i == 0 {
            assert(find_back(s@, needle@, -1) is None);
            return s;
        }
        i -= 1;
    }
}

// ---------------------------------------------------------------------------
// Runs of characters
// ---------------------------------------------------------------------------

pub open spec fn white() -> spec_fn(char) -> bool {
    |c: char| is_white(c)
}

pub open spec fn digits() -> spec_fn(char) -> bool {
    |c: char| is_digit(c)
}

pub open spec fn only(x: char) -> spec_fn(char) -> bool {
    |c: char| c == x
}

pub open spec fn not(x: char) -> spec_fn(char) -> bool {
    |c: char| c != x
}

/// How many characters at the front of `s` satisfy `p`.
pub open spec fn span(s: Seq<char>, p: spec_fn(char) -> bool) -> int
    decreases s.len(),
{
    if s.len() > 0 && p(s[0]) {
        1 + span(s.drop_first(), p)
    } else {
        0
    }
}

/// How many characters at the back of `s` satisfy `p`.
pub open spec fn span_back(s: Seq<char>, p: spec_fn(char) -> bool) -> int
    decreases s.len(),
{
    if s.len() > 0 && p(s.last()) {
        1 + span_back(s.drop_last(), p)
    } else {
        0
    }
}

pub proof fn lemma_span(s: Seq<char>, p: spec_fn(char) -> bool)
    ensures
        0 <= span(s, p) <= s.len(),
        forall|j: int| 0 <= j < span(s, p) ==> p(#[trigger] s[j]),
        span(s, p) < s.len() ==> !p(s[span(s, p)]),
    decreases s.len(),
{
    if s.len() > 0 && p(s[0]) {
        let t = s.drop_first();
        lemma_span(t, p);
        assert forall|j: int| 0 <= j < span(s, p) implies p(#[trigger] s[j]) by {
            if j > 0 {
                assert(s[j] == t[j - 1]);
            }
        }
    }
}

pub proof fn lemma_span_back(s: Seq<char>, p: spec_fn(char) -> bool)
    ensures
        0 <= span_back(s, p) <= s.len(),
        forall|j: int| s.len() - span_back(s, p) <= j < s.len() ==> p(#[trigger] s[j]),
        span_back(s, p) < s.len() ==> !p(s[s.len() - 1 - span_back(s, p)]),
    decreases s.len(),
{
    if s.len() > 0 && p(s.last()) {
        let t = s.drop_last();
        lemma_span_back(t, p);
        assert forall|j: int| s.len() - span_back(s, p) <= j < s.len() implies p(
            #[trigger] s[j],
        ) by {
            if j < s.len() - 1 {
                assert(s[j] == t[j]);
            }
        }
    }
}

/// A prefix that satisfies `p` and cannot be extended is the whole run.
pub proof fn lemma_span_is(s: Seq<char>, p: spec_fn(char) -> bool, k: int)
    requires
        0 <= k <= s.len(),
        forall|j: int| 0 <= j < k ==> p(#[trigger] s[j]),
        k < s.len() ==> !p(s[k]),
    ensures
        span(s, p) == k,
{
    lemma_span(s, p);
    let n = span(s, p);
    if n < k {
        assert(p(s[n]));
    } else if k < n {
        assert(p(s[k]));
    }
}

pub proof fn lemma_span_back_is(s: Seq<char>, p: spec_fn(char) -> bool, k: int)
    requires
        0 <= k <= s.len(),
        forall|j: int| s.len() - k <= j < s.len() ==> p(#[trigger] s[j]),
        k < s.len() ==> !p(s[s.len() - 1 - k]),
    ensures
        span_back(s, p) == k,
{
    lemma_span_back(s, p);
    let n = span_back(s, p);
    if n < k {
        assert(p(s[s.len() - 1 - n]));
    } else if k < n {
        assert(p(s[s.len() - 1 - k]));
    }
}

/// `s` without the whitespace at its front.
pub open spec fn trimmed_start(s: Seq<char>) -> Seq<char> {
    s.skip(span(s, white()))
}

/// `s` without the whitespace at its back.
pub open spec fn trimmed_end(s: Seq<char>) -> Seq<char> {
    s.take(s.len() - span_back(s, white()))
}

/// `s` without the whitespace around it.
pub open spec fn trimmed(s: Seq<char>) -> Seq<char> {
    trimmed_end(trimmed_start(s))
}

/// `s` without the run of `c` at its back.
pub open spec fn without_trailing(s: Seq<char>, c: char) -> Seq<char> {
    s.take(s.len() - span_back(s, only(c)))
}

pub fn trim_start(s: &[char]) -> (r: &[char])
    ensures
        r@ == trimmed_start(s@),
        r@.len() <= s@.len(),
{
    let mut i: usize = 0;
    while i < s.len() && whitespace(s[i])
        invariant
            i <= s.len(),
            forall|j: int| 0 <= j < i ==> is_white(#[trigger] s@[j]),
        decreases s.len() - i,
    {
        i += 1;
    }
    proof {
        lemma_span_is(s@, white(), i as int);
    }
    slice_subrange(s, i, s.len())
}

pub fn trim_end(s: &[char]) -> (r: &[char])
    ensures
        r@ == trimmed_end(s@),
        r@.len() <= s@.len(),
{
    let mut i: usize = s.len();
    while i > 0 && whitespace(s[i - 1])
        invariant
            i <= s.len(),
            forall|j: int| i <= j < s.len() ==> is_white(#[trigger] s@[j]),
        decreases i,
    {
        i -= 1;
    }
    proof {
        lemma_span_back_is(s@, white(), s@.len() - i);
    }
    slice_subrange(s, 0, i)
}

pub fn trim(s: &[char]) -> (r: &[char])
    ensures
        r@ == trimmed(s@),
        r@.len() <= s@.len(),
{
    trim_end(trim_start(s))
}

/// `str::trim` on a string, as a new string.
pub fn trim_text(s: &str) -> (r: String)
    ensures
        r@ == trimmed(s@),
{
    let v = to_chars(s);
    to_text(trim(&v))
}

pub fn trim_end_char(s: &[char], c: char) -> (r: &[char])
    ensures
        r@ == without_trailing(s@, c),
{
    let mut i: usize = s.len();
    while i > 0 && s[i - 1] == c
        invariant
            i <= s.len(),
            forall|j: int| i <= j < s.len() ==> #[trigger] s@[j] == c,
        decreases i,
    {
        i -= 1;
    }
    proof {
        lemma_span_back_is(s@, only(c), s@.len() - i);
    }
    slice_subrange(s, 0, i)
}

/// How many characters stand in `s` before the first `c`: all, if there is none.
pub fn before_char(s: &[char], c: char) -> (r: usize)
    ensures
        r == span(s@, not(c)),
        r <= s.len(),
        r < s.len() ==> s@[r as int] == c,
{
    let mut i: usize = 0;
    while i < s.len() && s[i] != c
        invariant
            i <= s.len(),
            forall|j: int| 0 <= j < i ==> #[trigger] s@[j] != c,
        decreases s.len() - i,
    {
        i += 1;
    }
    proof {
        lemma_span_is(s@, not(c), i as int);
    }
    i
}

/// How many characters stand in `s` after the last `c`: all, if there is none.
pub fn after_last_char(s: &[char], c: char) -> (r: usize)
    ensures
        r == span_back(s@, not(c)),
        r <= s.len(),
{
    let mut i: usize = s.len();
    while i > 0 && s[i - 1] != c
        invariant
            i <= s.len(),
            forall|j: int| i <= j < s.len() ==> #[trigger] s@[j] != c,
        decreases i,
    {
        i -= 1;
    }
    proof {
        lemma_span_back_is(s@, not(c), s@.len() - i);
    }
    s.len() - i
}

// ---------------------------------------------------------------------------
// Splitting and joining
// ---------------------------------------------------------------------------

pub open spec fn views(v: Seq<Vec<char>>) -> Seq<Seq<char>> {
    v.map_values(|x: Vec<char>| x@)
}

pub open spec fn texts(v: Seq<String>) -> Seq<Seq<char>> {
    v.map_values(|x: String| x@)
}

pub open spec fn opt(o: Option<String>) -> Option<Seq<char>> {
    match o {
        Some(s) => Some(s@),
        None => None,
    }
}

pub fn copy_opt(o: &Option<String>) -> (r: Option<String>)
    ensures
        opt(r) == opt(*o),
{
    match o {
        Some(s) => Some(s.clone()),
        None => None,
    }
}

pub fn copy_texts(v: &[String]) -> (r: Vec<String>)
    ensures
        texts(r@) == texts(v@),
{
    let mut r: Vec<String> = Vec::new();
    let mut i: usize = 0;
    while i < v.len()
        invariant
            i <= v.len(),
            texts(r@) == texts(v@).take(i as int),
        decreases v.len() - i,
    {
        let ghost before = r@;
        r.push(v[i].clone());
        assert(texts(r@) == texts(before).push(v@[i as int]@));
        i += 1;
    }
    assert(texts(v@).take(v@.len() as int) == texts(v@));
    r
}

/// The pieces of `s` between its `c`s; one more than there are `c`s.
pub open spec fn split(s: Seq<char>, c: char) -> Seq<Seq<char>>
    decreases s.len(),
{
    let n = span(s, not(c));
    proof {
        lemma_span(s, not(c));
    }
    if n >= s.len() {
        seq![s]
    } else {
        seq![s.take(n)] + split(s.skip(n + 1), c)
    }
}

pub fn split_char(s: &[char], c: char) -> (r: Vec<Vec<char>>)
    ensures
        views(r@) == split(s@, c),
{
    let mut r: Vec<Vec<char>> = Vec::new();
    let mut start: usize = 0;
    assert(s@.skip(0) == s@);
    loop
        invariant
            start <= s.len(),
            split(s@, c) == views(r@) + split(s@.skip(start as int), c),
        decreases s.len() - start,
    {
        let rest = slice_subrange(s, start, s.len());
        assert(rest@ == s@.skip(start as int));
        let n: usize = before_char(rest, c);
        let ghost before = r@;
        let piece = slice(rest, 0, n);
        assert(piece@ == rest@.take(n as int));
        r.push(piece);
        assert(views(r@) == views(before).push(piece@));
        if n == rest.len() {
            assert(rest@.take(n as int) == rest@);
            return r;
        }
        start = start + n + 1;
        assert(rest@.skip(n + 1) == s@.skip(start as int));
        assert(views(r@) + split(s@.skip(start as int), c) == views(before) + (seq![piece@]
            + split(s@.skip(start as int), c)));
    }
}

/// The texts one after the other, with `sep` between neighbours.
pub open spec fn join(parts: Seq<Seq<char>>, sep: Seq<char>) -> Seq<char>
    decreases parts.len(),
{
    if parts.len() == 0 {
        seq![]
    } else if parts.len() == 1 {
        parts[0]
    } else {
        join(parts.drop_last(), sep) + sep + parts.last()
    }
}

pub fn join_chars(parts: &Vec<Vec<char>>, sep: &str) -> (r: Vec<char>)
    ensures
        r@ == join(views(parts@), sep@),
{
    let s = to_chars(sep);
    let mut r: Vec<char> = Vec::new();
    let mut i: usize = 0;
    while i < parts.len()
        invariant
            i <= parts.len(),
            s@ == sep@,
            r@ == join(views(parts@).take(i as int), sep@),
        decreases parts.len() - i,
    {
        if i > 0 {
            push_all(&mut r, &s);
        }
        push_all(&mut r, &parts[i]);
        i += 1;
        proof {
            let t = views(parts@).take(i as int);
            assert(t.drop_last() == views(parts@).take(i - 1));
            assert(t.last() == parts@[i - 1]@);
            if i == 1 {
                assert(r@ == parts@[0]@);
            }
        }
    }
    assert(views(parts@).take(parts@.len() as int) == views(parts@));
    r
}

pub fn join_texts(parts: &[String], sep: &str) -> (r: String)
    ensures
        r@ == join(texts(parts@), sep@),
{
    let mut v: Vec<Vec<char>> = Vec::new();
    let mut i: usize = 0;
    while i < parts.len()
        invariant
            i <= parts.len(),
            views(v@) == texts(parts@).take(i as int),
        decreases parts.len() - i,
    {
        let ghost before = v@;
        v.push(to_chars(parts[i].as_str()));
        assert(views(v@) == views(before).push(parts@[i as int]@));
        i += 1;
    }
    assert(texts(parts@).take(parts@.len() as int) == texts(parts@));
    let r = join_chars(&v, sep);
    to_text(&r)
}

/// The maximal runs of characters that are not whitespace.
pub open spec fn words(s: Seq<char>) -> Seq<Seq<char>>
    decreases s.len(),
{
    proof {
        lemma_first_word(s);
    }
    let t = trimmed_start(s);
    if t.len() == 0 {
        seq![]
    } else {
        let n = span(t, black());
        seq![t.take(n)] + words(t.skip(n))
    }
}

pub open spec fn black() -> spec_fn(char) -> bool {
    |c: char| !is_white(c)
}

pub proof fn lemma_first_word(s: Seq<char>)
    ensures
        trimmed_start(s).len() <= s.len(),
        trimmed_start(s).len() > 0 ==> 0 < span(trimmed_start(s), black()) <= trimmed_start(
            s,
        ).len(),
{
    lemma_span(s, white());
    let t = trimmed_start(s);
    if t.len() > 0 {
        assert(t[0] == s[span(s, white())]);
        lemma_span(t, black());
    }
}

pub fn split_words(s: &[char]) -> (r: Vec<Vec<char>>)
    ensures
        views(r@) == words(s@),
{
    let mut r: Vec<Vec<char>> = Vec::new();
    let mut rest: &[char] = s;
    loop
        invariant
            words(s@) == views(r@) + words(rest@),
        decreases rest.len(),
    {
        let t = trim_start(rest);
        if t.len() == 0 {
            assert(views(r@) + words(rest@) == views(r@));
            return r;
        }
        let mut n: usize = 0;
        while n < t.len() && !whitespace(t[n])
            invariant
                n <= t.len(),
                forall|j: int| 0 <= j < n ==> !is_white(#[trigger] t@[j]),
            decreases t.len() - n,
        {
            n += 1;
        }
        proof {
            lemma_span_is(t@, black(), n as int);
            lemma_first_word(rest@);
        }
        let ghost before = r@;
        let word = slice(t, 0, n);
        assert(word@ == t@.take(n as int));
        r.push(word);
        assert(views(r@) == views(before).push(word@));
        let next = slice_subrange(t, n, t.len());
        assert(next@ == t@.skip(n as int));
        assert(views(r@) + words(next@) == views(before) + (seq![word@] + words(next@)));
        rest = next;
    }
}

// ---------------------------------------------------------------------------
// Numbers
// ---------------------------------------------------------------------------

pub open spec fn digit_char(d: int) -> char {
    (('0' as u32) + d) as char
}

pub open spec fn digit_value(c: char) -> int {
    (c as u32) - ('0' as u32)
}

/// `n` in decimal, without leading zeros.
pub open spec fn decimal(n: nat) -> Seq<char>
    decreases n,
{
    if n < 10 {
        seq![digit_char(n as int)]
    } else {
        decimal(n / 10).push(digit_char((n % 10) as int))
    }
}

/// `s` with zeros in front, up to `width` characters.
pub open spec fn padded(s: Seq<char>, width: int) -> Seq<char> {
    if s.len() >= width {
        s
    } else {
        Seq::new((width - s.len()) as nat, |i: int| '0') + s
    }
}

/// A signed number in decimal.
pub open spec fn decimal_int(n: int) -> Seq<char> {
    if n < 0 {
        seq!['-'] + decimal((-n) as nat)
    } else {
        decimal(n as nat)
    }
}

/// The number a run of digits stands for.
pub open spec fn digits_value(s: Seq<char>) -> nat
    decreases s.len(),
{
    if s.len() == 0 {
        0
    } else {
        (digits_value(s.drop_last()) * 10 + digit_value(s.last())) as nat
    }
}

pub open spec fn all_digits(s: Seq<char>) -> bool {
    forall|i: int| 0 <= i < s.len() ==> is_digit(#[trigger] s[i])
}

/// What `str::parse` makes of `s` for an unsigned type with maximum `max`: an
/// optional `+`, then one or more digits.
pub open spec fn parsed(s: Seq<char>, max: nat) -> Option<nat> {
    let d = if s.len() > 0 && s[0] == '+' {
        s.drop_first()
    } else {
        s
    };
    if d.len() > 0 && all_digits(d) && digits_value(d) <= max {
        Some(digits_value(d))
    } else {
        None
    }
}

/// A number in decimal is made of digits, at least one, and stands for the number.
pub proof fn lemma_decimal(n: nat)
    ensures
        decimal(n).len() > 0,
        all_digits(decimal(n)),
        digits_value(decimal(n)) == n,
    decreases n,
{
    if n < 10 {
        let s = decimal(n);
        assert(s.drop_last() =~= Seq::<char>::empty());
        assert(digits_value(s.drop_last()) == 0);
    } else {
        lemma_decimal(n / 10);
        let s = decimal(n);
        assert(s.drop_last() =~= decimal(n / 10));
    }
}

/// Zeros in front of a number do not change it.
pub proof fn lemma_padded(s: Seq<char>, width: int)
    requires
        all_digits(s),
    ensures
        all_digits(padded(s, width)),
        digits_value(padded(s, width)) == digits_value(s),
        padded(s, width).len() == if s.len() >= width {
            s.len() as int
        } else {
            width
        },
{
    if s.len() < width {
        lemma_zeros((width - s.len()) as nat, s);
    }
}

proof fn lemma_zeros(k: nat, s: Seq<char>)
    requires
        all_digits(s),
    ensures
        all_digits(Seq::new(k, |i: int| '0') + s),
        digits_value(Seq::new(k, |i: int| '0') + s) == digits_value(s),
    decreases k + s.len(),
{
    let zeros = Seq::new(k, |i: int| '0');
    let whole = zeros + s;
    if s.len() > 0 {
        assert(whole.drop_last() =~= zeros + s.drop_last());
        assert(whole.last() == s.last());
        lemma_zeros(k, s.drop_last());
    } else if k > 0 {
        let fewer = Seq::new((k - 1) as nat, |i: int| '0');
        assert(whole.drop_last() =~= fewer + s);
        assert(whole.last() == '0');
        lemma_zeros((k - 1) as nat, s);
    } else {
        assert(whole =~= s);
    }
}

spec fn ten_to(k: nat) -> nat
    decreases k,
{
    if k == 0 {
        1
    } else {
        10 * ten_to((k - 1) as nat)
    }
}

proof fn lemma_decimal_len(n: nat, k: nat)
    requires
        k > 0,
        n < ten_to(k),
    ensures
        decimal(n).len() <= k,
    decreases k,
{
    if n >= 10 {
        if k == 1 {
            assert(ten_to(0) == 1);
            assert(ten_to(1) == 10 * ten_to(0));
        } else {
            lemma_decimal_len(n / 10, (k - 1) as nat);
        }
    }
}

/// A 32-bit number takes at most ten digits.
pub proof fn lemma_short_decimal(n: u32)
    ensures
        decimal(n as nat).len() <= 10,
{
    reveal_with_fuel(ten_to, 11);
    lemma_decimal_len(n as nat, 10);
}

/// Reading a number back from its decimal text gives the number.
pub proof fn law_numbers_read_back(n: nat, max: nat)
    requires
        n <= max,
    ensures
        parsed(decimal(n), max) == Some(n),
{
    lemma_decimal(n);
    let s = decimal(n);
    assert(is_digit(s[0]));
}

fn digit_to_char(d: u8) -> (c: char)
    requires
        d < 10,
    ensures
        c == digit_char(d as int),
{
    (48u8 + d) as char
}

pub fn decimal_chars(n: u64) -> (r: Vec<char>)
    ensures
        r@ == decimal(n as nat),
    decreases n,
{
    if n < 10 {
        let mut r: Vec<char> = Vec::new();
        r.push(digit_to_char(n as u8));
        assert(r@ == decimal(n as nat));
        r
    } else {
        let mut r = decimal_chars(n / 10);
        r.push(digit_to_char((n % 10) as u8));
        r
    }
}

pub fn decimal_text(n: u64) -> (r: String)
    ensures
        r@ == decimal(n as nat),
{
    let v = decimal_chars(n);
    to_text(&v)
}

pub fn decimal_int_chars(n: i64) -> (r: Vec<char>)
    ensures
        r@ == decimal_int(n as int),
{
    if n < 0 {
        let mut r: Vec<char> = Vec::new();
        r.push('-');
        let d = decimal_chars((-(n as i128)) as u64);
        push_all(&mut r, &d);
        assert(r@ == decimal_int(n as int));
        r
    } else {
        decimal_chars(n as u64)
    }
}

pub fn pad_zero(s: &[char], width: usize) -> (r: Vec<char>)
    ensures
        r@ == padded(s@, width as int),
{
    let mut r: Vec<char> = Vec::new();
    if s.len() < width {
        let mut i: usize = s.len();
        while i < width
            invariant
                s.len() <= i <= width,
                r@ == Seq::new((i - s.len()) as nat, |j: int| '0'),
            decreases width - i,
        {
            r.push('0');
            i += 1;
            assert(r@ == Seq::new((i - s.len()) as nat, |j: int| '0'));
        }
    }
    push_all(&mut r, s);
    assert(r@ == padded(s@, width as int));
    r
}

/// Parse a run of digits, if it is one and its value is at most `max`.
fn parse_digits(s: &[char], max: u64) -> (r: Option<u64>)
    ensures
        r is Some == (s@.len() > 0 && all_digits(s@) && digits_value(s@) <= max),
        r matches Some(n) ==> n == digits_value(s@),
{
    if s.len() == 0 {
        return None;
    }
    let mut n: u64 = 0;
    let mut i: usize = 0;
    while i < s.len()
        invariant
            i <= s.len(),
            forall|j: int| 0 <= j < i ==> is_digit(#[trigger] s@[j]),
            n == digits_value(s@.take(i as int)),
            n <= max,
        decreases s.len() - i,
    {
        let c = s[i];
        if !digit(c) {
            return None;
        }
        let d: u64 = c as u64 - '0' as u64;
        proof {
            let t = s@.take(i + 1);
            assert(t.drop_last() == s@.take(i as int));
            assert(t.last() == c);
            lemma_digits_value_grows(s@, i + 1);
        }
        if max < d || n > max / 10 || n * 10 > max - d {
            return None;
        }
        n = n * 10 + d;
        i += 1;
    }
    assert(s@.take(s@.len() as int) == s@);
    Some(n)
}

/// More digits never make a smaller number.
proof fn lemma_digits_value_grows(s: Seq<char>, k: int)
    requires
        0 <= k <= s.len(),
    ensures
        all_digits(s) ==> digits_value(s.take(k)) <= digits_value(s),
    decreases s.len() - k,
{
    if k == s.len() {
        assert(s.take(k) == s);
    } else {
        lemma_digits_value_grows(s, k + 1);
        let t = s.take(k + 1);
        assert(t.drop_last() == s.take(k));
        assert(t.last() == s[k]);
    }
}

pub fn parse_u64(s: &[char], max: u64) -> (r: Option<u64>)
    ensures
        r is Some == parsed(s@, max as nat) is Some,
        r matches Some(n) ==> n == parsed(s@, max as nat)->0 && n <= max,
{
    if s.len() > 0 && s[0] == '+' {
        let rest = slice_subrange(s, 1, s.len());
        assert(rest@ == s@.drop_first());
        parse_digits(rest, max)
    } else {
        parse_digits(s, max)
    }
}

pub fn parse_u32(s: &[char]) -> (r: Option<u32>)
    ensures
        r is Some == parsed(s@, u32::MAX as nat) is Some,
        r matches Some(n) ==> n == parsed(s@, u32::MAX as nat)->0,
{
    match parse_u64(s, u32::MAX as u64) {
        Some(n) => Some(n as u32),
        None => None,
    }
}

/// What `str::parse` makes of `s` for `i64`: an optional sign, then digits.
pub open spec fn parsed_int(s: Seq<char>) -> Option<int> {
    if s.len() > 0 && s[0] == '-' {
        let d = s.drop_first();
        if d.len() > 0 && all_digits(d) && digits_value(d) <= 0x8000_0000_0000_0000 {
            Some(-(digits_value(d) as int))
        } else {
            None
        }
    } else {
        match parsed(s, i64::MAX as nat) {
            Some(n) => Some(n as int),
            None => None,
        }
    }
}

pub fn parse_i64(s: &[char]) -> (r: Option<i64>)
    ensures
        r is Some == parsed_int(s@) is Some,
        r matches Some(n) ==> n == parsed_int(s@)->0,
{
    if s.len() > 0 && s[0] == '-' {
        let rest = slice_subrange(s, 1, s.len());
        assert(rest@ == s@.drop_first());
        match parse_digits(rest, 0x8000_0000_0000_0000) {
            Some(n) => Some((-(n as i128)) as i64),
            None => None,
        }
    } else {
        match parse_u64(s, i64::MAX as u64) {
            Some(n) => Some(n as i64),
            None => None,
        }
    }
}

/// The pieces of `s` between the occurrences of `sep`, read from the front.
pub open spec fn split_at_each(s: Seq<char>, sep: Seq<char>) -> Seq<Seq<char>>
    decreases s.len(),
{
    proof {
        lemma_find_from(s, sep, 0);
    }
    match find_from(s, sep, 0) {
        Some(i) => if sep.len() > 0 {
            seq![s.take(i)] + split_at_each(s.skip(i + sep.len()), sep)
        } else {
            seq![s]
        },
        None => seq![s],
    }
}

pub fn split_str(s: &[char], sep: &str) -> (r: Vec<String>)
    requires
        sep@.len() > 0,
    ensures
        texts(r@) == split_at_each(s@, sep@),
{
    let needle = to_chars(sep);
    let mut r: Vec<String> = Vec::new();
    let mut rest: &[char] = s;
    loop
        invariant
            needle@ == sep@,
            sep@.len() > 0,
            split_at_each(s@, sep@) == texts(r@) + split_at_each(rest@, sep@),
        decreases rest.len(),
    {
        let ghost before = r@;
        match find(rest, &needle, 0) {
            None => {
                r.push(to_text(rest));
                assert(texts(r@) == texts(before) + seq![rest@]);
                return r;
            },
            Some(i) => {
                assert(i + needle.len() <= rest.len());
                let piece = slice_subrange(rest, 0, i);
                assert(piece@ == rest@.take(i as int));
                r.push(to_text(piece));
                let next = slice_subrange(rest, i + needle.len(), rest.len());
                assert(next@ == rest@.skip(i + sep@.len()));
                assert(texts(r@) + split_at_each(next@, sep@) == texts(before) + (seq![piece@]
                    + split_at_each(next@, sep@)));
                rest = next;
            },
        }
    }
}

// ---------------------------------------------------------------------------
// Splitting at a class of characters
// ---------------------------------------------------------------------------

/// What separates pieces of text.
#[derive(Clone, Copy)]
pub enum Separator {
    /// The whitespace of ASCII: space, tab, line feed, form feed, return.
    AsciiSpace,
    /// Any whitespace, and the comma.
    CommaOrSpace,
}

impl Separator {
    pub open spec fn separates(self, c: char) -> bool {
        match self {
            Separator::AsciiSpace => c == ' ' || c == '\t' || c == '\n' || c == '\u{c}' || c
                == '\r',
            Separator::CommaOrSpace => c == ',' || is_white(c),
        }
    }

    pub open spec fn inside(self) -> spec_fn(char) -> bool {
        |c: char| !self.separates(c)
    }

    fn is_separator(self, c: char) -> (r: bool)
        ensures
            r == self.separates(c),
    {
        match self {
            Separator::AsciiSpace => c == ' ' || c == '\t' || c == '\n' || c == '\u{c}' || c
                == '\r',
            Separator::CommaOrSpace => c == ',' || whitespace(c),
        }
    }
}

/// The pieces of `s` between its separators, empty ones included.
pub open spec fn pieces(s: Seq<char>, sep: Separator) -> Seq<Seq<char>>
    decreases s.len(),
{
    let n = span(s, sep.inside());
    proof {
        lemma_span(s, sep.inside());
    }
    if n >= s.len() {
        seq![s]
    } else {
        seq![s.take(n)] + pieces(s.skip(n + 1), sep)
    }
}

pub fn split_pieces(s: &[char], sep: Separator) -> (r: Vec<Vec<char>>)
    ensures
        views(r@) == pieces(s@, sep),
{
    let mut r: Vec<Vec<char>> = Vec::new();
    let mut rest: &[char] = s;
    loop
        invariant
            pieces(s@, sep) == views(r@) + pieces(rest@, sep),
        decreases rest.len(),
    {
        let mut n: usize = 0;
        while n < rest.len() && !sep.is_separator(rest[n])
            invariant
                n <= rest.len(),
                forall|j: int| 0 <= j < n ==> !sep.separates(#[trigger] rest@[j]),
            decreases rest.len() - n,
        {
            n += 1;
        }
        proof {
            lemma_span_is(rest@, sep.inside(), n as int);
        }
        let ghost before = r@;
        let piece = slice(rest, 0, n);
        assert(piece@ == rest@.take(n as int));
        r.push(piece);
        assert(views(r@) == views(before).push(piece@));
        if n == rest.len() {
            assert(rest@.take(n as int) == rest@);
            assert(views(r@) == views(before) + seq![rest@]);
            return r;
        }
        let next = slice_subrange(rest, n + 1, rest.len());
        assert(next@ == rest@.skip(n + 1));
        assert(views(r@) + pieces(next@, sep) == views(before) + (seq![piece@] + pieces(
            next@,
            sep,
        )));
        rest = next;
    }
}

/// Trimming takes whitespace off both ends, all of it, and leaves what lies between as it
/// was.
pub proof fn law_trimming_takes_the_ends_alone(s: Seq<char>) -> (r: (int, int))
    ensures
        0 <= r.0 <= r.1 <= s.len(),
        trimmed(s) == s.subrange(r.0, r.1),
        forall|i: int| 0 <= i < r.0 || r.1 <= i < s.len() ==> is_white(#[trigger] s[i]),
        r.0 < r.1 ==> !is_white(s[r.0]) && !is_white(s[r.1 - 1]),
        trimmed_start(s) == s.skip(r.0) || r.0 == r.1,
{
    lemma_span(s, white());
    let a = span(s, white());
    let t = trimmed_start(s);
    lemma_span_back(t, white());
    let b = a + t.len() - span_back(t, white());
    assert(trimmed(s) =~= s.subrange(a, b));
    assert forall|i: int| 0 <= i < a || b <= i < s.len() implies is_white(#[trigger] s[i]) by {
        if i < a {
            assert(white()(s[i]));
        } else {
            assert(t[i - a] == s[i]);
            assert(white()(t[i - a]));
        }
    }
    if a < b {
        assert(t[0] == s[a]);
        assert(!white()(s[a]));
        assert(t[b - a - 1] == s[b - 1]);
        assert(!white()(t[b - a - 1]));
    }
    (a, b)
}

/// Among the characters of ASCII the space and the five controls from tab to return are
/// whitespace, and nothing else is.
pub proof fn law_ascii_whitespace(c: char)
    requires
        (c as u32) < 128,
    ensures
        is_white(c) <==> c == ' ' || c == '\t' || c == '\n' || c == '\r' || c as u32 == 0x0b || c
            as u32 == 0x0c,
{
}

/// A text without whitespace at its ends is already trimmed.
pub proof fn law_trimming_settles(s: Seq<char>)
    ensures
        trimmed(trimmed(s)) == trimmed(s),
        s.len() > 0 && !is_white(s[0]) && !is_white(s.last()) ==> trimmed(s) == s,
        s.len() == 0 ==> trimmed(s) == s,
{
    let r = law_trimming_takes_the_ends_alone(s);
    let t = trimmed(s);
    lemma_unpadded(s);
    if t.len() > 0 {
        assert(t[0] == s[r.0] && t.last() == s[r.1 - 1]);
    }
    lemma_unpadded(t);
}

proof fn lemma_unpadded(s: Seq<char>)
    ensures
        s.len() > 0 && !is_white(s[0]) && !is_white(s.last()) ==> trimmed(s) == s,
        s.len() == 0 ==> trimmed(s) == s,
{
    if s.len() == 0 {
        assert(trimmed_start(s) =~= s);
        assert(trimmed(s) =~= s);
    } else if !is_white(s[0]) && !is_white(s.last()) {
        assert(span(s, white()) == 0);
        assert(trimmed_start(s) =~= s);
        assert(span_back(s, white()) == 0);
        assert(trimmed(s) =~= s);
    }
}

/// A blank text is one of whitespace alone.
pub proof fn law_blank_is_all_whitespace(s: Seq<char>)
    ensures
        trimmed(s).len() == 0 <==> forall|i: int| 0 <= i < s.len() ==> is_white(#[trigger] s[i]),
{
    let r = law_trimming_takes_the_ends_alone(s);
    if r.0 < r.1 {
        assert(!is_white(s[r.0]));
    }
}

/// A text stands in another where its characters do, one by one.
pub proof fn law_occurrences_match_character_by_character(
    s: Seq<char>,
    needle: Seq<char>,
    i: int,
)
    ensures
        occurs_at(s, needle, i) <==> 0 <= i && i + needle.len() <= s.len() && forall|k: int|
            #![trigger needle[k]]
            0 <= k < needle.len() ==> s[i + k] == needle[k],
{
    if 0 <= i && i + needle.len() <= s.len() {
        let part = s.subrange(i, i + needle.len());
        if forall|k: int| #![trigger needle[k]] 0 <= k < needle.len() ==> s[i + k] == needle[k] {
            assert(part =~= needle);
        }
        if part == needle {
            assert forall|k: int| #![trigger needle[k]] 0 <= k < needle.len() implies s[i + k]
                == needle[k] by {
                assert(part[k] == s[i + k]);
            }
        }
    }
}

/// Lowering touches the letters A to Z alone, each on its own.
pub proof fn law_lowering_touches_capitals_alone(s: Seq<char>, i: int)
    requires
        0 <= i < s.len(),
    ensures
        lower(s).len() == s.len(),
        upper(s).len() == s.len(),
        'A' <= s[i] && s[i] <= 'Z' ==> lower(s)[i] as u32 == s[i] as u32 + 32,
        !('A' <= s[i] && s[i] <= 'Z') ==> lower(s)[i] == s[i],
        'a' <= s[i] && s[i] <= 'z' ==> upper(s)[i] as u32 == s[i] as u32 - 32,
        !('a' <= s[i] && s[i] <= 'z') ==> upper(s)[i] == s[i],
{
}

/// A decimal has one digit more than that of its tenth, and no zero in front.
pub proof fn law_decimal_digits(n: nat)
    ensures
        n < 10 ==> decimal(n).len() == 1 && decimal(n)[0] as u32 == '0' as u32 + n,
        n >= 10 ==> decimal(n).drop_last() == decimal(n / 10) && decimal(n).last() as u32
            == '0' as u32 + n % 10,
        n > 0 ==> decimal(n)[0] != '0',
    decreases n,
{
    if n >= 10 {
        law_decimal_digits(n / 10);
        lemma_decimal(n / 10);
        assert(decimal(n).drop_last() =~= decimal(n / 10));
        assert(decimal(n)[0] == decimal(n / 10)[0]);
    }
}

/// Padding puts zeros in front, and only as many as are missing.
pub proof fn law_padding_fills_with_zeros(s: Seq<char>, width: int)
    ensures
        padded(s, width).len() == if s.len() >= width {
            s.len() as int
        } else {
            width
        },
        padded(s, width).skip(padded(s, width).len() - s.len()) == s,
        forall|i: int|
            0 <= i < padded(s, width).len() - s.len() ==> #[trigger] padded(s, width)[i] == '0',
{
    assert(padded(s, width).skip(padded(s, width).len() - s.len()) =~= s);
}

/// Pieces are told apart as a text grows: a separator opens a new piece, and any other
/// character goes to the last one.
pub proof fn law_splitting_character_by_character(s: Seq<char>, x: char, c: char)
    ensures
        split(seq![], c) == seq![Seq::<char>::empty()],
        split(s, c).len() > 0,
        x == c ==> split(s.push(x), c) == split(s, c).push(seq![]),
        x != c ==> split(s.push(x), c) == split(s, c).drop_last().push(
            split(s, c).last().push(x),
        ),
    decreases s.len(),
{
    let n = span(s, not(c));
    let t = s.push(x);
    lemma_span(s, not(c));
    assert(split(seq![], c) =~= seq![Seq::<char>::empty()]);
    if n >= s.len() {
        assert forall|j: int| 0 <= j < s.len() implies not(c)(#[trigger] t[j]) by {
            assert(not(c)(s[j]));
        }
        if x == c {
            lemma_span_is(t, not(c), s.len() as int);
            assert(t.take(s.len() as int) =~= s);
            assert(t.skip((s.len() + 1) as int) =~= seq![]);
            assert(split(t, c) =~= split(s, c).push(seq![]));
        } else {
            lemma_span_is(t, not(c), t.len() as int);
            assert(split(t, c) =~= split(s, c).drop_last().push(split(s, c).last().push(x)));
        }
    } else {
        let rest = s.skip(n + 1);
        assert forall|j: int| 0 <= j < n implies not(c)(#[trigger] t[j]) by {
            assert(not(c)(s[j]));
        }
        assert(t[n] == s[n]);
        lemma_span_is(t, not(c), n);
        assert(t.take(n) =~= s.take(n));
        assert(t.skip(n + 1) =~= rest.push(x));
        law_splitting_character_by_character(rest, x, c);
        if x == c {
            assert(split(t, c) =~= split(s, c).push(seq![]));
        } else {
            assert(split(s, c).last() == split(rest, c).last());
            assert(split(t, c) =~= split(s, c).drop_last().push(split(s, c).last().push(x)));
        }
    }
}

/// The same of pieces between separators of a kind.
pub proof fn law_pieces_character_by_character(s: Seq<char>, x: char, sep: Separator)
    ensures
        pieces(seq![], sep) == seq![Seq::<char>::empty()],
        pieces(s, sep).len() > 0,
        sep.separates(x) ==> pieces(s.push(x), sep) == pieces(s, sep).push(seq![]),
        !sep.separates(x) ==> pieces(s.push(x), sep) == pieces(s, sep).drop_last().push(
            pieces(s, sep).last().push(x),
        ),
    decreases s.len(),
{
    let n = span(s, sep.inside());
    let t = s.push(x);
    lemma_span(s, sep.inside());
    assert(pieces(seq![], sep) =~= seq![Seq::<char>::empty()]);
    if n >= s.len() {
        assert forall|j: int| 0 <= j < s.len() implies sep.inside()(#[trigger] t[j]) by {
            assert(sep.inside()(s[j]));
        }
        if sep.separates(x) {
            lemma_span_is(t, sep.inside(), s.len() as int);
            assert(t.take(s.len() as int) =~= s);
            assert(t.skip((s.len() + 1) as int) =~= seq![]);
            assert(pieces(t, sep) =~= pieces(s, sep).push(seq![]));
        } else {
            lemma_span_is(t, sep.inside(), t.len() as int);
            assert(pieces(t, sep) =~= pieces(s, sep).drop_last().push(
                pieces(s, sep).last().push(x),
            ));
        }
    } else {
        let rest = s.skip(n + 1);
        assert forall|j: int| 0 <= j < n implies sep.inside()(#[trigger] t[j]) by {
            assert(sep.inside()(s[j]));
        }
        assert(t[n] == s[n]);
        lemma_span_is(t, sep.inside(), n);
        assert(t.take(n) =~= s.take(n));
        assert(t.skip(n + 1) =~= rest.push(x));
        law_pieces_character_by_character(rest, x, sep);
        if sep.separates(x) {
            assert(pieces(t, sep) =~= pieces(s, sep).push(seq![]));
        } else {
            assert(pieces(s, sep).last() == pieces(rest, sep).last());
            assert(pieces(t, sep) =~= pieces(s, sep).drop_last().push(
                pieces(s, sep).last().push(x),
            ));
        }
    }
}

/// The space and the comma separate class selectors; the whitespace of HTML separates class
/// names.
pub proof fn law_separators(c: char)
    ensures
        Separator::AsciiSpace.separates(c) <==> c == ' ' || c == '\t' || c == '\n' || c == '\r'
            || c as u32 == 0x0c,
        Separator::CommaOrSpace.separates(c) <==> c == ',' || is_white(c),
{
}

/// Words are told apart as a text grows: whitespace ends a word, and any other character
/// goes to the word it follows or starts one.
pub proof fn law_words_character_by_character(s: Seq<char>, x: char)
    ensures
        words(seq![]).len() == 0,
        is_white(x) ==> words(s.push(x)) == words(s),
        !is_white(x) && (s.len() == 0 || is_white(s.last())) ==> words(s.push(x)) == words(s).push(
            seq![x],
        ),
        !is_white(x) && s.len() > 0 && !is_white(s.last()) ==> words(s).len() > 0 && words(
            s.push(x),
        ) == words(s).drop_last().push(words(s).last().push(x)),
    decreases s.len(),
{
    let w = white();
    let b = black();
    let t = s.push(x);
    let a = span(s, w);
    lemma_span(s, w);
    let u = trimmed_start(s);
    if a >= s.len() {
        assert(u =~= seq![]);
        assert(words(s) =~= seq![]);
        assert forall|j: int| 0 <= j < s.len() implies w(#[trigger] t[j]) by {
            assert(w(s[j]));
        }
        if s.len() > 0 {
            assert(w(s[s.len() - 1]));
        }
        if is_white(x) {
            lemma_span_is(t, w, t.len() as int);
            assert(trimmed_start(t) =~= seq![]);
            assert(words(t) =~= words(s));
        } else {
            lemma_span_is(t, w, s.len() as int);
            let v = trimmed_start(t);
            assert(v =~= seq![x]);
            lemma_span_is(v, b, 1);
            assert(v.take(1) =~= seq![x]);
            assert(v.skip(1) =~= seq![]);
            assert(trimmed_start(v.skip(1)) =~= seq![]);
            assert(words(v.skip(1)) =~= seq![]);
            assert(words(t) =~= words(s).push(seq![x]));
        }
    } else {
        assert forall|j: int| 0 <= j < a implies w(#[trigger] t[j]) by {
            assert(w(s[j]));
        }
        assert(t[a] == s[a]);
        lemma_span_is(t, w, a);
        let v = trimmed_start(t);
        assert(v =~= u.push(x));
        lemma_first_word(s);
        lemma_span(u, b);
        let n = span(u, b);
        let rest = u.skip(n);
        if n < u.len() {
            assert forall|j: int| 0 <= j < n implies b(#[trigger] v[j]) by {
                assert(b(u[j]));
            }
            assert(v[n] == u[n]);
            lemma_span_is(v, b, n);
            assert(v.take(n) =~= u.take(n));
            assert(v.skip(n) =~= rest.push(x));
            law_words_character_by_character(rest, x);
            assert(rest.last() == s.last());
            if is_white(x) {
                assert(words(t) =~= words(s));
            } else if is_white(s.last()) {
                assert(words(t) =~= words(s).push(seq![x]));
            } else {
                assert(words(s).last() == words(rest).last());
                assert(words(t) =~= words(s).drop_last().push(words(s).last().push(x)));
            }
        } else {
            assert(b(u[u.len() - 1]));
            assert(u[u.len() - 1] == s.last());
            assert(rest =~= seq![]);
            assert(trimmed_start(rest) =~= seq![]);
            assert(words(rest) =~= seq![]);
            assert(u.take(n) =~= u);
            assert(words(s) =~= seq![u]);
            assert forall|j: int| 0 <= j < n implies b(#[trigger] v[j]) by {
                assert(b(u[j]));
            }
            if is_white(x) {
                lemma_span_is(v, b, n);
                assert(v.take(n) =~= u);
                let tail = v.skip(n);
                assert(tail =~= seq![x]);
                lemma_span_is(tail, w, 1);
                assert(trimmed_start(tail) =~= seq![]);
                assert(words(tail) =~= seq![]);
                assert(words(t) =~= words(s));
            } else {
                lemma_span_is(v, b, v.len() as int);
                assert(v.take(v.len() as int) =~= v);
                let tail = v.skip(v.len() as int);
                assert(tail =~= seq![]);
                assert(trimmed_start(tail) =~= seq![]);
                assert(words(tail) =~= seq![]);
                assert(words(t) =~= seq![v]);
                assert(words(t) =~= words(s).drop_last().push(words(s).last().push(x)));
            }
        }
    }
}

/// Joining keeps every text whole and in order, with the separator between neighbours and
/// nowhere else.
pub proof fn law_joining_part_by_part(parts: Seq<Seq<char>>, part: Seq<char>, sep: Seq<char>)
    ensures
        join(seq![], sep).len() == 0,
        join(seq![part], sep) == part,
        parts.len() > 0 ==> join(parts.push(part), sep) == join(parts, sep) + sep + part,
{
    assert(parts.push(part).drop_last() =~= parts);
}

/// A run of `c` is all that leaves the back of a text.
pub proof fn law_only_trailing_characters_go(s: Seq<char>, c: char)
    ensures
        without_trailing(s, c).len() <= s.len(),
        without_trailing(s, c) == s.take(without_trailing(s, c).len() as int),
        forall|i: int| without_trailing(s, c).len() <= i < s.len() ==> #[trigger] s[i] == c,
        without_trailing(s, c).len() > 0 ==> without_trailing(s, c).last() != c,
{
    lemma_span_back(s, only(c));
    assert forall|i: int| without_trailing(s, c).len() <= i < s.len() implies #[trigger] s[i]
        == c by {
        assert(only(c)(s[i]));
    }
}

/// What follows the last `needle` has none of it behind, and all of the text is there if
/// it holds none.
pub proof fn law_after_the_last(s: Seq<char>, needle: Seq<char>)
    ensures
        (forall|j: int| !occurs_at(s, needle, j)) ==> after_last(s, needle) == s,
        forall|i: int|
            #[trigger] occurs_at(s, needle, i) && (forall|j: int| i < j ==> !occurs_at(s, needle, j))
                ==> after_last(s, needle) == s.skip(i + needle.len()),
{
    lemma_find_back(s, needle, s.len() as int);
}

proof fn lemma_find_back(s: Seq<char>, needle: Seq<char>, upto: int)
    ensures
        find_back(s, needle, upto) matches Some(i) ==> i <= upto && occurs_at(s, needle, i) && (
        forall|j: int| i < j <= upto ==> !occurs_at(s, needle, j)),
        find_back(s, needle, upto) is None ==> forall|j: int|
            j <= upto ==> !occurs_at(s, needle, j),
    decreases upto + 1,
{
    if upto >= 0 && !occurs_at(s, needle, upto) {
        lemma_find_back(s, needle, upto - 1);
    }
}

/// Texts are read off their strings one by one.
pub proof fn law_texts_are_the_strings(v: Seq<String>, i: int, s: String)
    requires
        0 <= i < v.len(),
    ensures
        texts(v).len() == v.len(),
        texts(v)[i] == v[i]@,
        opt(Some(s)) == Some(s@),
        opt(None) is None,
{
}

/// Whitespace put around a text is taken off again.
pub proof fn law_trimming_undoes_padding(a: Seq<char>, s: Seq<char>, b: Seq<char>)
    requires
        forall|i: int| 0 <= i < a.len() ==> is_white(#[trigger] a[i]),
        forall|i: int| 0 <= i < b.len() ==> is_white(#[trigger] b[i]),
        s.len() > 0,
        !is_white(s[0]),
        !is_white(s.last()),
    ensures
        trimmed(a + s + b) == s,
{
    let t = a + s + b;
    assert forall|j: int| 0 <= j < a.len() implies white()(#[trigger] t[j]) by {
        assert(t[j] == a[j]);
    }
    assert(t[a.len() as int] == s[0]);
    lemma_span_is(t, white(), a.len() as int);
    let u = trimmed_start(t);
    assert(u =~= s + b);
    assert forall|j: int| u.len() - b.len() <= j < u.len() implies white()(#[trigger] u[j]) by {
        assert(u[j] == b[j - s.len()]);
    }
    assert(u[u.len() - 1 - b.len()] == s.last());
    lemma_span_back_is(u, white(), b.len() as int);
    assert(trimmed(t) =~= s);
}

/// Signed numbers carry a minus in front where they are negative.
pub proof fn law_signed_decimals(n: nat)
    ensures
        decimal_int(n as int) == decimal(n),
        n > 0 ==> decimal_int(-(n as int)) == seq!['-'] + decimal(n),
{
}

} // verus!
