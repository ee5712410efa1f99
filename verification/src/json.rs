//! JSON values as the parsers read them.

use vstd::prelude::*;

use crate::text;

verus! {

/// A JSON value. Numbers keep their text, so that no precision is lost.
#[derive(Debug)]
pub enum Json {
    Null,
    Bool(bool),
    Number(String),
    Text(String),
    Array(Vec<Json>),
    Object(Vec<(String, Json)>),
}

/// A [`Json`] as plain values.
pub enum JsonView {
    Null,
    Bool(bool),
    Number(Seq<char>),
    Text(Seq<char>),
    Array(Seq<JsonView>),
    Object(Seq<(Seq<char>, JsonView)>),
}

impl Json {
    pub open spec fn view(&self) -> JsonView
        decreases self,
    {
        match self {
            Json::Null => JsonView::Null,
            Json::Bool(b) => JsonView::Bool(*b),
            Json::Number(s) => JsonView::Number(s@),
            Json::Text(s) => JsonView::Text(s@),
            Json::Array(v) => JsonView::Array(
                Seq::new(
                    v@.len(),
                    |i: int|
                        if 0 <= i < v@.len() {
                            v@[i].view()
                        } else {
                            JsonView::Null
                        },
                ),
            ),
            Json::Object(v) => JsonView::Object(
                Seq::new(
                    v@.len(),
                    |i: int|
                        if 0 <= i < v@.len() {
                            (v@[i].0@, v@[i].1.view())
                        } else {
                            (seq![], JsonView::Null)
                        },
                ),
            ),
        }
    }
}

// ---------------------------------------------------------------------------
// Reading JSON text
// ---------------------------------------------------------------------------

#[verifier::external_type_specification]
#[verifier::external_body]
pub struct ExValue(serde_json::Value);

/// What a `serde_json::Value` holds: its arrays in order, its objects by key in
/// ascending order, each key once, and its numbers as `Number` displays them.
pub uninterp spec fn contents(v: serde_json::Value) -> JsonView;

/// What `serde_json::from_str` makes of a text: the value, or the error's text.
pub uninterp spec fn parsed_json(s: Seq<char>) -> Result<JsonView, Seq<char>>;

/// What a `serde_json::Deserializer` stream yields first: nothing for a blank
/// text, and otherwise the value at the front, or the error's text. What follows
/// the value is not read.
pub uninterp spec fn leading_json(s: Seq<char>) -> Option<Result<JsonView, Seq<char>>>;

/// `serde_json::from_str`: the result depends on the text alone.
#[verifier::external_body]
fn value_from_str(s: &str) -> (r: Result<serde_json::Value, String>)
    ensures
        (match r {
            Ok(v) => Ok(contents(v)),
            Err(e) => Err(e@),
        }) == parsed_json(s@),
{
    serde_json::from_str(s).map_err(|e| e.to_string())
}

/// The first item of `Deserializer::from_str(..).into_iter()`: the result depends
/// on the text alone.
#[verifier::external_body]
fn leading_value(s: &str) -> (r: Option<Result<serde_json::Value, String>>)
    ensures
        (match r {
            None => None,
            Some(Ok(v)) => Some(Ok(contents(v))),
            Some(Err(e)) => Some(Err(e@)),
        }) == leading_json(s@),
{
    let mut stream = serde_json::Deserializer::from_str(s).into_iter::<serde_json::Value>();
    stream.next().map(|v| v.map_err(|e| e.to_string()))
}

/// A `serde_json::Value`, variant by variant: the contents are the same.
#[verifier::external_body]
fn from_value(v: serde_json::Value) -> (r: Json)
    ensures
        r@ == contents(v),
{
    match v {
        serde_json::Value::Null => Json::Null,
        serde_json::Value::Bool(b) => Json::Bool(b),
        serde_json::Value::Number(n) => Json::Number(n.to_string()),
        serde_json::Value::String(s) => Json::Text(s),
        serde_json::Value::Array(a) => Json::Array(a.into_iter().map(from_value).collect()),
        serde_json::Value::Object(o) => Json::Object(
            o.into_iter().map(|(k, v)| (k, from_value(v))).collect(),
        ),
    }
}

/// Read a JSON text.
pub fn parse_json(s: &str) -> (r: Result<Json, String>)
    ensures
        (match r {
            Ok(j) => Ok(j@),
            Err(e) => Err(e@),
        }) == parsed_json(s@),
{
    match value_from_str(s) {
        Ok(v) => Ok(from_value(v)),
        Err(e) => Err(e),
    }
}

/// Read the JSON value a text starts with.
pub fn parse_leading_json(s: &str) -> (r: Option<Result<Json, String>>)
    ensures
        (match r {
            None => None,
            Some(Ok(j)) => Some(Ok(j@)),
            Some(Err(e)) => Some(Err(e@)),
        }) == leading_json(s@),
{
    match leading_value(s) {
        None => None,
        Some(Ok(v)) => Some(Ok(from_value(v))),
        Some(Err(e)) => Some(Err(e)),
    }
}

// ---------------------------------------------------------------------------
// Looking inside
// ---------------------------------------------------------------------------

impl JsonView {
    /// The member of an object with this name.
    pub open spec fn member(self, key: Seq<char>) -> Option<JsonView> {
        match self {
            JsonView::Object(m) => first_member(m, key),
            _ => None,
        }
    }

    pub open spec fn as_text(self) -> Option<Seq<char>> {
        match self {
            JsonView::Text(s) => Some(s),
            _ => None,
        }
    }

    pub open spec fn as_bool(self) -> Option<bool> {
        match self {
            JsonView::Bool(b) => Some(b),
            _ => None,
        }
    }

    pub open spec fn as_array(self) -> Option<Seq<JsonView>> {
        match self {
            JsonView::Array(v) => Some(v),
            _ => None,
        }
    }

    /// The value of a number that is written as a non-negative integer of 64
    /// bits.
    pub open spec fn as_u64(self) -> Option<nat> {
        match self {
            JsonView::Number(s) => if s.len() > 0 && text::all_digits(s) && text::digits_value(s)
                <= u64::MAX {
                Some(text::digits_value(s))
            } else {
                None
            },
            _ => None,
        }
    }

    /// The value of a number that is whole and at least 1 and fits 32 bits,
    /// whether it is written as an integer or with a fraction of zero.
    pub open spec fn as_ordinal(self) -> Option<nat> {
        match self {
            JsonView::Number(s) => {
                let d = if s.len() > 2 && s.skip(s.len() - 2) == ".0"@ {
                    s.take(s.len() - 2)
                } else {
                    s
                };
                if d.len() > 0 && text::all_digits(d) && 1 <= text::digits_value(d) <= u32::MAX {
                    Some(text::digits_value(d))
                } else {
                    None
                }
            },
            _ => None,
        }
    }

    /// The text of a member, trimmed, unless it is blank.
    pub open spec fn text_field(self, key: Seq<char>) -> Option<Seq<char>> {
        match self.member(key) {
            None => None,
            Some(v) => match v.as_text() {
                None => None,
                Some(s) => if text::trimmed(s).len() > 0 {
                    Some(text::trimmed(s))
                } else {
                    None
                },
            },
        }
    }
}

pub open spec fn first_member(m: Seq<(Seq<char>, JsonView)>, key: Seq<char>) -> Option<JsonView>
    decreases m.len(),
{
    if m.len() == 0 {
        None
    } else if m[0].0 == key {
        Some(m[0].1)
    } else {
        first_member(m.drop_first(), key)
    }
}

pub open spec fn json_views(v: Seq<Json>) -> Seq<JsonView> {
    v.map_values(|j: Json| j@)
}

impl Json {
    pub fn get(&self, key: &str) -> (r: Option<&Json>)
        ensures
            (match r {
                Some(j) => Some(j@),
                None => None,
            }) == self@.member(key@),
    {
        match self {
            Json::Object(v) => {
                let ghost m = self@->Object_0;
                let mut i: usize = 0;
                assert(m.skip(0) =~= m);
                while i < v.len()
                    invariant
                        i <= v@.len(),
                        m.len() == v@.len(),
                        forall|j: int|
                            0 <= j < v@.len() ==> #[trigger] m[j] == (v@[j].0@, v@[j].1@),
                        first_member(m, key@) == first_member(m.skip(i as int), key@),
                        self@.member(key@) == first_member(m, key@),
                    decreases v@.len() - i,
                {
                    let ghost rest = m.skip(i as int);
                    assert(rest[0] == m[i as int]);
                    assert(rest.drop_first() =~= m.skip(i + 1));
                    if text::same(v[i].0.as_str(), key) {
                        return Some(&v[i].1);
                    }
                    i += 1;
                }
                None
            },
            _ => None,
        }
    }

    pub fn as_str(&self) -> (r: Option<&str>)
        ensures
            (match r {
                Some(s) => Some(s@),
                None => None,
            }) == self@.as_text(),
    {
        match self {
            Json::Text(s) => Some(s.as_str()),
            _ => None,
        }
    }

    pub fn as_bool(&self) -> (r: Option<bool>)
        ensures
            r == self@.as_bool(),
    {
        match self {
            Json::Bool(b) => Some(*b),
            _ => None,
        }
    }

    pub fn as_array(&self) -> (r: Option<&Vec<Json>>)
        ensures
            (match r {
                Some(v) => Some(json_views(v@)),
                None => None,
            }) == self@.as_array(),
    {
        match self {
            Json::Array(v) => {
                assert(json_views(v@) =~= self@->Array_0);
                Some(v)
            },
            _ => None,
        }
    }

    pub fn as_u64(&self) -> (r: Option<u64>)
        ensures
            r is Some == self@.as_u64() is Some,
            r matches Some(n) ==> n == self@.as_u64()->0,
    {
        match self {
            Json::Number(s) => {
                let v = text::to_chars(s.as_str());
                if v.len() > 0 && v[0] == '+' {
                    assert(!text::is_digit(v@[0]));
                    return None;
                }
                text::parse_u64(&v, u64::MAX)
            },
            _ => None,
        }
    }

    pub fn as_ordinal(&self) -> (r: Option<u32>)
        ensures
            r is Some == self@.as_ordinal() is Some,
            r matches Some(n) ==> n == self@.as_ordinal()->0,
    {
        match self {
            Json::Number(s) => {
                let v = text::to_chars(s.as_str());
                let zero = text::to_chars(".0");
                proof {
                    reveal_strlit(".0");
                }
                let n: usize = v.len();
                let d: Vec<char> = if n > 2 && text::occurs(&v, &zero, n - 2) {
                    text::slice(&v, 0, n - 2)
                } else {
                    text::slice(&v, 0, n)
                };
                proof {
                    if n > 2 {
                        assert(v@.subrange(n - 2, n as int) =~= v@.skip(n - 2));
                        assert(v@.subrange(0, n - 2) =~= v@.take(n - 2));
                    }
                    assert(v@.subrange(0, n as int) =~= v@);
                }
                if d.len() > 0 && d[0] == '+' {
                    assert(!text::is_digit(d@[0]));
                    return None;
                }
                match text::parse_u32(&d) {
                    Some(0) => None,
                    Some(k) => Some(k),
                    None => None,
                }
            },
            _ => None,
        }
    }

    /// The text of a member, trimmed, unless it is blank.
    pub fn str_field(&self, key: &str) -> (r: Option<String>)
        ensures
            text::opt(r) == self@.text_field(key@),
    {
        match self.get(key) {
            None => None,
            Some(j) => match j.as_str() {
                None => None,
                Some(s) => {
                    let v = text::to_chars(s);
                    let t = text::trim(&v);
                    if t.len() > 0 {
                        Some(text::to_text(t))
                    } else {
                        None
                    }
                },
            },
        }
    }
}

/// A member is the first one under its name, and there is none where no name is the one asked
/// for.
pub proof fn law_a_member_is_found_by_its_name(
    m: Seq<(Seq<char>, JsonView)>,
    key: Seq<char>,
    i: int,
)
    ensures
        0 <= i < m.len() && m[i].0 == key && (forall|j: int|
            0 <= j < i ==> (#[trigger] m[j]).0 != key) ==> JsonView::Object(m).member(key) == Some(
            m[i].1,
        ),
        (forall|j: int| 0 <= j < m.len() ==> (#[trigger] m[j]).0 != key) ==> JsonView::Object(
            m,
        ).member(key) is None,
        JsonView::Null.member(key) is None,
    decreases m.len(),
{
    if m.len() > 0 && m[0].0 != key {
        let t = m.drop_first();
        law_a_member_is_found_by_its_name(t, key, i - 1);
        if 0 <= i < m.len() && m[i].0 == key && (forall|j: int|
            0 <= j < i ==> (#[trigger] m[j]).0 != key) {
            assert(t[i - 1] == m[i]);
            assert forall|j: int| 0 <= j < i - 1 implies (#[trigger] t[j]).0 != key by {
                assert(t[j] == m[j + 1]);
            }
        }
        if forall|j: int| 0 <= j < m.len() ==> (#[trigger] m[j]).0 != key {
            assert forall|j: int| 0 <= j < t.len() implies (#[trigger] t[j]).0 != key by {
                assert(t[j] == m[j + 1]);
            }
        }
    }
}

/// A text field is the member's text, trimmed; one that is blank, or no text, is not there.
pub proof fn law_text_fields_are_trimmed_texts(v: JsonView, key: Seq<char>, s: Seq<char>)
    ensures
        v.member(key) == Some(JsonView::Text(s)) && text::trimmed(s).len() > 0 ==> v.text_field(key)
            == Some(text::trimmed(s)),
        v.member(key) == Some(JsonView::Text(s)) && text::trimmed(s).len() == 0 ==> v.text_field(
            key,
        ) is None,
        v.member(key) is None ==> v.text_field(key) is None,
        v.member(key) matches Some(j) ==> (!(j is Text) ==> v.text_field(key) is None),
{
}

/// Whole numbers are read for what they say, with or without a fraction of zero.
pub proof fn law_whole_numbers_are_read(n: u32)
    ensures
        JsonView::Number(text::decimal(n as nat)).as_u64() == Some(n as nat),
        n > 0 ==> JsonView::Number(text::decimal(n as nat)).as_ordinal() == Some(n as nat),
        n > 0 ==> JsonView::Number(text::decimal(n as nat) + ".0"@).as_ordinal() == Some(n as nat),
        n == 0 ==> JsonView::Number(text::decimal(n as nat)).as_ordinal() is None,
        JsonView::Null.as_ordinal() is None,
        JsonView::Null.as_u64() is None,
{
    reveal_strlit(".0");
    let d = text::decimal(n as nat);
    text::lemma_decimal(n as nat);
    if d.len() > 2 {
        let tail = d.skip(d.len() - 2);
        assert(text::is_digit(d[d.len() - 2]));
        assert(tail[0] == d[d.len() - 2]);
        assert(tail != ".0"@);
    }
    let e = d + ".0"@;
    assert(e.skip(e.len() - 2) =~= ".0"@);
    assert(e.take(e.len() - 2) =~= d);
}

/// A number with a fraction, a sign or an exponent is no ordinal.
pub proof fn law_fractions_are_no_ordinals(s: Seq<char>, i: int)
    requires
        0 <= i < s.len(),
        !text::is_digit(s[i]),
        s.len() <= 2 || s.skip(s.len() - 2) != ".0"@ || i < s.len() - 2,
    ensures
        JsonView::Number(s).as_ordinal() is None,
        JsonView::Number(s).as_u64() is None,
{
    reveal_strlit(".0");
    if s.len() > 2 && s.skip(s.len() - 2) == ".0"@ {
        let d = s.take(s.len() - 2);
        assert(d[i] == s[i]);
    }
}

} // verus!
