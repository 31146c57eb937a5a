//! JSON values as the rest of the library reads them.
use vstd::prelude::*;

use crate::text::same;

verus! {

/// A JSON value. Each but a string carries its compact text.
#[derive(Debug)]
pub enum Json {
    Text(String),
    /// A number, with its value where it is a 64-bit natural number.
    Number(Option<u64>, String),
    List(Vec<Json>, String),
    Object(Vec<(String, Json)>, String),
    /// `null`, `true` or `false`.
    Plain(String),
}

/// The mathematical content of a [`Json`].
pub enum JsonModel {
    Text(Seq<char>),
    Number(Option<u64>, Seq<char>),
    List(Seq<JsonModel>, Seq<char>),
    Object(Seq<(Seq<char>, JsonModel)>, Seq<char>),
    Plain(Seq<char>),
}

impl Json {
    pub open spec fn model(self) -> JsonModel
        decreases self,
    {
        match self {
            Json::Text(s) => JsonModel::Text(s@),
            Json::Number(n, s) => JsonModel::Number(n, s@),
            Json::List(v, s) => JsonModel::List(
                Seq::new(
                    v.len() as nat,
                    |i: int|
                        if 0 <= i < v.len() {
                            v[i].model()
                        } else {
                            arbitrary()
                        },
                ),
                s@,
            ),
            Json::Object(v, s) => JsonModel::Object(
                Seq::new(
                    v.len() as nat,
                    |i: int|
                        if 0 <= i < v.len() {
                            (v[i].0@, v[i].1.model())
                        } else {
                            arbitrary()
                        },
                ),
                s@,
            ),
            Json::Plain(s) => JsonModel::Plain(s@),
        }
    }
}

/// The value that a JSON document denotes; `None` where it is malformed.
pub uninterp spec fn json_value(document: Seq<u8>) -> Option<JsonModel>;

/// The value that a JSON document denotes, over several lines; `None` where the
/// document is malformed.
pub uninterp spec fn json_lines(document: Seq<char>) -> Option<Seq<char>>;

/// What stands under a key in a JSON document, over several lines; `None` where the
/// document is malformed or has no such member.
pub uninterp spec fn json_member_lines(document: Seq<char>, key: Seq<char>) -> Option<Seq<char>>;

/// A hexadecimal digit, in lower case.
pub open spec fn hex_digit(n: int) -> char {
    "0123456789abcdef"@[n]
}

/// A character as it stands in a JSON string literal.
pub open spec fn json_escaped(c: char) -> Seq<char> {
    if c == '"' || c == '\\' {
        seq!['\\', c]
    } else if c == '\u{8}' {
        "\\b"@
    } else if c == '\t' {
        "\\t"@
    } else if c == '\n' {
        "\\n"@
    } else if c == '\u{c}' {
        "\\f"@
    } else if c == '\r' {
        "\\r"@
    } else if ' ' > c {
        "\\u00"@ + seq![hex_digit(c as int / 16), hex_digit(c as int % 16)]
    } else {
        seq![c]
    }
}

/// A string as a JSON string literal.
pub open spec fn json_literal(text: Seq<char>) -> Seq<char> {
    "\""@ + text.map_values(|c: char| json_escaped(c)).flatten() + "\""@
}

/// A value of serde_json.
#[verifier::external_type_specification]
#[verifier::external_body]
pub struct ExValue(serde_json::Value);

/// Rewrites a `serde_json::Value` as a [`Json`], one for one, with the text that
/// `Value::to_string` gives. Nothing is claimed of the result.
#[verifier::external_body]
fn from_value(v: serde_json::Value) -> (r: Json) {
    let shown = v.to_string();
    match v {
        serde_json::Value::String(s) => Json::Text(s),
        serde_json::Value::Number(n) => Json::Number(n.as_u64(), shown),
        serde_json::Value::Array(a) => Json::List(a.into_iter().map(from_value).collect(), shown),
        serde_json::Value::Object(m) => Json::Object(
            m.into_iter().map(|(k, x)| (k, from_value(x))).collect(),
            shown,
        ),
        serde_json::Value::Null => Json::Plain(shown),
        serde_json::Value::Bool(_) => Json::Plain(shown),
    }
}

/// Calls `serde_json::from_slice`. The result is the value that the document denotes,
/// by the name `json_value`, or `None` where it is malformed.
#[verifier::external_body]
pub(crate) fn parse_json(document: &[u8]) -> (r: Option<Json>)
    ensures
        (match r {
            Some(j) => Some(j.model()),
            None => None,
        }) == json_value(document@),
{
    match serde_json::from_slice::<serde_json::Value>(document) {
        Ok(v) => Some(from_value(v)),
        Err(_) => None,
    }
}

/// Calls `serde_json::to_string_pretty` on what `serde_json::from_str` gives. The
/// result is named `json_lines`.
#[verifier::external_body]
pub(crate) fn pretty(document: &str) -> (r: Option<String>)
    ensures
        (match r {
            Some(s) => Some(s@),
            None => None,
        }) == json_lines(document@),
{
    let v = serde_json::from_str::<serde_json::Value>(document).ok()?;
    serde_json::to_string_pretty(&v).ok()
}

/// Calls `serde_json::to_string_pretty` on what `serde_json::Value::get` finds under a key
/// in what `serde_json::from_str` gives. The result is named `json_member_lines`.
#[verifier::external_body]
pub(crate) fn pretty_member(document: &str, key: &str) -> (r: Option<String>)
    ensures
        (match r {
            Some(s) => Some(s@),
            None => None,
        }) == json_member_lines(document@, key@),
{
    let v = serde_json::from_str::<serde_json::Value>(document).ok()?;
    serde_json::to_string_pretty(v.get(key)?).ok()
}

/// Calls `serde_json::to_string` on a string, whose serialization does not fail. The
/// result is the string between quotes, with quotes, backslashes and control characters
/// escaped.
#[verifier::external_body]
pub(crate) fn string_literal(text: &str) -> (r: String)
    ensures
        r@ == json_literal(text@),
{
    match serde_json::to_string(text) {
        Ok(s) => s,
        Err(_) => String::new(),
    }
}

impl JsonModel {
    /// The member of an object under `key`.
    pub open spec fn get(self, key: Seq<char>) -> Option<JsonModel> {
        match self {
            JsonModel::Object(entries, _) => member(entries, key),
            _ => None,
        }
    }

    pub open spec fn as_str(self) -> Option<Seq<char>> {
        match self {
            JsonModel::Text(s) => Some(s),
            _ => None,
        }
    }

    pub open spec fn as_u64(self) -> Option<u64> {
        match self {
            JsonModel::Number(n, _) => n,
            _ => None,
        }
    }

    pub open spec fn as_array(self) -> Option<Seq<JsonModel>> {
        match self {
            JsonModel::List(items, _) => Some(items),
            _ => None,
        }
    }

    pub open spec fn as_object(self) -> Option<Seq<(Seq<char>, JsonModel)>> {
        match self {
            JsonModel::Object(entries, _) => Some(entries),
            _ => None,
        }
    }

    /// A string as it is, anything else by its compact text.
    pub open spec fn shown(self) -> Seq<char> {
        match self {
            JsonModel::Text(s) => s,
            JsonModel::Number(_, s) => s,
            JsonModel::List(_, s) => s,
            JsonModel::Object(_, s) => s,
            JsonModel::Plain(s) => s,
        }
    }

    /// The string under `key`.
    pub open spec fn text_at(self, key: Seq<char>) -> Option<Seq<char>> {
        match self.get(key) {
            Some(v) => v.as_str(),
            None => None,
        }
    }

    /// The list under `key`.
    pub open spec fn list_at(self, key: Seq<char>) -> Option<Seq<JsonModel>> {
        match self.get(key) {
            Some(v) => v.as_array(),
            None => None,
        }
    }
}

/// The value of the first entry under `key`.
pub open spec fn member(entries: Seq<(Seq<char>, JsonModel)>, key: Seq<char>) -> Option<JsonModel>
    decreases entries.len(),
{
    if entries.len() == 0 {
        None
    } else if entries[0].0 == key {
        Some(entries[0].1)
    } else {
        member(entries.skip(1), key)
    }
}

/// The model of a list of values.
pub open spec fn json_models(v: Seq<Json>) -> Seq<JsonModel> {
    v.map_values(|j: Json| j.model())
}

/// The model of a list of entries.
pub open spec fn json_entries(v: Seq<(String, Json)>) -> Seq<(Seq<char>, JsonModel)> {
    v.map_values(|e: (String, Json)| (e.0@, e.1.model()))
}

impl Json {
    pub fn as_array(&self) -> (r: Option<&Vec<Json>>)
        ensures
            match r {
                Some(v) => self.model().as_array() == Some(json_models(v@)),
                None => self.model().as_array() is None,
            },
    {
        match self {
            Json::List(v, _) => {
                proof {
                    assert(self.model()->List_0 =~= json_models(v@));
                }
                Some(v)
            },
            _ => None,
        }
    }

    pub fn as_object(&self) -> (r: Option<&Vec<(String, Json)>>)
        ensures
            match r {
                Some(v) => self.model().as_object() == Some(json_entries(v@)),
                None => self.model().as_object() is None,
            },
    {
        match self {
            Json::Object(v, _) => {
                proof {
                    assert(self.model()->Object_0 =~= json_entries(v@));
                }
                Some(v)
            },
            _ => None,
        }
    }

    pub fn as_str(&self) -> (r: Option<&str>)
        ensures
            match r {
                Some(s) => self.model().as_str() == Some(s@),
                None => self.model().as_str() is None,
            },
    {
        match self {
            Json::Text(s) => Some(s.as_str()),
            _ => None,
        }
    }

    pub fn as_u64(&self) -> (r: Option<u64>)
        ensures
            r == self.model().as_u64(),
    {
        match self {
            Json::Number(n, _) => *n,
            _ => None,
        }
    }

    /// A string as it is, anything else by its compact text.
    pub fn shown(&self) -> (r: String)
        ensures
            r@ == self.model().shown(),
    {
        match self {
            Json::Text(s) => s.clone(),
            Json::Number(_, s) => s.clone(),
            Json::List(_, s) => s.clone(),
            Json::Object(_, s) => s.clone(),
            Json::Plain(s) => s.clone(),
        }
    }

    /// The member of an object under `key`.
    pub fn get(&self, key: &str) -> (r: Option<&Json>)
        ensures
            match r {
                Some(j) => self.model().get(key@) == Some(j.model()),
                None => self.model().get(key@) is None,
            },
    {
        match self.as_object() {
            Some(v) => {
                let ghost all = json_entries(v@);
                let mut i: usize = 0;
                proof {
                    assert(all.skip(0) =~= all);
                }
                while i < v.len()
                    invariant
                        i <= v.len(),
                        all == json_entries(v@),
                        self.model().get(key@) == member(all.skip(i as int), key@),
                    decreases v.len() - i,
                {
                    proof {
                        assert(all.skip(i as int)[0] == (v@[i as int].0@, v@[i as int].1.model()));
                        assert(all.skip(i as int).skip(1) =~= all.skip(i + 1));
                    }
                    if same(v[i].0.as_str(), key) {
                        return Some(&v[i].1);
                    }
                    i = i + 1;
                }
                None
            },
            None => None,
        }
    }

    /// The string under `key`.
    pub fn text_at(&self, key: &str) -> (r: Option<&str>)
        ensures
            match r {
                Some(s) => self.model().text_at(key@) == Some(s@),
                None => self.model().text_at(key@) is None,
            },
    {
        match self.get(key) {
            Some(v) => v.as_str(),
            None => None,
        }
    }

    /// The list under `key`.
    pub fn list_at(&self, key: &str) -> (r: Option<&Vec<Json>>)
        ensures
            match r {
                Some(v) => self.model().list_at(key@) == Some(json_models(v@)),
                None => self.model().list_at(key@) is None,
            },
    {
        match self.get(key) {
            Some(v) => v.as_array(),
            None => None,
        }
    }
}

/// What an object has under a key is the value of the first entry with that key, and
/// nothing where no entry has it.
pub proof fn law_members_are_found(entries: Seq<(Seq<char>, JsonModel)>, text: Seq<char>, key: Seq<char>)
    ensures
        forall|i: int|
            0 <= i < entries.len() && (#[trigger] entries[i]).0 == key && (forall|j: int|
                0 <= j < i ==> (#[trigger] entries[j]).0 != key) ==> JsonModel::Object(
                entries,
                text,
            ).get(key) == Some(entries[i].1),
        (forall|j: int| 0 <= j < entries.len() ==> (#[trigger] entries[j]).0 != key)
            ==> JsonModel::Object(entries, text).get(key) is None,
    decreases entries.len(),
{
    if entries.len() > 0 {
        let rest = entries.skip(1);
        law_members_are_found(rest, text, key);
        assert forall|i: int|
            0 <= i < entries.len() && (#[trigger] entries[i]).0 == key && (forall|j: int|
                0 <= j < i ==> (#[trigger] entries[j]).0 != key) implies JsonModel::Object(
            entries,
            text,
        ).get(key) == Some(entries[i].1) by {
            if i > 0 {
                assert(entries[0].0 != key);
                assert(rest[i - 1] == entries[i]);
                assert forall|j: int| 0 <= j < i - 1 implies (#[trigger] rest[j]).0 != key by {
                    assert(rest[j] == entries[j + 1]);
                }
                assert(JsonModel::Object(rest, text).get(key) == Some(entries[i].1));
            }
        }
        if forall|j: int| 0 <= j < entries.len() ==> (#[trigger] entries[j]).0 != key {
            assert(entries[0].0 != key);
            assert forall|j: int| 0 <= j < rest.len() implies (#[trigger] rest[j]).0 != key by {
                assert(rest[j] == entries[j + 1]);
            }
            assert(JsonModel::Object(rest, text).get(key) is None);
        }
    }
}

// ---------------------------------------------------------------------------
// String literals

/// The value of a hexadecimal digit.
pub open spec fn hex_value(c: char) -> int {
    if '0' <= c && c <= '9' {
        c as int - '0' as int
    } else {
        c as int - 'a' as int + 10
    }
}

/// The text that the inside of a string literal stands for.
pub open spec fn literal_text(s: Seq<char>) -> Seq<char>
    decreases s.len(),
{
    if s.len() == 0 {
        Seq::empty()
    } else if s[0] != '\\' {
        seq![s[0]] + literal_text(s.skip(1))
    } else if s.len() >= 6 && s[1] == 'u' {
        seq![(hex_value(s[4]) * 16 + hex_value(s[5])) as char] + literal_text(s.skip(6))
    } else if s.len() >= 2 {
        seq![
            if s[1] == 'b' {
                '\u{8}'
            } else if s[1] == 't' {
                '\t'
            } else if s[1] == 'n' {
                '\n'
            } else if s[1] == 'f' {
                '\u{c}'
            } else if s[1] == 'r' {
                '\r'
            } else {
                s[1]
            },
        ] + literal_text(s.skip(2))
    } else {
        s
    }
}

proof fn lemma_hex_digit(n: int)
    requires
        0 <= n < 16,
    ensures
        hex_value(hex_digit(n)) == n,
{
    reveal_strlit("0123456789abcdef");
}

proof fn lemma_escaped_char(c: char, rest: Seq<char>)
    ensures
        literal_text(json_escaped(c) + rest) == seq![c] + literal_text(rest),
{
    reveal_strlit("\\b");
    reveal_strlit("\\t");
    reveal_strlit("\\n");
    reveal_strlit("\\f");
    reveal_strlit("\\r");
    reveal_strlit("\\u00");
    let e = json_escaped(c);
    let s = e + rest;
    assert(s.skip(e.len() as int) =~= rest);
    if c < ' ' && e.len() == 6 {
        lemma_hex_digit(c as int / 16);
        lemma_hex_digit(c as int % 16);
        assert(s[4] == hex_digit(c as int / 16));
        assert(s[5] == hex_digit(c as int % 16));
    }
}

/// A string literal stands for the text that it was made of.
pub proof fn law_literals_stand_for_their_text(text: Seq<char>)
    ensures
        json_literal(text).len() >= 2,
        json_literal(text)[0] == '"',
        json_literal(text).last() == '"',
        literal_text(json_literal(text).subrange(1, json_literal(text).len() - 1)) == text,
{
    reveal_strlit("\"");
    let inside = text.map_values(|c: char| json_escaped(c)).flatten();
    assert(json_literal(text).subrange(1, json_literal(text).len() - 1) =~= inside);
    lemma_inside(text);
}

proof fn lemma_inside(text: Seq<char>)
    ensures
        literal_text(text.map_values(|c: char| json_escaped(c)).flatten()) == text,
    decreases text.len(),
{
    let all = text.map_values(|c: char| json_escaped(c));
    if text.len() == 0 {
        assert(all.flatten() =~= Seq::empty());
        assert(literal_text(all.flatten()) =~= text);
    } else {
        let t = text.skip(1);
        let rest = t.map_values(|c: char| json_escaped(c));
        assert(all.drop_first() =~= rest);
        assert(all.first() == json_escaped(text[0]));
        lemma_inside(t);
        lemma_escaped_char(text[0], rest.flatten());
        assert(seq![text[0]] + t =~= text);
    }
}

} // verus!
