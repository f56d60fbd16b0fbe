//! JSON values as the library reads and writes them. Parsing and writing are
//! serde_json's; reading fields, comparing and building values are ours.
use crate::text::{owned, str_eq};
use vstd::prelude::*;

verus! {

#[verifier::external_type_specification]
#[verifier::external_body]
pub struct ExJsonValue(serde_json::Value);

/// A JSON number: its value as an `i64` when it is an integer in range, and
/// its text as serde_json writes it.
pub struct JsonNumber {
    pub int: Option<i64>,
    pub text: String,
}

pub enum Json {
    Null,
    Bool(bool),
    Number(JsonNumber),
    Str(String),
    Array(Vec<Json>),
    /// Members in the order serde_json keeps them; a key occurs once.
    Object(Vec<(String, Json)>),
}

pub enum JsonView {
    Null,
    Bool(bool),
    Number(Option<i64>, Seq<char>),
    Str(Seq<char>),
    Array(Seq<JsonView>),
    Object(Seq<(Seq<char>, JsonView)>),
}

pub open spec fn json_view(j: Json) -> JsonView
    decreases j,
{
    match j {
        Json::Null => JsonView::Null,
        Json::Bool(b) => JsonView::Bool(b),
        Json::Number(n) => JsonView::Number(n.int, n.text@),
        Json::Str(s) => JsonView::Str(s@),
        Json::Array(v) => JsonView::Array(
            Seq::new(
                v@.len(),
                |i: int|
                    if 0 <= i < v@.len() {
                        proof {
                            assert(decreases_to!(v@ => v@[i]));
                        }
                        json_view(v@[i])
                    } else {
                        JsonView::Null
                    },
            ),
        ),
        Json::Object(m) => JsonView::Object(
            Seq::new(
                m@.len(),
                |i: int|
                    if 0 <= i < m@.len() {
                        proof {
                            assert(decreases_to!(m@ => m@[i]));
                            assert(decreases_to!(m@[i] => m@[i].1));
                        }
                        (m@[i].0@, json_view(m@[i].1))
                    } else {
                        (Seq::empty(), JsonView::Null)
                    },
            ),
        ),
    }
}

impl View for Json {
    type V = JsonView;

    open spec fn view(&self) -> JsonView {
        json_view(*self)
    }
}

/// What `serde_json::from_str::<Value>` makes of a text: the value, or the
/// text of its error.
pub uninterp spec fn json_parse(text: Seq<char>) -> Result<JsonView, Seq<char>>;

/// The bytes `serde_json::to_vec` writes for a value.
pub uninterp spec fn json_bytes(v: JsonView) -> Seq<u8>;

/// Takes a serde_json value apart, variant by variant.
#[verifier::external_body]
fn from_value(v: serde_json::Value) -> Json {
    match v {
        serde_json::Value::Null => Json::Null,
        serde_json::Value::Bool(b) => Json::Bool(b),
        serde_json::Value::Number(n) => Json::Number(JsonNumber { int: n.as_i64(), text: n.to_string() }),
        serde_json::Value::String(s) => Json::Str(s),
        serde_json::Value::Array(a) => Json::Array(a.into_iter().map(from_value).collect()),
        serde_json::Value::Object(m) => Json::Object(m.into_iter().map(|(k, x)| (k, from_value(x))).collect()),
    }
}

/// Builds the serde_json value, variant by variant.
#[verifier::external_body]
fn to_value(v: &Json) -> serde_json::Value {
    match v {
        Json::Null => serde_json::Value::Null,
        Json::Bool(b) => serde_json::Value::Bool(*b),
        Json::Number(n) => match n.text.parse::<serde_json::Number>() {
            Ok(x) => serde_json::Value::Number(x),
            Err(_) => serde_json::Value::Null,
        },
        Json::Str(s) => serde_json::Value::String(s.clone()),
        Json::Array(a) => serde_json::Value::Array(a.iter().map(to_value).collect()),
        Json::Object(m) => serde_json::Value::Object(m.iter().map(|(k, x)| (k.clone(), to_value(x))).collect()),
    }
}

/// `serde_json::from_str::<Value>`: the parsed value, or the error's text.
#[verifier::external_body]
pub fn parse_json(text: &str) -> (r: Result<Json, String>)
    ensures
        match (r, json_parse(text@)) {
            (Ok(v), Ok(w)) => v@ == w,
            (Err(e), Err(f)) => e@ == f,
            _ => false,
        },
{
    match serde_json::from_str::<serde_json::Value>(text) {
        Ok(v) => Ok(from_value(v)),
        Err(e) => Err(e.to_string()),
    }
}

/// `serde_json::to_vec` of a value. Writing a JSON value cannot fail: all
/// its map keys are strings.
#[verifier::external_body]
pub fn write_json(v: &Json) -> (r: Vec<u8>)
    ensures
        r@ == json_bytes(v@),
{
    serde_json::to_vec(&to_value(v)).unwrap_or_default()
}

// ---------------------------------------------------------------------------
// Reading values
// ---------------------------------------------------------------------------

/// The member `key` of an object, from position `i` on.
pub open spec fn member_from(m: Seq<(Seq<char>, JsonView)>, key: Seq<char>, i: int) -> Option<JsonView>
    decreases m.len() - i,
{
    if i < 0 || i >= m.len() {
        None
    } else if m[i].0 == key {
        Some(m[i].1)
    } else {
        member_from(m, key, i + 1)
    }
}

/// `value.get(key)`: the member of an object, nothing for anything else.
pub open spec fn get(v: JsonView, key: Seq<char>) -> Option<JsonView> {
    match v {
        JsonView::Object(m) => member_from(m, key, 0),
        _ => None,
    }
}

/// `value[key]`: the member, or null.
pub open spec fn at(v: JsonView, key: Seq<char>) -> JsonView {
    match get(v, key) {
        Some(x) => x,
        None => JsonView::Null,
    }
}

pub open spec fn as_str(v: JsonView) -> Option<Seq<char>> {
    match v {
        JsonView::Str(s) => Some(s),
        _ => None,
    }
}

/// `value == text`: a string with that text.
pub open spec fn is_text(v: JsonView, s: Seq<char>) -> bool {
    as_str(v) == Some(s)
}

/// `value[key].as_str()`.
pub open spec fn str_at(v: JsonView, key: Seq<char>) -> Option<Seq<char>> {
    as_str(at(v, key))
}

/// The views of a sequence of values.
pub open spec fn values_of(v: Seq<Json>) -> Seq<JsonView> {
    Seq::new(v.len(), |i: int| v[i]@)
}

/// An array's view holds the views of its items.
pub proof fn lemma_array_items(v: Vec<Json>)
    ensures
        (Json::Array(v))@ == JsonView::Array(values_of(v@)),
{
    if let JsonView::Array(a) = (Json::Array(v))@ {
        assert(a =~= values_of(v@));
    }
}

pub proof fn lemma_object_view(m: Vec<(String, Json)>, i: int)
    requires
        0 <= i < m@.len(),
    ensures
        (Json::Object(m))@ matches JsonView::Object(o) && o.len() == m@.len() && o[i] == (
            m@[i].0@,
            m@[i].1@,
        ),
{
}

impl Json {
    /// `value.get(key)`.
    pub fn get(&self, key: &str) -> (r: Option<&Json>)
        ensures
            match get(self@, key@) {
                Some(x) => r is Some && r.unwrap()@ == x,
                None => r is None,
            },
    {
        match self {
            Json::Object(m) => {
                let mut i: usize = 0;
                while i < m.len()
                    invariant
                        *self == Json::Object(*m),
                        i <= m@.len(),
                        get(self@, key@) == member_from(
                            match self@ {
                                JsonView::Object(o) => o,
                                _ => Seq::empty(),
                            },
                            key@,
                            i as int,
                        ),
                    decreases m@.len() - i,
                {
                    proof {
                        lemma_object_view(*m, i as int);
                    }
                    if str_eq(m[i].0.as_str(), key) {
                        return Some(&m[i].1);
                    }
                    i += 1;
                }
                proof {
                    if let JsonView::Object(o) = self@ {
                        assert(o.len() == m@.len());
                    }
                }
                None
            },
            _ => None,
        }
    }

    /// `value.as_str()`.
    pub fn as_str(&self) -> (r: Option<&str>)
        ensures
            match as_str(self@) {
                Some(s) => r is Some && r.unwrap()@ == s,
                None => r is None,
            },
    {
        match self {
            Json::Str(s) => Some(s.as_str()),
            _ => None,
        }
    }

    /// `value[key].as_str()`.
    pub fn str_at(&self, key: &str) -> (r: Option<&str>)
        ensures
            match str_at(self@, key@) {
                Some(s) => r is Some && r.unwrap()@ == s,
                None => r is None,
            },
    {
        match self.get(key) {
            Some(v) => v.as_str(),
            None => None,
        }
    }

    /// `value[key] == text`.
    pub fn text_at(&self, key: &str, text: &str) -> (r: bool)
        ensures
            r == is_text(at(self@, key@), text@),
    {
        match self.str_at(key) {
            Some(s) => str_eq(s, text),
            None => false,
        }
    }

    /// A string value.
    pub fn text(s: &str) -> (r: Json)
        ensures
            r@ == JsonView::Str(s@),
    {
        Json::Str(owned(s))
    }
}

/// A copy of a value.
pub fn clone_json(j: &Json) -> (r: Json)
    ensures
        r@ == j@,
    decreases j,
{
    match j {
        Json::Null => Json::Null,
        Json::Bool(b) => Json::Bool(*b),
        Json::Number(n) => Json::Number(JsonNumber { int: n.int, text: owned(n.text.as_str()) }),
        Json::Str(s) => Json::Str(owned(s.as_str())),
        Json::Array(items) => {
            let mut out: Vec<Json> = Vec::new();
            let mut i: usize = 0;
            while i < items.len()
                invariant
                    *j == Json::Array(*items),
                    i <= items@.len(),
                    out@.len() == i,
                    forall|k: int| 0 <= k < i ==> (#[trigger] out@[k])@ == items@[k]@,
                decreases items@.len() - i,
            {
                proof {
                    assert(decreases_to!(*j => (*j)->Array_0));
                    assert(decreases_to!(*items => items@));
                    assert(decreases_to!(items@ => items@[i as int]));
                    assert(decreases_to!(*j => items@[i as int]));
                }
                out.push(clone_json(&items[i]));
                i += 1;
            }
            proof {
                lemma_array_items(*items);
                lemma_array_items(out);
                assert(values_of(out@) =~= values_of(items@));
            }
            Json::Array(out)
        },
        Json::Object(members) => {
            let mut out: Vec<(String, Json)> = Vec::new();
            let mut i: usize = 0;
            while i < members.len()
                invariant
                    *j == Json::Object(*members),
                    i <= members@.len(),
                    out@.len() == i,
                    forall|k: int|
                        0 <= k < i ==> (#[trigger] out@[k]).0@ == members@[k].0@ && out@[k].1@ == members@[k].1@,
                decreases members@.len() - i,
            {
                proof {
                    assert(decreases_to!(*j => (*j)->Object_0));
                    assert(decreases_to!(*members => members@));
                    assert(decreases_to!(members@ => members@[i as int]));
                    assert(decreases_to!(members@[i as int] => members@[i as int].1));
                    assert(decreases_to!(*j => members@[i as int].1));
                }
                let v = clone_json(&members[i].1);
                out.push((owned(members[i].0.as_str()), v));
                i += 1;
            }
            proof {
                if let JsonView::Object(a) = (Json::Object(out))@ {
                    if let JsonView::Object(b) = j@ {
                        assert forall|k: int| 0 <= k < a.len() implies a[k] == b[k] by {
                            lemma_object_view(out, k);
                            lemma_object_view(*members, k);
                        }
                        assert(a =~= b);
                    }
                }
            }
            Json::Object(out)
        },
    }
}

/// An integer number.
pub fn number(n: u8) -> (r: Json)
    ensures
        r@ == JsonView::Number(Some(n as i64), crate::presentation::decimal(n as nat)),
{
    Json::Number(JsonNumber { int: Some(n as i64), text: crate::presentation::decimal_text(n as u64) })
}

/// An object from its members.
pub open spec fn members_view(m: Seq<(String, Json)>) -> Seq<(Seq<char>, JsonView)> {
    Seq::new(m.len(), |i: int| (m[i].0@, m[i].1@))
}

pub proof fn lemma_object_members(m: Vec<(String, Json)>)
    ensures
        (Json::Object(m))@ == JsonView::Object(members_view(m@)),
{
    if let JsonView::Object(o) = (Json::Object(m))@ {
        assert forall|i: int| 0 <= i < o.len() implies o[i] == members_view(m@)[i] by {
            lemma_object_view(m, i);
        }
        assert(o =~= members_view(m@));
    }
}

} // verus!
