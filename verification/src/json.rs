//! Reading fields out of JSON text, through `serde_json`.
//!
//! The JSON grammar itself is left to `serde_json`; the library only needs to
//! know which string or integer a field holds, so the trusted items below hand
//! back plain values and give names to what `serde_json` computes.

use serde_json::Value;
use vstd::prelude::*;

verus! {

/// What a top-level field of a JSON document holds, as seen by the logic of
/// this crate.
pub enum JsonField {
    /// The text is not JSON.
    Invalid,
    /// The text is JSON, but not an object holding the key.
    Absent,
    /// The field holds a string.
    Str(String),
    /// The field holds an integer that fits in `i64`.
    Int(i64),
    /// The field holds any other value.
    Other,
}

/// The view of a [`JsonField`].
pub enum JsonFieldView {
    Invalid,
    Absent,
    Str(Seq<char>),
    Int(i64),
    Other,
}

impl View for JsonField {
    type V = JsonFieldView;

    open spec fn view(&self) -> JsonFieldView {
        match self {
            JsonField::Invalid => JsonFieldView::Invalid,
            JsonField::Absent => JsonFieldView::Absent,
            JsonField::Str(s) => JsonFieldView::Str(s@),
            JsonField::Int(i) => JsonFieldView::Int(*i),
            JsonField::Other => JsonFieldView::Other,
        }
    }
}

/// What `serde_json::from_str::<Value>(text)` followed by `.get(key)` yields.
pub uninterp spec fn json_field_of(text: Seq<char>, key: Seq<char>) -> JsonFieldView;

/// What `serde_json::from_str::<Value>(text)` yields when it is an object: the
/// values in the map's order (sorted by key), each a string or not.
pub uninterp spec fn json_object_strings_of(text: Seq<char>) -> Option<Seq<Option<Seq<char>>>>;

/// Calls `serde_json::from_str::<serde_json::Value>` on `text`, then
/// `Value::get(key)`, and tells the variants of the field apart
/// (`Number::as_i64` for numbers). The contract only names the result: the
/// JSON grammar is `serde_json`'s.
#[verifier::external_body]
pub(crate) fn json_field(text: &str, key: &str) -> (r: JsonField)
    ensures
        r@ == json_field_of(text@, key@),
{
    match serde_json::from_str::<serde_json::Value>(text) {
        Err(_) => JsonField::Invalid,
        Ok(v) => match v.get(key) {
            None => JsonField::Absent,
            Some(serde_json::Value::String(s)) => JsonField::Str(s.clone()),
            Some(serde_json::Value::Number(n)) => match n.as_i64() {
                Some(i) => JsonField::Int(i),
                None => JsonField::Other,
            },
            Some(_) => JsonField::Other,
        },
    }
}

/// The views of a list of optional strings.
pub open spec fn opt_strings_view(v: Seq<Option<String>>) -> Seq<Option<Seq<char>>> {
    v.map_values(
        |o: Option<String>|
            match o {
                Some(s) => Some(s@),
                None => None,
            },
    )
}

/// Calls `serde_json::from_str::<serde_json::Value>` on `text`; when the
/// result is an object, lists its values in the map's iteration order, each
/// as `Some` of its string (`Value::as_str`) or `None`. The contract only
/// names the result.
#[verifier::external_body]
pub(crate) fn json_object_strings(text: &str) -> (r: Option<Vec<Option<String>>>)
    ensures
        match r {
            Some(v) => json_object_strings_of(text@) == Some(opt_strings_view(v@)),
            None => json_object_strings_of(text@) is None,
        },
{
    match serde_json::from_str::<serde_json::Value>(text) {
        Ok(serde_json::Value::Object(m)) => Some(
            m.values().map(|v| v.as_str().map(|s| s.to_string())).collect(),
        ),
        _ => None,
    }
}

/// One level of a JSON value: scalars as plain values, and the members of
/// arrays and objects as their own JSON texts, to be read in turn.
pub enum JsonValue {
    Null,
    Bool(bool),
    /// A number that is an integer fitting in `u64`.
    U64(u64),
    /// Any other number.
    OtherNumber,
    Str(String),
    /// The texts of the elements, in order.
    Array(Vec<String>),
    /// The keys and the texts of the values, in the map's order (sorted by key).
    Object(Vec<(String, String)>),
}

/// The keys and member texts of an object's entries.
pub open spec fn entries_view(o: Seq<(String, String)>) -> Seq<(Seq<char>, Seq<char>)> {
    o.map_values(|e: (String, String)| (e.0@, e.1@))
}

/// The view of a [`JsonValue`].
pub enum JsonValueView {
    Null,
    Bool(bool),
    U64(u64),
    OtherNumber,
    Str(Seq<char>),
    Array(Seq<Seq<char>>),
    Object(Seq<(Seq<char>, Seq<char>)>),
}

impl View for JsonValue {
    type V = JsonValueView;

    open spec fn view(&self) -> JsonValueView {
        match self {
            JsonValue::Null => JsonValueView::Null,
            JsonValue::Bool(b) => JsonValueView::Bool(*b),
            JsonValue::U64(n) => JsonValueView::U64(*n),
            JsonValue::OtherNumber => JsonValueView::OtherNumber,
            JsonValue::Str(s) => JsonValueView::Str(s@),
            JsonValue::Array(a) => JsonValueView::Array(a@.map_values(|t: String| t@)),
            JsonValue::Object(o) => JsonValueView::Object(entries_view(o@)),
        }
    }
}

/// What `serde_json::from_str::<serde_json::Value>(text)` yields, seen one
/// level deep (members as the texts that `Value`'s `Display` writes); `None`
/// when the text is not JSON.
pub uninterp spec fn json_value_of(text: Seq<char>) -> Option<JsonValueView>;

/// Calls `serde_json::from_str::<serde_json::Value>` on `text` and tells the
/// variants of the result apart: numbers by `Number::as_u64`, and the members
/// of arrays and objects written back as text by `Value`'s `Display`
/// (`to_string`). The contract only names the result: the JSON grammar is
/// `serde_json`'s.
#[verifier::external_body]
pub(crate) fn parse_json_value(text: &str) -> (r: Option<JsonValue>)
    ensures
        match r {
            Some(v) => json_value_of(text@) == Some(v@),
            None => json_value_of(text@) is None,
        },
{
    match serde_json::from_str::<Value>(text) {
        Err(_) => None,
        Ok(Value::Null) => Some(JsonValue::Null),
        Ok(Value::Bool(b)) => Some(JsonValue::Bool(b)),
        Ok(Value::Number(n)) => Some(n.as_u64().map_or(JsonValue::OtherNumber, JsonValue::U64)),
        Ok(Value::String(s)) => Some(JsonValue::Str(s)),
        Ok(Value::Array(a)) => Some(JsonValue::Array(a.iter().map(|x| x.to_string()).collect())),
        Ok(Value::Object(m)) => Some(
            JsonValue::Object(m.iter().map(|(k, x)| (k.clone(), x.to_string())).collect()),
        ),
    }
}

/// The text of the member `key` of an object (the first entry with that key);
/// none for another value or a missing key.
pub open spec fn member_text(v: JsonValueView, key: Seq<char>) -> Option<Seq<char>> {
    match v {
        JsonValueView::Object(es) => match first_key_index(es, key, es.len() as int) {
            Some(i) => Some(es[i].1),
            None => None,
        },
        _ => None,
    }
}

/// The first index below `n` whose key is `key`.
pub open spec fn first_key_index(es: Seq<(Seq<char>, Seq<char>)>, key: Seq<char>, n: int) -> Option<int>
    decreases n,
{
    if n <= 0 {
        None
    } else {
        match first_key_index(es, key, n - 1) {
            Some(i) => Some(i),
            None => if es[n - 1].0 == key {
                Some(n - 1)
            } else {
                None
            },
        }
    }
}

/// `value[key]` read one level further: the member `key` of an object, as a
/// value; none when `v` is none, not an object, lacks the key, or the
/// member's text is not JSON.
pub open spec fn json_member(v: Option<JsonValueView>, key: Seq<char>) -> Option<JsonValueView> {
    match v {
        Some(x) => match member_text(x, key) {
            Some(t) => json_value_of(t),
            None => None,
        },
        None => None,
    }
}

/// The text of the member `key` of a JSON value, when it is an object that has it.
pub fn member_text_of(v: &JsonValue, key: &str) -> (r: Option<String>)
    ensures
        match r {
            Some(t) => member_text(v@, key@) == Some(t@),
            None => member_text(v@, key@) is None,
        },
{
    match v {
        JsonValue::Object(es) => {
            let ghost ev = entries_view(es@);
            let mut i: usize = 0;
            while i < es.len()
                invariant
                    i <= es@.len(),
                    ev == entries_view(es@),
                    v@ == JsonValueView::Object(ev),
                    first_key_index(ev, key@, i as int) is None,
                decreases es@.len() - i,
            {
                let same = crate::engine::coze_refine::eq_chars(
                    crate::chars::chars_of(es[i].0.as_str()).as_slice(),
                    crate::chars::chars_of(key).as_slice(),
                );
                if same {
                    proof {
                        assert(ev[i as int].0 == key@);
                        assert(first_key_index(ev, key@, i + 1) == Some(i as int));
                        lemma_first_key_index_extend(ev, key@, i + 1);
                        assert(ev[i as int].1 == es@[i as int].1@);
                        assert(first_key_index(ev, key@, ev.len() as int) == Some(i as int));
                    }
                    return Some(crate::chars::string_of(es[i].1.as_str()));
                }
                proof {
                    assert(ev[i as int].0 != key@);
                }
                i = i + 1;
            }
            None
        },
        _ => None,
    }
}

proof fn lemma_first_key_index_extend(es: Seq<(Seq<char>, Seq<char>)>, key: Seq<char>, n: int)
    requires
        0 <= n <= es.len(),
        first_key_index(es, key, n) is Some,
    ensures
        first_key_index(es, key, es.len() as int) == first_key_index(es, key, n),
    decreases es.len() - n,
{
    if n < es.len() {
        lemma_first_key_index_extend(es, key, n + 1);
    }
}

/// The member `key` of a JSON value, read as a value (`json_member`).
pub fn member_of(v: &Option<JsonValue>, key: &str) -> (r: Option<JsonValue>)
    ensures
        json_opt_view(r) == json_member(json_opt_view(*v), key@),
{
    match v {
        Some(x) => match member_text_of(x, key) {
            Some(t) => parse_json_value(t.as_str()),
            None => None,
        },
        None => None,
    }
}

/// The view of an optional value.
pub open spec fn json_opt_view(v: Option<JsonValue>) -> Option<JsonValueView> {
    match v {
        Some(x) => Some(x@),
        None => None,
    }
}

} // verus!
