//! Structured documents: JSON and TOML text decoded into plain trees that the
//! parsers of this library walk. The decoding itself is done by `serde_json`
//! and `toml`; what a document holds is read here, with specifications.

use vstd::prelude::*;

use crate::text;

verus! {

#[verifier::external_type_specification]
#[verifier::external_body]
pub struct ExJsonValue(serde_json::Value);

#[verifier::external_type_specification]
#[verifier::external_body]
pub struct ExTomlValue(toml::Value);

/// A JSON value. Numbers keep their text; object members keep the order in
/// which the decoded map yields them (keys are unique).
#[derive(Debug, PartialEq)]
pub enum JsonValue {
    Null,
    Bool(bool),
    Number(String),
    Str(String),
    Array(Vec<JsonValue>),
    Object(Vec<(String, JsonValue)>),
}

/// A TOML value. Numbers and dates keep their text; table entries keep the
/// order in which the decoded table yields them (keys are unique).
#[derive(Debug, PartialEq)]
pub enum TomlValue {
    Str(String),
    Integer(String),
    Float(String),
    Boolean(bool),
    Datetime(String),
    Array(Vec<TomlValue>),
    Table(Vec<(String, TomlValue)>),
}

/// The value that `serde_json` decodes from `text`, when the text is JSON.
pub uninterp spec fn json_document(text: Seq<char>) -> Option<JsonValue>;

/// The value that `toml` decodes from `text`, when the text is TOML.
pub uninterp spec fn toml_document(text: Seq<char>) -> Option<TomlValue>;

/// `serde_json::from_str::<serde_json::Value>`: decodes `text`, giving the
/// decoded value as a `JsonValue`, or the decoder's error message. The
/// contract claims only that the result is a function of the text (and an
/// error exactly when no value is); what the value or the message holds is
/// `serde_json`'s to decide, and is not stated.
#[verifier::external_body]
pub(crate) fn parse_json(text: &str) -> (r: Result<JsonValue, String>)
    ensures
        match r {
            Ok(v) => json_document(text@) == Some(v),
            Err(_) => json_document(text@) is None,
        },
{
    match serde_json::from_str::<serde_json::Value>(text) {
        Ok(v) => Ok(json_of(&v)),
        Err(e) => Err(e.to_string()),
    }
}

/// Converts a decoded `serde_json::Value`, variant by variant, into a
/// `JsonValue`; only `parse_json` uses it, and its contract covers the result.
#[verifier::external_body]
fn json_of(v: &serde_json::Value) -> JsonValue {
    match v {
        serde_json::Value::Null => JsonValue::Null,
        serde_json::Value::Bool(b) => JsonValue::Bool(*b),
        serde_json::Value::Number(n) => JsonValue::Number(n.to_string()),
        serde_json::Value::String(s) => JsonValue::Str(s.clone()),
        serde_json::Value::Array(a) => JsonValue::Array(a.iter().map(json_of).collect()),
        serde_json::Value::Object(m) => {
            JsonValue::Object(m.iter().map(|(k, x)| (k.clone(), json_of(x))).collect())
        },
    }
}

/// `toml::from_str::<toml::Value>`: decodes `text`, giving the decoded value
/// as a `TomlValue`, or the decoder's error message. The contract claims only
/// that the result is a function of the text (and an error exactly when no
/// value is); what the value or the message holds is `toml`'s to decide, and
/// is not stated.
#[verifier::external_body]
pub(crate) fn parse_toml(text: &str) -> (r: Result<TomlValue, String>)
    ensures
        match r {
            Ok(v) => toml_document(text@) == Some(v),
            Err(_) => toml_document(text@) is None,
        },
{
    match toml::from_str::<toml::Value>(text) {
        Ok(v) => Ok(toml_of(&v)),
        Err(e) => Err(e.to_string()),
    }
}

/// Converts a decoded `toml::Value`, variant by variant, into a `TomlValue`;
/// only `parse_toml` uses it, and its contract covers the result.
#[verifier::external_body]
fn toml_of(v: &toml::Value) -> TomlValue {
    match v {
        toml::Value::String(s) => TomlValue::Str(s.clone()),
        toml::Value::Integer(n) => TomlValue::Integer(n.to_string()),
        toml::Value::Float(x) => TomlValue::Float(x.to_string()),
        toml::Value::Boolean(b) => TomlValue::Boolean(*b),
        toml::Value::Datetime(d) => TomlValue::Datetime(d.to_string()),
        toml::Value::Array(a) => TomlValue::Array(a.iter().map(toml_of).collect()),
        toml::Value::Table(t) => {
            TomlValue::Table(t.iter().map(|(k, x)| (k.clone(), toml_of(x))).collect())
        },
    }
}

// ---------------------------------------------------------------------------
// Reading JSON
// ---------------------------------------------------------------------------

/// The member of an object named `key` (the first, keys being unique).
pub open spec fn json_field(fs: Seq<(String, JsonValue)>, key: Seq<char>) -> Option<JsonValue>
    decreases fs.len(),
{
    if fs.len() == 0 {
        None
    } else if fs[0].0@ == key {
        Some(fs[0].1)
    } else {
        json_field(fs.subrange(1, fs.len() as int), key)
    }
}

/// `Value::get` with a key: the member `key` of an object; nothing for any
/// other value.
pub open spec fn json_get(v: JsonValue, key: Seq<char>) -> Option<JsonValue> {
    match v {
        JsonValue::Object(fs) => json_field(fs@, key),
        _ => None,
    }
}

/// `as_str` on an optional value.
pub open spec fn json_str(v: Option<JsonValue>) -> Option<Seq<char>> {
    match v {
        Some(JsonValue::Str(s)) => Some(s@),
        _ => None,
    }
}

/// `as_object` on an optional value: its members, none when it is not an object.
pub open spec fn json_members(v: Option<JsonValue>) -> Seq<(String, JsonValue)> {
    match v {
        Some(JsonValue::Object(fs)) => fs@,
        _ => Seq::empty(),
    }
}

/// An optional reference read as an optional value.
pub open spec fn deref_opt<T>(r: Option<&T>) -> Option<T> {
    match r {
        Some(x) => Some(*x),
        None => None,
    }
}

pub(crate) fn str_is(s: &String, key: &str) -> (r: bool)
    ensures
        r == (s@ == key@),
{
    let a = text::chars_of(s.as_str());
    let b = text::chars_of(key);
    text::chars_eq(a.as_slice(), b.as_slice())
}

/// The member of an object named `key`.
pub fn json_field_of<'a>(fs: &'a Vec<(String, JsonValue)>, key: &str) -> (r: Option<&'a JsonValue>)
    ensures
        deref_opt(r) == json_field(fs@, key@),
{
    let n = fs.len();
    let mut i: usize = 0;
    proof {
        assert(fs@.subrange(0, n as int) == fs@);
    }
    while i < n
        invariant
            n == fs@.len(),
            i <= n,
            json_field(fs@, key@) == json_field(fs@.subrange(i as int, n as int), key@),
        decreases n - i,
    {
        let ghost rest = fs@.subrange(i as int, n as int);
        proof {
            assert(rest[0] == fs@[i as int]);
            assert(rest.subrange(1, rest.len() as int) == fs@.subrange(i + 1, n as int));
        }
        if str_is(&fs[i].0, key) {
            return Some(&fs[i].1);
        }
        i += 1;
    }
    None
}

/// `Value::get`: the member `key` of an object.
pub fn json_get_of<'a>(v: &'a JsonValue, key: &str) -> (r: Option<&'a JsonValue>)
    ensures
        deref_opt(r) == json_get(*v, key@),
{
    match v {
        JsonValue::Object(fs) => json_field_of(fs, key),
        _ => None,
    }
}

/// `as_str` on an optional value.
pub fn json_str_of(v: Option<&JsonValue>) -> (r: Option<&String>)
    ensures
        match r {
            Some(s) => json_str(deref_opt(v)) == Some(s@),
            None => json_str(deref_opt(v)) is None,
        },
{
    match v {
        Some(JsonValue::Str(s)) => Some(s),
        _ => None,
    }
}

/// Take the member `key` out of an object's members.
pub fn take_field(fs: Vec<(String, JsonValue)>, key: &str) -> (r: Option<JsonValue>)
    ensures
        r == json_field(fs@, key@),
{
    let ghost all = fs@;
    let mut fs = fs;
    let mut found: Option<JsonValue> = None;
    proof {
        assert(all.skip(all.len() as int) =~= Seq::<(String, JsonValue)>::empty());
    }
    while fs.len() > 0
        invariant
            fs@.len() <= all.len(),
            fs@ == all.take(fs@.len() as int),
            found == json_field(all.skip(fs@.len() as int), key@),
        decreases fs@.len(),
    {
        let ghost m = fs@.len() as int;
        let e = fs.pop().unwrap();
        proof {
            assert(e == all[m - 1]);
            assert(all.skip(m - 1)[0] == e);
            assert(all.skip(m - 1).subrange(1, all.skip(m - 1).len() as int) =~= all.skip(m));
            assert(fs@ =~= all.take(m - 1));
        }
        let (k, v) = e;
        if str_is(&k, key) {
            found = Some(v);
        }
    }
    proof {
        assert(all.skip(0) =~= all);
    }
    found
}

/// Take the member `key` out of a value: nothing unless it is an object with one.
pub fn take_member(v: JsonValue, key: &str) -> (r: Option<JsonValue>)
    ensures
        r == json_get(v, key@),
{
    match v {
        JsonValue::Object(fs) => take_field(fs, key),
        _ => None,
    }
}

// ---------------------------------------------------------------------------
// Reading TOML
// ---------------------------------------------------------------------------

/// The entry of a table named `key` (the first, keys being unique).
pub open spec fn toml_field(fs: Seq<(String, TomlValue)>, key: Seq<char>) -> Option<TomlValue>
    decreases fs.len(),
{
    if fs.len() == 0 {
        None
    } else if fs[0].0@ == key {
        Some(fs[0].1)
    } else {
        toml_field(fs.subrange(1, fs.len() as int), key)
    }
}

/// `Value::get` with a key: the entry `key` of a table; nothing for any other value.
pub open spec fn toml_get(v: TomlValue, key: Seq<char>) -> Option<TomlValue> {
    match v {
        TomlValue::Table(fs) => toml_field(fs@, key),
        _ => None,
    }
}

/// `as_str` on an optional value.
pub open spec fn toml_str(v: Option<TomlValue>) -> Option<Seq<char>> {
    match v {
        Some(TomlValue::Str(s)) => Some(s@),
        _ => None,
    }
}

/// The entry of a table named `key`.
pub fn toml_field_of<'a>(fs: &'a Vec<(String, TomlValue)>, key: &str) -> (r: Option<&'a TomlValue>)
    ensures
        deref_opt(r) == toml_field(fs@, key@),
{
    let n = fs.len();
    let mut i: usize = 0;
    proof {
        assert(fs@.subrange(0, n as int) == fs@);
    }
    while i < n
        invariant
            n == fs@.len(),
            i <= n,
            toml_field(fs@, key@) == toml_field(fs@.subrange(i as int, n as int), key@),
        decreases n - i,
    {
        let ghost rest = fs@.subrange(i as int, n as int);
        proof {
            assert(rest[0] == fs@[i as int]);
            assert(rest.subrange(1, rest.len() as int) == fs@.subrange(i + 1, n as int));
        }
        if str_is(&fs[i].0, key) {
            return Some(&fs[i].1);
        }
        i += 1;
    }
    None
}

/// `Value::get`: the entry `key` of a table.
pub fn toml_get_of<'a>(v: &'a TomlValue, key: &str) -> (r: Option<&'a TomlValue>)
    ensures
        deref_opt(r) == toml_get(*v, key@),
{
    match v {
        TomlValue::Table(fs) => toml_field_of(fs, key),
        _ => None,
    }
}

/// `as_str` on an optional value.
pub fn toml_str_of(v: Option<&TomlValue>) -> (r: Option<&String>)
    ensures
        match r {
            Some(s) => toml_str(deref_opt(v)) == Some(s@),
            None => toml_str(deref_opt(v)) is None,
        },
{
    match v {
        Some(TomlValue::Str(s)) => Some(s),
        _ => None,
    }
}

} // verus!
