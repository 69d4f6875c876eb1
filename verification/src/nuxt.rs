use vstd::prelude::*;
use vstd::string::StrSliceExecFns;

use crate::text::{chars_of, find_from, first_from, lemma_first_from, text_eq};

verus! {

/// The tag that opens the Nuxt data script of a wiki page.
pub const NUXT_START_MARKER: &'static str = "<script type=\"application/json\" data-nuxt-data=\"nuxt-app\" data-ssr=\"true\" id=\"__NUXT_DATA__\">";

/// The tag that closes a script.
pub const SCRIPT_END_MARKER: &'static str = "</script>";

/// The text between the first Nuxt data opening tag and the first closing
/// script tag after it, or why there is none.
pub open spec fn nuxt_payload(html: Seq<char>) -> Result<Seq<char>, Seq<char>> {
    match first_from(html, NUXT_START_MARKER@, 0) {
        None => Err("Could not find __NUXT_DATA__ script."@),
        Some(start) => {
            let content_start = start + NUXT_START_MARKER@.len();
            match first_from(html, SCRIPT_END_MARKER@, content_start) {
                None => Err("Could not find end of __NUXT_DATA__ script."@),
                Some(end) => Ok(html.subrange(content_start, end)),
            }
        },
    }
}

/// The JSON text of the Nuxt data script of a wiki page.
pub fn extract_nuxt_payload(html: &str) -> (r: Result<&str, String>)
    ensures
        match nuxt_payload(html@) {
            Ok(p) => r matches Ok(text) && text@ == p,
            Err(e) => r matches Err(msg) && msg@ == e,
        },
{
    let h = chars_of(html);
    let start_marker = chars_of(NUXT_START_MARKER);
    let start = match find_from(&h, &start_marker, 0) {
        Some(start) => start,
        None => {
            proof {
                lemma_first_from(html@, NUXT_START_MARKER@, 0, None);
            }
            return Err("Could not find __NUXT_DATA__ script.".to_owned());
        },
    };
    proof {
        lemma_first_from(html@, NUXT_START_MARKER@, 0, Some(start as int));
    }
    assert(start + start_marker@.len() <= h@.len());
    assert(h@.len() == h.len());
    let content_start = start + start_marker.len();
    let end_marker = chars_of(SCRIPT_END_MARKER);
    let end = match find_from(&h, &end_marker, content_start) {
        Some(end) => end,
        None => {
            proof {
                lemma_first_from(html@, SCRIPT_END_MARKER@, content_start as int, None);
            }
            return Err("Could not find end of __NUXT_DATA__ script.".to_owned());
        },
    };
    proof {
        lemma_first_from(html@, SCRIPT_END_MARKER@, content_start as int, Some(end as int));
    }
    Ok(html.substring_char(content_start, end))
}

/// A JSON value as the wiki's Nuxt payload holds it. Numbers keep only what
/// the logic reads of them: a non-negative integer, or that it is some other
/// number. Object members keep their order.
#[derive(Debug)]
pub enum JsonValue {
    Null,
    Bool(bool),
    UInt(u64),
    OtherNumber,
    Text(String),
    Array(Vec<JsonValue>),
    Object(Vec<(String, JsonValue)>),
}

/// A JSON value as serde_json parses it.
#[verifier::external_type_specification]
#[verifier::external_body]
pub struct ExSerdeValue(serde_json::Value);

/// What `serde_json` gives when it parses a text as an array of JSON values,
/// each value taken into the library's model; `None` when the text is no
/// JSON array.
pub uninterp spec fn json_root(text: Seq<char>) -> Option<Seq<JsonValue>>;

/// Takes a value parsed by `serde_json` into the library's model, variant for
/// variant: a number becomes `UInt` when `Number::as_u64` gives one, else
/// `OtherNumber`; object members keep the order in which serde_json's map
/// yields them. Nothing is stated of it; `parse_json_root`, its one caller,
/// names the result of the parse and this conversion together.
#[verifier::external_body]
fn json_model(value: &serde_json::Value) -> JsonValue {
    match value {
        serde_json::Value::Null => JsonValue::Null,
        serde_json::Value::Bool(b) => JsonValue::Bool(*b),
        serde_json::Value::Number(n) => match n.as_u64() {
            Some(u) => JsonValue::UInt(u),
            None => JsonValue::OtherNumber,
        },
        serde_json::Value::String(t) => JsonValue::Text(t.clone()),
        serde_json::Value::Array(items) => JsonValue::Array(items.iter().map(json_model).collect()),
        serde_json::Value::Object(m) => JsonValue::Object(m.iter().map(|(k, v)| (k.clone(), json_model(v))).collect()),
    }
}

/// Calls `serde_json::from_str` to parse a text as an array of JSON values
/// and takes each into the library's model; the result is named `json_root`.
/// On a text that is no JSON array it gives serde_json's error message, of
/// which nothing is stated.
#[verifier::external_body]
pub(crate) fn parse_json_root(text: &str) -> (r: Result<Vec<JsonValue>, String>)
    ensures
        match json_root(text@) {
            Some(v) => r matches Ok(x) && x@ == v,
            None => r is Err,
        },
{
    match serde_json::from_str::<Vec<serde_json::Value>>(text) {
        Ok(values) => Ok(values.iter().map(json_model).collect()),
        Err(error) => Err(error.to_string()),
    }
}

/// The member of an object with the given key (the first one, should there
/// be several).
pub open spec fn member(entries: Seq<(String, JsonValue)>, key: Seq<char>) -> Option<JsonValue>
    decreases entries.len(),
{
    if entries.len() == 0 {
        None
    } else if entries[0].0@ == key {
        Some(entries[0].1)
    } else {
        member(entries.drop_first(), key)
    }
}

/// A value read as a reference into the payload's root array.
pub open spec fn ref_index(v: JsonValue) -> Option<usize> {
    match v {
        JsonValue::UInt(n) => Some(n as usize),
        _ => None,
    }
}

/// The root entry a reference points to.
pub open spec fn deref(root: Seq<JsonValue>, v: JsonValue) -> Option<JsonValue> {
    match ref_index(v) {
        Some(i) => if i < root.len() {
            Some(root[i as int])
        } else {
            None
        },
        None => None,
    }
}

/// A string, given inline or by reference.
pub open spec fn json_text(root: Seq<JsonValue>, v: JsonValue) -> Option<Seq<char>> {
    match v {
        JsonValue::Text(s) => Some(s@),
        _ => match deref(root, v) {
            Some(JsonValue::Text(s)) => Some(s@),
            _ => None,
        },
    }
}

/// An object, given inline or by reference.
pub open spec fn json_object(root: Seq<JsonValue>, v: JsonValue) -> Option<Seq<(String, JsonValue)>> {
    match v {
        JsonValue::Object(m) => Some(m@),
        _ => match deref(root, v) {
            Some(JsonValue::Object(m)) => Some(m@),
            _ => None,
        },
    }
}

/// An array, given inline or by reference.
pub open spec fn json_array(root: Seq<JsonValue>, v: JsonValue) -> Option<Seq<JsonValue>> {
    match v {
        JsonValue::Array(a) => Some(a@),
        _ => match deref(root, v) {
            Some(JsonValue::Array(a)) => Some(a@),
            _ => None,
        },
    }
}

/// A boolean, given inline or by reference.
pub open spec fn json_bool(root: Seq<JsonValue>, v: JsonValue) -> Option<bool> {
    match v {
        JsonValue::Bool(b) => Some(b),
        _ => match deref(root, v) {
            Some(JsonValue::Bool(b)) => Some(b),
            _ => None,
        },
    }
}

/// A stat value: a number that, read as a reference, points to a number that
/// fits a byte; otherwise the number itself when it fits a byte.
pub open spec fn json_u8(root: Seq<JsonValue>, v: JsonValue) -> Option<u8> {
    match v {
        JsonValue::UInt(n) => {
            let own = if n <= 255 {
                Some(n as u8)
            } else {
                None
            };
            if (n as usize) < root.len() {
                match root[(n as usize) as int] {
                    JsonValue::UInt(r) => if r <= 255 {
                        Some(r as u8)
                    } else {
                        own
                    },
                    _ => own,
                }
            } else {
                own
            }
        },
        _ => None,
    }
}

/// The member of an object with the given key.
pub fn object_get<'a>(entries: &'a Vec<(String, JsonValue)>, key: &str) -> (r: Option<&'a JsonValue>)
    ensures
        match member(entries@, key@) {
            Some(v) => r matches Some(x) && *x == v,
            None => r is None,
        },
{
    let mut i: usize = 0;
    assert(entries@.skip(0) =~= entries@);
    while i < entries.len()
        invariant
            i <= entries@.len(),
            member(entries@, key@) == member(entries@.skip(i as int), key@),
        decreases entries@.len() - i,
    {
        let entry = &entries[i];
        assert(entries@.skip(i as int)[0] == entries@[i as int]);
        if text_eq(entry.0.as_str(), key) {
            return Some(&entry.1);
        }
        assert(entries@.skip(i as int).drop_first() =~= entries@.skip(i + 1));
        i += 1;
    }
    None
}

/// A value read as a reference into the root array.
pub fn nuxt_ref_index(value: &JsonValue) -> (r: Option<usize>)
    ensures
        r == ref_index(*value),
{
    match value {
        JsonValue::UInt(n) => Some(*n as usize),
        _ => None,
    }
}

/// The root entry a reference points to.
pub fn nuxt_deref<'a>(root: &'a [JsonValue], value: &'a JsonValue) -> (r: Option<&'a JsonValue>)
    ensures
        match deref(root@, *value) {
            Some(v) => r matches Some(x) && *x == v,
            None => r is None,
        },
{
    let index = match nuxt_ref_index(value) {
        Some(index) => index,
        None => return None,
    };
    if index < root.len() {
        Some(&root[index])
    } else {
        None
    }
}

/// A string, given inline or by reference.
pub fn nuxt_string(root: &[JsonValue], value: &JsonValue) -> (r: Option<String>)
    ensures
        match json_text(root@, *value) {
            Some(t) => r matches Some(x) && x@ == t,
            None => r is None,
        },
{
    if let JsonValue::Text(text) = value {
        return Some(text.clone());
    }
    match nuxt_deref(root, value) {
        Some(JsonValue::Text(text)) => Some(text.clone()),
        _ => None,
    }
}

/// An object, given inline or by reference.
pub fn nuxt_object<'a>(root: &'a [JsonValue], value: &'a JsonValue) -> (r: Option<
    &'a Vec<(String, JsonValue)>,
>)
    ensures
        match json_object(root@, *value) {
            Some(m) => r matches Some(x) && x@ == m,
            None => r is None,
        },
{
    if let JsonValue::Object(object) = value {
        return Some(object);
    }
    match nuxt_deref(root, value) {
        Some(JsonValue::Object(object)) => Some(object),
        _ => None,
    }
}

/// An array, given inline or by reference.
pub fn nuxt_array<'a>(root: &'a [JsonValue], value: &'a JsonValue) -> (r: Option<&'a Vec<JsonValue>>)
    ensures
        match json_array(root@, *value) {
            Some(a) => r matches Some(x) && x@ == a,
            None => r is None,
        },
{
    if let JsonValue::Array(array) = value {
        return Some(array);
    }
    match nuxt_deref(root, value) {
        Some(JsonValue::Array(array)) => Some(array),
        _ => None,
    }
}

/// A boolean, given inline or by reference.
pub fn nuxt_bool(root: &[JsonValue], value: &JsonValue) -> (r: Option<bool>)
    ensures
        r == json_bool(root@, *value),
{
    if let JsonValue::Bool(boolean) = value {
        return Some(*boolean);
    }
    match nuxt_deref(root, value) {
        Some(JsonValue::Bool(boolean)) => Some(*boolean),
        _ => None,
    }
}

/// A stat value: the number a reference points to when that fits a byte,
/// else the number itself when it fits a byte.
pub fn nuxt_u8(root: &[JsonValue], value: &JsonValue) -> (r: Option<u8>)
    ensures
        r == json_u8(root@, *value),
{
    if let JsonValue::UInt(number) = value {
        let number = *number;
        let own: Option<u8> = if number <= 255 {
            Some(number as u8)
        } else {
            None
        };
        let index = number as usize;
        if index < root.len() {
            return match &root[index] {
                JsonValue::UInt(resolved) => if *resolved <= 255 {
                    Some(*resolved as u8)
                } else {
                    own
                },
                _ => own,
            };
        }
        return own;
    }
    None
}

} // verus!
