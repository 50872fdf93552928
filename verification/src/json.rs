//! A JSON document as the library reads it: the values that ffprobe and
//! ffmpeg print, and the transcript fields that hold JSON values.
use crate::text::str_eq;
use vstd::prelude::*;

verus! {

/// A JSON number: its value as an `i64` where it is one, the nearest `i64`
/// to its floating-point value, and its JSON text.
pub struct JsonNumber {
    /// The number as an `i64`, where it is an integer in range.
    pub as_i64: Option<i64>,
    /// The number rounded to the nearest integer (ties away from zero),
    /// saturated to the `i64` range.
    pub nearest_i64: i64,
    /// The number as JSON text.
    pub text: String,
}

/// A JSON value.
pub enum JsonValue {
    Null,
    Bool(bool),
    Number(JsonNumber),
    Str(String),
    /// An array, with its compact JSON text.
    Array { items: Vec<JsonValue>, text: String },
    /// An object (keys unique, in order), with its compact JSON text.
    Object { entries: Vec<(String, JsonValue)>, text: String },
}

/// The value under `key` among `entries[i..]`, the first such entry.
pub open spec fn lookup_from(entries: Seq<(String, JsonValue)>, key: Seq<char>, i: int) -> Option<
    JsonValue,
>
    decreases entries.len() - i,
{
    if i < 0 || i >= entries.len() {
        None
    } else if entries[i].0@ == key {
        Some(entries[i].1)
    } else {
        lookup_from(entries, key, i + 1)
    }
}

/// The member `key` of an object; `None` for other values.
pub open spec fn spec_get(v: JsonValue, key: Seq<char>) -> Option<JsonValue> {
    match v {
        JsonValue::Object { entries, .. } => lookup_from(entries@, key, 0),
        _ => None,
    }
}

/// The items of an array; `None` for other values.
pub open spec fn spec_array_items(v: JsonValue) -> Option<Seq<JsonValue>> {
    match v {
        JsonValue::Array { items, .. } => Some(items@),
        _ => None,
    }
}

/// The text of a string; `None` for other values.
pub open spec fn spec_as_str(v: JsonValue) -> Option<Seq<char>> {
    match v {
        JsonValue::Str(s) => Some(s@),
        _ => None,
    }
}

/// The value as an `i64`; `None` unless an integral number in range.
pub open spec fn spec_as_i64(v: JsonValue) -> Option<i64> {
    match v {
        JsonValue::Number(n) => n.as_i64,
        _ => None,
    }
}

/// The nearest integer to a number; `None` for other values.
pub open spec fn spec_nearest_i64(v: JsonValue) -> Option<i64> {
    match v {
        JsonValue::Number(n) => Some(n.nearest_i64),
        _ => None,
    }
}

/// The member `key` of an object, as an `i64`.
pub open spec fn member_i64(v: JsonValue, key: Seq<char>) -> Option<i64> {
    match spec_get(v, key) {
        Some(x) => spec_as_i64(x),
        None => None,
    }
}

/// The member `key` of an object, as the items of an array.
pub open spec fn member_items(v: JsonValue, key: Seq<char>) -> Option<Seq<JsonValue>> {
    match spec_get(v, key) {
        Some(x) => spec_array_items(x),
        None => None,
    }
}

/// How a value reads as text: a string as its contents, anything else as
/// its JSON text.
pub open spec fn display_text(v: JsonValue) -> Seq<char> {
    match v {
        JsonValue::Str(s) => s@,
        JsonValue::Number(n) => n.text@,
        JsonValue::Null => "null"@,
        JsonValue::Bool(b) => if b {
            "true"@
        } else {
            "false"@
        },
        JsonValue::Array { text, .. } => text@,
        JsonValue::Object { text, .. } => text@,
    }
}

impl JsonValue {
    /// The member `key` of an object.
    pub fn get(&self, key: &str) -> (r: Option<&JsonValue>)
        ensures
            match r {
                Some(x) => spec_get(*self, key@) == Some(*x),
                None => spec_get(*self, key@) is None,
            },
    {
        match self {
            JsonValue::Object { entries, .. } => {
                let mut i: usize = 0;
                while i < entries.len()
                    invariant
                        i <= entries@.len(),
                        spec_get(*self, key@) == lookup_from(entries@, key@, 0),
                        lookup_from(entries@, key@, 0) == lookup_from(entries@, key@, i as int),
                    decreases entries.len() - i,
                {
                    if str_eq(entries[i].0.as_str(), key) {
                        assert(entries@[i as int].0@ == key@);
                        assert(lookup_from(entries@, key@, i as int) == Some(entries@[i as int].1));
                        let found = &entries[i].1;
                        assert(*found == entries@[i as int].1);
                        return Some(found);
                    }
                    i = i + 1;
                }
                None
            },
            _ => None,
        }
    }

    /// The items of an array.
    pub fn as_array(&self) -> (r: Option<&Vec<JsonValue>>)
        ensures
            match r {
                Some(x) => spec_array_items(*self) == Some(x@),
                None => spec_array_items(*self) is None,
            },
    {
        match self {
            JsonValue::Array { items, .. } => Some(items),
            _ => None,
        }
    }

    /// The text of a string.
    pub fn as_str(&self) -> (r: Option<&str>)
        ensures
            match r {
                Some(x) => spec_as_str(*self) == Some(x@),
                None => spec_as_str(*self) is None,
            },
    {
        match self {
            JsonValue::Str(s) => Some(s.as_str()),
            _ => None,
        }
    }

    /// The value as an `i64`.
    pub fn as_i64(&self) -> (r: Option<i64>)
        ensures
            r == spec_as_i64(*self),
    {
        match self {
            JsonValue::Number(n) => n.as_i64,
            _ => None,
        }
    }

    /// The nearest integer to a number.
    pub fn nearest_i64(&self) -> (r: Option<i64>)
        ensures
            r == spec_nearest_i64(*self),
    {
        match self {
            JsonValue::Number(n) => Some(n.nearest_i64),
            _ => None,
        }
    }

    /// The value read as text: a string's contents, else its JSON text.
    pub fn to_display_text(&self) -> (r: String)
        ensures
            r@ == display_text(*self),
    {
        match self {
            JsonValue::Str(s) => s.clone(),
            JsonValue::Number(n) => n.text.clone(),
            JsonValue::Null => {
                proof {
                    reveal_strlit("null");
                }
                String::from_str("null")
            },
            JsonValue::Bool(b) => {
                proof {
                    reveal_strlit("true");
                    reveal_strlit("false");
                }
                if *b {
                    String::from_str("true")
                } else {
                    String::from_str("false")
                }
            },
            JsonValue::Array { text, .. } => text.clone(),
            JsonValue::Object { text, .. } => text.clone(),
        }
    }
}

} // verus!
