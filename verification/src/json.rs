//! JSON documents, as `serde_json` reads them and hands them out.
//!
//! The library looks into a document only through the accessors below. What
//! each of them claims of `serde_json` is stated over [`Json`], the tree that a
//! `serde_json::Value` holds.
use vstd::prelude::*;

use crate::text::split;

verus! {

/// A `serde_json::Value`: a JSON document of any shape.
#[verifier::external_type_specification]
#[verifier::external_body]
pub struct ExValue(serde_json::Value);

/// What `serde_json` reports of bytes that are not a JSON document.
#[verifier::external_type_specification]
#[verifier::external_body]
pub struct ExJsonError(serde_json::Error);

/// The tree that a JSON document holds.
///
/// Of a number it keeps what the library reads: its value, where that is an
/// integer from 0 to `u64::MAX` written as one.
#[verifier::ext_equal]
pub enum Json {
    Null,
    Bool(bool),
    Number(Option<u64>),
    Text(Seq<char>),
    Array(Seq<Json>),
    Object(Map<Seq<char>, Json>),
}

/// The tree that a `serde_json::Value` holds.
pub uninterp spec fn json_of(value: serde_json::Value) -> Json;

/// The tree that `serde_json::from_slice` reads from bytes, or `None` where the
/// bytes are not a JSON document that it accepts.
pub uninterp spec fn json_parse(bytes: Seq<u8>) -> Option<Json>;

impl Json {
    /// The member of an object under a key.
    pub open spec fn member(self, key: Seq<char>) -> Option<Json> {
        match self {
            Json::Object(members) => if members.contains_key(key) {
                Some(members[key])
            } else {
                None
            },
            _ => None,
        }
    }

    /// The member reached by following keys downwards.
    pub open spec fn descend(self, keys: Seq<Seq<char>>) -> Option<Json>
        decreases keys.len(),
    {
        if keys.len() == 0 {
            Some(self)
        } else {
            match self.member(keys[0]) {
                Some(child) => child.descend(keys.skip(1)),
                None => None,
            }
        }
    }

    /// The text of a string.
    pub open spec fn text(self) -> Option<Seq<char>> {
        match self {
            Json::Text(t) => Some(t),
            _ => None,
        }
    }

    /// The items of an array.
    pub open spec fn items(self) -> Option<Seq<Json>> {
        match self {
            Json::Array(items) => Some(items),
            _ => None,
        }
    }

    /// The value of a number that is an unsigned integer.
    pub open spec fn unsigned(self) -> Option<u64> {
        match self {
            Json::Number(n) => n,
            _ => None,
        }
    }
}

/// The tree of an optional document.
pub open spec fn opt_json(value: Option<&serde_json::Value>) -> Option<Json> {
    match value {
        Some(v) => Some(json_of(*v)),
        None => None,
    }
}

/// The trees of a list of documents.
pub open spec fn jsons(list: Seq<serde_json::Value>) -> Seq<Json> {
    list.map_values(|v: serde_json::Value| json_of(v))
}

/// A pointer whose tokens are object keys spelt as they are: it starts with a
/// slash, escapes nothing and holds no digit that could index an array.
pub open spec fn plain_pointer(pointer: Seq<char>) -> bool {
    &&& pointer.len() > 0
    &&& pointer[0] == '/'
    &&& forall|i: int|
        0 <= i < pointer.len() ==> #[trigger] pointer[i] != '~' && !('0' <= pointer[i] <= '9')
}

/// `serde_json::from_slice`, reading into a `serde_json::Value`. It succeeds on
/// exactly the bytes that `json_parse` names a tree for, and the document it
/// returns holds that tree.
#[verifier::external_body]
pub(crate) fn parse_json(bytes: &[u8]) -> (r: Result<serde_json::Value, serde_json::Error>)
    ensures
        match r {
            Ok(v) => json_parse(bytes@) == Some(json_of(v)),
            Err(_) => json_parse(bytes@) is None,
        },
{
    serde_json::from_slice(bytes)
}

/// `serde_json::Value::get` with a string key: the member under that key of an
/// object, and nothing of any other document.
#[verifier::external_body]
pub(crate) fn member<'a>(value: &'a serde_json::Value, key: &str) -> (r: Option<
    &'a serde_json::Value,
>)
    ensures
        opt_json(r) == json_of(*value).member(key@),
{
    value.get(key)
}

/// `serde_json::Value::pointer`, on pointers whose tokens are plain object
/// keys: the member reached by following them downwards.
#[verifier::external_body]
pub(crate) fn pointer<'a>(value: &'a serde_json::Value, path: &str) -> (r: Option<
    &'a serde_json::Value,
>)
    requires
        plain_pointer(path@),
    ensures
        opt_json(r) == json_of(*value).descend(split(path@, '/').skip(1)),
{
    value.pointer(path)
}

/// `serde_json::Value::as_str`: the text of a string, and nothing of any other
/// document.
pub assume_specification[ serde_json::Value::as_str ](value: &serde_json::Value) -> (r: Option<&str>)
    ensures
        match r {
            Some(s) => json_of(*value).text() == Some(s@),
            None => json_of(*value).text() is None,
        },
;

/// `serde_json::Value::as_array`: the items of an array, and nothing of any
/// other document.
pub assume_specification[ serde_json::Value::as_array ](value: &serde_json::Value) -> (r: Option<
    &Vec<serde_json::Value>,
>)
    ensures
        match r {
            Some(list) => json_of(*value).items() == Some(jsons(list@)),
            None => json_of(*value).items() is None,
        },
;

/// `serde_json::Value::as_u64`: the value of a number that is an unsigned
/// integer of 64 bits, and nothing of any other document.
pub assume_specification[ serde_json::Value::as_u64 ](value: &serde_json::Value) -> (r: Option<u64>)
    ensures
        r == json_of(*value).unsigned(),
;

} // verus!
