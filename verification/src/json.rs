//! JSON values as plain data, and the accessors the validators read them with.

use vstd::prelude::*;
use vstd::utf8::valid_utf8;
use crate::composition::bytes_equal;

verus! {

/// A JSON value. Numbers keep the distinction `serde_json` makes between
/// non-negative integers, negative integers, and other numbers.
#[derive(Debug, PartialEq, Eq)]
pub enum Json {
    Null,
    Bool(bool),
    PosInt(u64),
    NegInt(i64),
    Float,
    Str(Vec<u8>),
    Array(Vec<Json>),
    Object(Vec<JsonMember>),
}

/// One key and value of a JSON object.
#[derive(Debug, PartialEq, Eq)]
pub struct JsonMember {
    pub key: Vec<u8>,
    pub value: Json,
}

#[verifier::external_type_specification]
#[verifier::external_body]
pub struct ExJsonValue(serde_json::Value);

/// The value `serde_json` parses from some bytes, or nothing when they are
/// not one JSON document.
pub uninterp spec fn parsed_json(bytes: Seq<u8>) -> Option<Json>;

/// Every string and key inside a JSON value is UTF-8 and object keys are
/// distinct.
pub open spec fn json_well_formed(j: Json) -> bool
    decreases j,
{
    match j {
        Json::Str(s) => valid_utf8(s@),
        Json::Array(items) => forall|i: int|
            0 <= i < items@.len() ==> json_well_formed(#[trigger] items@[i]),
        Json::Object(members) => {
            &&& forall|i: int|
                0 <= i < members@.len() ==> valid_utf8(#[trigger] members@[i].key@)
                    && json_well_formed(members@[i].value)
            &&& forall|i: int, k: int|
                0 <= i < k < members@.len() ==> #[trigger] members@[i].key@
                    != #[trigger] members@[k].key@
        },
        _ => true,
    }
}

/// Parses one JSON document with `serde_json::from_slice`. Its strings are
/// Rust `String`s, hence UTF-8, and its objects are maps with distinct keys.
#[verifier::external_body]
pub(crate) fn parse_json(bytes: &[u8]) -> (r: Option<Json>)
    ensures
        r == parsed_json(bytes@),
        r matches Some(j) ==> json_well_formed(j),
{
    match serde_json::from_slice::<serde_json::Value>(bytes) {
        Ok(value) => Some(json_from_value(value)),
        Err(_) => None,
    }
}

/// Moves a `serde_json::Value` into the library's JSON type, variant by
/// variant; numbers keep `serde_json`'s unsigned, signed, and float cases.
#[verifier::external_body]
fn json_from_value(value: serde_json::Value) -> (r: Json)
{
    match value {
        serde_json::Value::Null => Json::Null,
        serde_json::Value::Bool(b) => Json::Bool(b),
        serde_json::Value::Number(n) => match (n.as_u64(), n.as_i64()) {
            (Some(u), _) => Json::PosInt(u),
            (None, Some(i)) => Json::NegInt(i),
            (None, None) => Json::Float,
        },
        serde_json::Value::String(s) => Json::Str(s.into_bytes()),
        serde_json::Value::Array(items) => Json::Array(items.into_iter().map(json_from_value).collect()),
        serde_json::Value::Object(m) => Json::Object(m.into_iter().map(|(k, v)| JsonMember { key: k.into_bytes(), value: json_from_value(v) }).collect()),
    }
}

/// The value stored under `key` in an object, if any.
pub open spec fn spec_get(j: Json, key: Seq<u8>) -> Option<Json> {
    match j {
        Json::Object(members) => if exists|i: int|
            0 <= i < members@.len() && #[trigger] members@[i].key@ == key {
            let i = choose|i: int| 0 <= i < members@.len() && #[trigger] members@[i].key@ == key;
            Some(members@[i].value)
        } else {
            None
        },
        _ => None,
    }
}

/// The value an optional reference points to.
pub open spec fn deref_json(j: Option<&Json>) -> Option<Json> {
    match j {
        Some(v) => Some(*v),
        None => None,
    }
}

/// The text of a string value.
pub open spec fn spec_as_str(j: Option<Json>) -> Option<Seq<u8>> {
    match j {
        Some(Json::Str(s)) => Some(s@),
        _ => None,
    }
}

/// The value of a non-negative integer, as `Value::as_u64` gives it.
pub open spec fn spec_as_u64(j: Option<Json>) -> Option<u64> {
    match j {
        Some(Json::PosInt(n)) => Some(n),
        _ => None,
    }
}

/// The value of an integer that fits `i64`, as `Value::as_i64` gives it.
pub open spec fn spec_as_i64(j: Option<Json>) -> Option<i64> {
    match j {
        Some(Json::PosInt(n)) => if n <= i64::MAX { Some(n as i64) } else { None },
        Some(Json::NegInt(n)) => Some(n),
        _ => None,
    }
}

/// An object whose keys are exactly `keys`.
pub open spec fn spec_exact_object(j: Json, keys: Seq<Seq<u8>>) -> bool {
    match j {
        Json::Object(members) => {
            &&& members@.len() == keys.len()
            &&& forall|k: int| 0 <= k < keys.len() ==> spec_get(j, #[trigger] keys[k]) is Some
        },
        _ => false,
    }
}

/// Returns the value stored under `key` when `j` is an object that has it.
pub fn get<'a>(j: &'a Json, key: &[u8]) -> (r: Option<&'a Json>)
    requires
        json_well_formed(*j),
    ensures
        deref_json(r) == spec_get(*j, key@),
        r matches Some(v) ==> json_well_formed(*v),
{
    match j {
        Json::Object(members) => {
            let mut i: usize = 0;
            while i < members.len()
                invariant
                    i <= members@.len(),
                    *j == Json::Object(*members),
                    json_well_formed(*j),
                    forall|k: int| 0 <= k < i ==> #[trigger] members@[k].key@ != key@,
                decreases members@.len() - i,
            {
                if bytes_equal(members[i].key.as_slice(), key) {
                    proof {
                        let c = choose|c: int|
                            0 <= c < members@.len() && #[trigger] members@[c].key@ == key@;
                        if c != i {
                            if c < i {
                            } else {
                                assert(members@[i as int].key@ != members@[c].key@);
                            }
                        }
                    }
                    return Some(&members[i].value);
                }
                i += 1;
            }
            None
        },
        _ => None,
    }
}

/// Returns the text of a string value.
pub fn as_str(j: Option<&Json>) -> (r: Option<&[u8]>)
    ensures
        match r {
            Some(s) => spec_as_str(deref_json(j)) == Some(s@),
            None => spec_as_str(deref_json(j)) is None,
        },
{
    match j {
        Some(Json::Str(s)) => Some(s.as_slice()),
        _ => None,
    }
}

/// Returns the value of a non-negative integer.
pub fn as_u64(j: Option<&Json>) -> (r: Option<u64>)
    ensures
        r == spec_as_u64(deref_json(j)),
{
    match j {
        Some(Json::PosInt(n)) => Some(*n),
        _ => None,
    }
}

/// Returns the value of an integer that fits `i64`.
pub fn as_i64(j: Option<&Json>) -> (r: Option<i64>)
    ensures
        r == spec_as_i64(deref_json(j)),
{
    match j {
        Some(Json::PosInt(n)) => if *n <= 0x7fff_ffff_ffff_ffff {
            Some(*n as i64)
        } else {
            None
        },
        Some(Json::NegInt(n)) => Some(*n),
        _ => None,
    }
}

/// Returns whether `j` is an object whose keys are exactly `keys`.
pub fn is_exact_object(j: &Json, keys: &[&[u8]]) -> (r: bool)
    requires
        json_well_formed(*j),
    ensures
        r == spec_exact_object(*j, keys@.map_values(|k: &[u8]| k@)),
{
    let ghost ks = keys@.map_values(|k: &[u8]| k@);
    match j {
        Json::Object(members) => {
            if members.len() != keys.len() {
                return false;
            }
            let mut i: usize = 0;
            while i < keys.len()
                invariant
                    i <= keys@.len(),
                    ks == keys@.map_values(|k: &[u8]| k@),
                    json_well_formed(*j),
                    *j == Json::Object(*members),
                    forall|k: int| 0 <= k < i ==> spec_get(*j, #[trigger] ks[k]) is Some,
                decreases keys@.len() - i,
            {
                if get(j, keys[i]).is_none() {
                    assert(ks[i as int] == keys@[i as int]@);
                    return false;
                }
                i += 1;
            }
            true
        },
        _ => false,
    }
}


/// The items of an array value.
pub open spec fn spec_as_array(j: Option<Json>) -> Option<Seq<Json>> {
    match j {
        Some(Json::Array(items)) => Some(items@),
        _ => None,
    }
}

/// The text stored under `key`.
pub open spec fn spec_str_field(j: Json, key: Seq<u8>) -> Option<Seq<u8>> {
    spec_as_str(spec_get(j, key))
}

/// The index stored under `key`: a non-negative integer that fits `usize`.
pub open spec fn spec_usize_field(j: Json, key: Seq<u8>) -> Option<usize> {
    match spec_as_u64(spec_get(j, key)) {
        Some(n) => if n <= usize::MAX { Some(n as usize) } else { None },
        None => None,
    }
}

/// Returns the items of an array value.
pub fn as_array(j: Option<&Json>) -> (r: Option<&Vec<Json>>)
    ensures
        match r {
            Some(items) => spec_as_array(deref_json(j)) == Some(items@),
            None => spec_as_array(deref_json(j)) is None,
        },
{
    match j {
        Some(Json::Array(items)) => Some(items),
        _ => None,
    }
}

/// Returns the text stored under `key`.
pub fn str_field<'a>(j: &'a Json, key: &[u8]) -> (r: Option<&'a [u8]>)
    requires
        json_well_formed(*j),
    ensures
        match r {
            Some(s) => spec_str_field(*j, key@) == Some(s@) && valid_utf8(s@),
            None => spec_str_field(*j, key@) is None,
        },
{
    let v = get(j, key);
    proof {
        if let Some(Json::Str(s)) = deref_json(v) {
            assert(json_well_formed(Json::Str(s)));
        }
    }
    as_str(v)
}

/// Returns the index stored under `key`.
pub fn usize_field(j: &Json, key: &[u8]) -> (r: Option<usize>)
    requires
        json_well_formed(*j),
    ensures
        r == spec_usize_field(*j, key@),
{
    match as_u64(get(j, key)) {
        Some(n) => if n <= usize::MAX as u64 { Some(n as usize) } else { None },
        None => None,
    }
}


/// Returns the items stored under `key` when they form an array.
pub fn array_field<'a>(j: &'a Json, key: &[u8]) -> (r: Option<&'a Vec<Json>>)
    requires
        json_well_formed(*j),
    ensures
        match r {
            Some(items) => spec_as_array(spec_get(*j, key@)) == Some(items@)
                && forall|i: int| 0 <= i < items@.len() ==> json_well_formed(#[trigger] items@[i]),
            None => spec_as_array(spec_get(*j, key@)) is None,
        },
{
    let v = get(j, key);
    match v {
        Some(Json::Array(items)) => {
            assert(json_well_formed(Json::Array(*items)));
            Some(items)
        },
        _ => None,
    }
}

} // verus!
