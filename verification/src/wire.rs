//! Trusted boundary to serde_json.
//!
//! Both phases exchange observations as JSON documents with the fields
//! `magnitude` (number), `location` (string) and `time` (integer), and the
//! execution phase reads a GeoJSON document.  serde_json does the byte-level
//! JSON work behind the three wrappers here; everything downstream of their
//! contracts is verified.  serde_json is built with its arbitrary-precision
//! numbers, so a number's decimal text crosses this boundary verbatim.
use crate::decimal::json_number_wf;
use serde_json::Value;
use vstd::prelude::*;

verus! {

/// The three wire fields serde_json reads out of reveal bytes: the
/// magnitude's decimal text, the location, and the time.  `None` when the
/// bytes are not such a document.  JSON parsing is a function of the bytes
/// alone.
pub uninterp spec fn wire_fields_of(b: Seq<u8>) -> Option<(Seq<u8>, Seq<char>, i64)>;

/// The wire document serialized from the three fields; a function of the
/// fields alone.
pub uninterp spec fn encoded_wire_of(mag: Seq<u8>, location: Seq<char>, time: i64) -> Seq<u8>;

/// The first feature of a GeoJSON source document, re-serialized: `None`
/// when the bytes are not JSON or hold no `features` array, `Some(None)`
/// when the array is empty.
pub uninterp spec fn geo_first_of(b: Seq<u8>) -> Option<Option<Seq<u8>>>;

/// The fields serde_json finds in a serialized feature: its optional
/// `mag` decimal text, `place` string and integer `time` properties.
pub uninterp spec fn feature_fields_of(b: Seq<u8>) -> (
    Option<Seq<u8>>,
    Option<Seq<char>>,
    Option<i64>,
);

/// The executable wire fields hold exactly the spec-level fields.
pub open spec fn wire_fields_match(
    r: Option<(Vec<u8>, String, i64)>,
    g: Option<(Seq<u8>, Seq<char>, i64)>,
) -> bool {
    match (r, g) {
        (Some((m, l, t)), Some((ms, ls, ts))) => m@ == ms && l@ == ls && t == ts,
        (None, None) => true,
        _ => false,
    }
}

pub open spec fn opt_bytes_match(a: Option<Vec<u8>>, b: Option<Seq<u8>>) -> bool {
    match (a, b) {
        (Some(x), Some(y)) => x@ == y,
        (None, None) => true,
        _ => false,
    }
}

pub open spec fn opt_string_match(a: Option<String>, b: Option<Seq<char>>) -> bool {
    match (a, b) {
        (Some(x), Some(y)) => x@ == y,
        (None, None) => true,
        _ => false,
    }
}

/// The executable first-feature extract holds exactly the spec-level one.
pub open spec fn geo_first_match(
    r: Option<Option<Vec<u8>>>,
    g: Option<Option<Seq<u8>>>,
) -> bool {
    match (r, g) {
        (None, None) => true,
        (Some(fr), Some(fg)) => opt_bytes_match(fr, fg),
        _ => false,
    }
}

/// The executable feature fields hold exactly the spec-level ones.
pub open spec fn feature_fields_match(
    r: (Option<Vec<u8>>, Option<String>, Option<i64>),
    g: (Option<Seq<u8>>, Option<Seq<char>>, Option<i64>),
) -> bool {
    opt_bytes_match(r.0, g.0) && opt_string_match(r.1, g.1) && r.2 == g.2
}

/// Relies on serde_json::from_slice and serde_json::Value: returns the wire
/// fields exactly when the bytes are a JSON object holding a number under
/// "magnitude" (handed on as its decimal text, which the
/// arbitrary-precision serde_json::Number keeps verbatim), a string under
/// "location", and an i64 integer under "time".
#[verifier::external_body]
pub(crate) fn decode_wire_fields(bytes: &Vec<u8>) -> (r: Option<(Vec<u8>, String, i64)>)
    ensures
        wire_fields_match(r, wire_fields_of(bytes@)),
{
    let v: Value = match serde_json::from_slice(bytes.as_slice()) { Ok(v) => v, Err(_) => return None };
    let m = match v.get("magnitude") { Some(Value::Number(n)) => n.as_str().as_bytes().to_vec(), _ => return None };
    let l = match v.get("location") { Some(Value::String(s)) => s.clone(), _ => return None };
    let t = match v.get("time") { Some(Value::Number(n)) => n.as_i64(), _ => None };
    match t { Some(t) => Some((m, l, t)), None => None }
}

/// Relies on serde_json::to_string for JSON string escaping of the
/// location, and on serde_json::from_slice reading the document back: JSON
/// strings round-trip through escaping, and an arbitrary-precision number
/// keeps its decimal text verbatim, so when the magnitude text is a JSON
/// number the document decodes to exactly the three fields.  The one
/// exception is the token `-0`: serde_json's parser re-renders plain
/// integer tokens through u64/i64, which maps `-0` to `0`, so that token
/// is excluded from the guard.
#[verifier::external_body]
pub(crate) fn encode_wire_fields(mag: &Vec<u8>, location: &String, time: i64) -> (r: Vec<u8>)
    ensures
        r@ == encoded_wire_of(mag@, location@, time),
        json_number_wf(mag@) && mag@ != seq![45u8, 48u8] ==> wire_fields_of(r@) == Some(
            (mag@, location@, time),
        ),
{
    let l = serde_json::to_string(location).unwrap_or_default();
    let m = String::from_utf8_lossy(mag.as_slice()).into_owned();
    format!("{{\"location\":{},\"magnitude\":{},\"time\":{}}}", l, m, time).into_bytes()
}

/// Relies on serde_json::from_slice and serde_json::to_vec: hands the
/// first entry of the document's "features" array on as bytes, telling a
/// document without such an array (None) from one whose array is empty
/// (Some(None)).
#[verifier::external_body]
pub(crate) fn first_feature(bytes: &Vec<u8>) -> (r: Option<Option<Vec<u8>>>)
    ensures
        geo_first_match(r, geo_first_of(bytes@)),
{
    let v: Value = match serde_json::from_slice(bytes) { Ok(v) => v, Err(_) => return None };
    let feats = match v.get("features") { Some(Value::Array(a)) => a, _ => return None };
    match feats.first() { Some(f) => Some(Some(serde_json::to_vec(f).unwrap_or_default())), None => Some(None) }
}

/// Relies on serde_json::from_slice and serde_json::Value (its "/"-path
/// pointer lookup): reads a feature's properties, handing each of "mag"
/// (as its decimal text, kept verbatim by the arbitrary-precision number),
/// "place" and integer "time" on when present with the expected type.
#[verifier::external_body]
pub(crate) fn feature_fields(bytes: &Vec<u8>) -> (r: (
    Option<Vec<u8>>,
    Option<String>,
    Option<i64>,
))
    ensures
        feature_fields_match(r, feature_fields_of(bytes@)),
{
    let f0: Value = match serde_json::from_slice(bytes) { Ok(v) => v, Err(_) => return (None, None, None) };
    let mag = match f0.pointer("/properties/mag") { Some(Value::Number(n)) => Some(Vec::from(n.as_str())), _ => None };
    let place = match f0.pointer("/properties/place") { Some(Value::String(s)) => Some(s.clone()), _ => None };
    let time = match f0.pointer("/properties/time") { Some(Value::Number(n)) => n.as_i64(), _ => None };
    (mag, place, time)
}

} // verus!
