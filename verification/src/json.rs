//! The JSON text layer.
//!
//! Records and messages are JSON texts. Reading and writing JSON is left to
//! `serde_json`; this module holds the few calls that the crate makes into it
//! and gives a name to what each of them computes. Of these calls nothing is
//! proved: the contract of each only says that its result is the named
//! function of its arguments. What the crate writes with them it reads back
//! before it relies on it.
//!
//! The module also holds the search in a list of named values, which is what
//! a JSON object is read into.
use std::collections::BTreeMap;
use vstd::prelude::*;

verus! {

/// The JSON string literal that `serde_json::to_string` writes for the string
/// `s`: `s` between double quotes, with its quotes, backslashes and control
/// characters escaped.
pub uninterp spec fn json_string_text(s: Seq<char>) -> Seq<char>;

/// The string that `serde_json::from_slice` reads from `text` as a `String`,
/// if `text` is one JSON string literal.
pub uninterp spec fn json_string_value(text: Seq<u8>) -> Option<Seq<char>>;

/// The number that `serde_json::from_slice` reads from `text` as a `u8`, if
/// `text` is one JSON number that a `u8` holds.
pub uninterp spec fn json_u8_value(text: Seq<u8>) -> Option<u8>;

/// The members that `serde_json::from_slice` reads from `text` as a map from
/// strings to raw values, if `text` is one JSON object: each member's name
/// with the text of its value as it stands in `text`, in the order of the
/// names.
pub uninterp spec fn json_object_members(text: Seq<u8>) -> Option<Seq<(Seq<char>, Seq<char>)>>;

/// The views of a list of pairs of strings.
pub open spec fn pairs_view(pairs: Seq<(String, String)>) -> Seq<(Seq<char>, Seq<char>)> {
    Seq::new(pairs.len(), |i: int| (pairs[i].0@, pairs[i].1@))
}

/// Calls `serde_json::to_string` on a string slice. The contract claims that
/// the text returned depends on the characters of `s` alone.
#[verifier::external_body]
pub(crate) fn quote(s: &str) -> (text: String)
    ensures
        text@ == json_string_text(s@),
{
    serde_json::to_string(s).unwrap_or_default()
}

/// Calls `serde_json::from_slice` for a `String`. The contract claims that
/// success and the string returned depend on the bytes of `text` alone; of
/// the error, which is handed out as its text, it claims nothing.
#[verifier::external_body]
pub(crate) fn parse_string(text: &[u8]) -> (r: Result<String, String>)
    ensures
        json_string_value(text@) == match r {
            Ok(s) => Some(s@),
            Err(_) => None,
        },
{
    serde_json::from_slice::<String>(text).map_err(|e| e.to_string())
}

/// Calls `serde_json::from_slice` for a `u8`. The contract claims that
/// success and the number returned depend on the bytes of `text` alone; of
/// the error, which is handed out as its text, it claims nothing.
#[verifier::external_body]
pub(crate) fn parse_u8(text: &[u8]) -> (r: Result<u8, String>)
    ensures
        json_u8_value(text@) == match r {
            Ok(n) => Some(n),
            Err(_) => None,
        },
{
    serde_json::from_slice::<u8>(text).map_err(|e| e.to_string())
}

/// Calls `serde_json::from_slice` for a `BTreeMap` from `String` to
/// `Box<RawValue>` and hands the map out as a list of pairs. The contract
/// claims that success and the pairs returned depend on the bytes of `text`
/// alone; of the error, which is handed out as its text, it claims nothing.
#[verifier::external_body]
pub(crate) fn parse_members(text: &[u8]) -> (r: Result<Vec<(String, String)>, String>)
    ensures
        json_object_members(text@) == match r {
            Ok(members) => Some(pairs_view(members@)),
            Err(_) => None,
        },
{
    let parsed =
        serde_json::from_slice::<BTreeMap<String, Box<serde_json::value::RawValue>>>(text)
            .map_err(|e| e.to_string())?;
    Ok(parsed.into_iter().map(|(name, raw)| (name, raw.get().to_owned())).collect())
}

/// The value of the first pair of `param` that is named `name`.
pub open spec fn lookup(param: Seq<(Seq<char>, Seq<char>)>, name: Seq<char>) -> Option<Seq<char>>
    decreases param.len(),
{
    if param.len() == 0 {
        None
    } else if param[0].0 == name {
        Some(param[0].1)
    } else {
        lookup(param.drop_first(), name)
    }
}

/// The value of the first pair of `param` that is named `name`.
pub fn find<'a>(param: &'a Vec<(String, String)>, name: &str) -> (value: Option<&'a String>)
    ensures
        lookup(pairs_view(param@), name@) == match value {
            Some(v) => Some(v@),
            None => None,
        },
{
    let ghost pairs = pairs_view(param@);
    assert(pairs.skip(0) == pairs);
    let wanted = name.to_owned();
    let mut i: usize = 0;
    while i < param.len()
        invariant
            i <= param.len(),
            wanted@ == name@,
            pairs == pairs_view(param@),
            lookup(pairs, name@) == lookup(pairs.skip(i as int), name@),
        decreases param.len() - i,
    {
        if param[i].0 == wanted {
            return Some(&param[i].1);
        }
        assert(pairs.skip(i as int).drop_first() == pairs.skip(i + 1));
        i = i + 1;
    }
    None
}

/// A list of one pair yields that pair's value under its name.
pub proof fn lemma_lookup_single(name: Seq<char>, value: Seq<char>)
    ensures
        lookup(seq![(name, value)], name) == Some(value),
{
}

} // verus!
