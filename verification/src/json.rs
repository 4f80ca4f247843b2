//! JSON text produced and consumed on the wire.
//!
//! Encoding and decoding of JSON itself is delegated to `serde_json`. The
//! functions in this module are the only places where that crate is called;
//! their contracts are assumed, not proved. Each encoder hands its input to
//! `serde_json` in a sorted standard collection, so the text it returns
//! depends on the contents alone and not on any storage order.

use vstd::prelude::*;
use std::collections::BTreeMap;
use std::collections::BTreeSet;
use crate::string_map::texts;

verus! {

/// The JSON string literal (quotes and escapes included) that `serde_json`
/// writes for a string.
pub uninterp spec fn json_string_text(s: Seq<char>) -> Seq<char>;

/// The compact JSON object that `serde_json` writes for a map from strings
/// to strings, fields in ascending key order.
pub uninterp spec fn json_object_text(fields: Map<Seq<char>, Seq<char>>) -> Seq<char>;

/// The compact JSON array that `serde_json` writes for a set of strings,
/// items in ascending order.
pub uninterp spec fn json_array_text(items: Set<Seq<char>>) -> Seq<char>;

/// What `serde_json` reads from a text as a JSON object whose values are
/// arrays of strings: the entries in ascending key order, or `None` where the
/// text is not such an object.
pub uninterp spec fn parsed_list_object(text: Seq<char>) -> Option<
    Seq<(Seq<char>, Seq<Seq<char>>)>,
>;

/// What `serde_json` reads from a text as a JSON object whose values are
/// objects from strings to strings: the entries in ascending key order, inner
/// and outer, or `None` where the text is not such an object.
pub uninterp spec fn parsed_map_object(text: Seq<char>) -> Option<
    Seq<(Seq<char>, Seq<(Seq<char>, Seq<char>)>)>,
>;

/// The map that sends the `i`-th key to the `i`-th value.
pub open spec fn pairing(keys: Seq<Seq<char>>, values: Seq<Seq<char>>) -> Map<
    Seq<char>,
    Seq<char>,
> {
    Map::new(|k: Seq<char>| keys.contains(k), |k: Seq<char>| values[keys.index_of(k)])
}

/// The text of each pair of a list, in order.
pub open spec fn pair_texts(pairs: Seq<(String, String)>) -> Seq<(Seq<char>, Seq<char>)> {
    Seq::new(pairs.len(), |i: int| (pairs[i].0@, pairs[i].1@))
}

/// The text of each entry of a list of named string lists, in order.
pub open spec fn list_entry_texts(entries: Seq<(String, Vec<String>)>) -> Seq<
    (Seq<char>, Seq<Seq<char>>),
> {
    Seq::new(entries.len(), |i: int| (entries[i].0@, texts(entries[i].1@)))
}

/// The text of each entry of a list of named pair lists, in order.
pub open spec fn map_entry_texts(entries: Seq<(String, Vec<(String, String)>)>) -> Seq<
    (Seq<char>, Seq<(Seq<char>, Seq<char>)>),
> {
    Seq::new(entries.len(), |i: int| (entries[i].0@, pair_texts(entries[i].1@)))
}

/// Makes `serde_json::Error`, the error of a failed decoding, known to the
/// verifier as a type of which nothing is visible.
#[verifier::external_type_specification]
#[verifier::external_body]
pub struct ExJsonError(serde_json::Error);

/// A value with a JSON text of its own.
pub trait ToJson {
    /// What must hold of the value for it to be encoded.
    spec fn encodable(&self) -> bool;

    /// The JSON text of the value.
    spec fn json_text(&self) -> Seq<char>;

    fn to_json(&self) -> (out: String)
        requires
            self.encodable(),
        ensures
            out@ == self.json_text(),
    ;
}

/// Why a text was not accepted as a frame.
#[derive(Debug)]
pub enum ParseError {
    /// The text is not JSON, or not JSON of the expected shape. The string
    /// is the decoder's own description.
    Malformed(String),
    /// The object has no entry where exactly one is expected.
    Missing,
    /// The object has more than one entry where exactly one is expected, be
    /// it under different keys or under one key given more than once.
    Duplicate,
    /// The object's only key, carried here, is not the name of an action.
    UnknownAction(String),
}

impl ParseError {
    /// The description of the error as a text.
    pub open spec fn description_text(&self) -> Seq<char> {
        match self {
            ParseError::Malformed(description) => description@,
            ParseError::Missing => "expected exactly one entry, found none"@,
            ParseError::Duplicate => "expected exactly one entry, found more"@,
            ParseError::UnknownAction(key) => "unknown action `"@ + key@
                + "`, expected `drop` or `request`"@,
        }
    }

    /// A description of the error for a human reader.
    pub fn description(&self) -> (out: String)
        ensures
            out@ == self.description_text(),
    {
        match self {
            ParseError::Malformed(description) => description.clone(),
            ParseError::Missing => String::from_str("expected exactly one entry, found none"),
            ParseError::Duplicate => String::from_str("expected exactly one entry, found more"),
            ParseError::UnknownAction(key) => {
                let mut out = String::from_str("unknown action `");
                out.append(key.as_str());
                out.append("`, expected `drop` or `request`");
                out
            },
        }
    }
}

/// Encodes one string as a JSON string literal.
///
/// Calls `serde_json::to_string` on a `String`. The contract only gives the
/// result a name: the same input always yields the same text. Serializing a
/// plain string does not fail.
#[verifier::external_body]
pub(crate) fn quote(s: &String) -> (out: String)
    ensures
        out@ == json_string_text(s@),
{
    match serde_json::to_string(s) {
        Ok(text) => text,
        Err(_) => String::new(),
    }
}

/// Encodes a map from strings to strings as a JSON object.
///
/// Calls `serde_json::to_string` on a `BTreeMap` built from the two lists,
/// one entry for each place of the lists; no key stands at two places. The
/// contract only gives the result a name, as a function of the map that the
/// lists stand for. Serializing a map with string keys does not fail.
#[verifier::external_body]
pub(crate) fn object_text(keys: &Vec<String>, values: &Vec<String>) -> (out: String)
    requires
        keys.len() == values.len(),
        texts(keys@).no_duplicates(),
    ensures
        out@ == json_object_text(pairing(texts(keys@), texts(values@))),
{
    let fields: BTreeMap<&String, &String> = keys.iter().zip(values.iter()).collect();
    match serde_json::to_string(&fields) {
        Ok(text) => text,
        Err(_) => String::new(),
    }
}

/// Encodes a set of strings as a JSON array.
///
/// Calls `serde_json::to_string` on a `BTreeSet` built from the list, which
/// holds no string twice, so that the set has one member for each string of
/// the list. The contract only gives the result a name, as a function of the
/// set of the list's strings. Serializing a set of strings does not fail.
#[verifier::external_body]
pub(crate) fn array_text(items: &Vec<String>) -> (out: String)
    requires
        texts(items@).no_duplicates(),
    ensures
        out@ == json_array_text(texts(items@).to_set()),
{
    let sorted: BTreeSet<&String> = items.iter().collect();
    match serde_json::to_string(&sorted) {
        Ok(text) => text,
        Err(_) => String::new(),
    }
}

/// Decodes a JSON object whose values are arrays of strings.
///
/// Calls `serde_json::from_str` at the type `BTreeMap<String, Vec<String>>`
/// and lists the entries in the map's order. The contract only names the
/// outcome: an error exactly where the name is `None`. Where the text repeats
/// a key, `serde_json` keeps the last value given for it, so the list can be
/// shorter than the text has members; callers hold its length against the
/// members counted in the text.
#[verifier::external_body]
pub(crate) fn parse_list_object(text: &str) -> (r: Result<
    Vec<(String, Vec<String>)>,
    serde_json::Error,
>)
    ensures
        match r {
            Ok(entries) => parsed_list_object(text@) == Some(list_entry_texts(entries@)),
            Err(_) => parsed_list_object(text@) is None,
        },
{
    match serde_json::from_str::<BTreeMap<String, Vec<String>>>(text) {
        Ok(map) => Ok(map.into_iter().collect()),
        Err(e) => Err(e),
    }
}

/// Decodes a JSON object whose values are objects from strings to strings.
///
/// Calls `serde_json::from_str` at the type
/// `BTreeMap<String, BTreeMap<String, String>>` and lists the entries, outer
/// and inner, in the maps' order. The contract only names the outcome: an
/// error exactly where the name is `None`. Where the text repeats a key,
/// `serde_json` keeps the last value given for it, so a list can be shorter
/// than the text has members; callers hold the outer list's length against
/// the members counted in the text.
#[verifier::external_body]
pub(crate) fn parse_map_object(text: &str) -> (r: Result<
    Vec<(String, Vec<(String, String)>)>,
    serde_json::Error,
>)
    ensures
        match r {
            Ok(entries) => parsed_map_object(text@) == Some(map_entry_texts(entries@)),
            Err(_) => parsed_map_object(text@) is None,
        },
{
    match serde_json::from_str::<BTreeMap<String, BTreeMap<String, String>>>(text) {
        Ok(map) => Ok(map.into_iter().map(|(k, v)| (k, v.into_iter().collect())).collect()),
        Err(e) => Err(e),
    }
}

/// The message of a decoding error, as `serde_json` words it.
///
/// Calls `to_string` on a `serde_json::Error`. Nothing is claimed of the
/// wording.
#[verifier::external_body]
pub(crate) fn error_text(error: &serde_json::Error) -> (out: String) {
    error.to_string()
}

} // verus!
