//! What a client may ask of the broker, and the wire form of the request.

use vstd::prelude::*;
use crate::json::{
    array_text, error_text, json_array_text, list_entry_texts, parse_list_object,
    parsed_list_object, ParseError, ToJson,
};
use crate::shape::{count_members, top_level_members};
use crate::string_set::StringSet;

verus! {

/// The kind of a client's request.
#[derive(Clone, Copy, Debug, PartialEq, Eq, Structural)]
pub enum ClientActions {
    /// Stop watching the named hashes.
    Drop,
    /// Start watching the named hashes.
    Request,
}

/// A request from a client: what to do, and to which hashes.
#[derive(Debug)]
pub struct ClientAction {
    pub action: ClientActions,
    pub hash_names: StringSet,
}

/// The key that stands for an action on the wire.
pub open spec fn action_key(action: ClientActions) -> Seq<char> {
    match action {
        ClientActions::Drop => "drop"@,
        ClientActions::Request => "request"@,
    }
}

/// The JSON text of a request: an object with the action as its only key and
/// the hash names as that key's value.
pub open spec fn action_text(action: ClientActions, hash_names: Set<Seq<char>>) -> Seq<char> {
    "{\""@ + action_key(action) + "\":"@ + json_array_text(hash_names) + "}"@
}

/// `r` is the right answer for a decoded object with these entries: the
/// request that the only entry stands for, or the error that says why there
/// is none.
pub open spec fn action_answer(
    entries: Seq<(Seq<char>, Seq<Seq<char>>)>,
    r: Result<ClientAction, ParseError>,
) -> bool {
    match r {
        Ok(request) => {
            &&& entries.len() == 1
            &&& request.wf()
            &&& action_key(request.action) == entries[0].0
            &&& request.hash_names@ == entries[0].1.to_set()
        },
        Err(ParseError::Missing) => entries.len() == 0,
        Err(ParseError::Duplicate) => entries.len() > 1,
        Err(ParseError::UnknownAction(key)) => {
            &&& entries.len() == 1
            &&& key@ == entries[0].0
            &&& key@ != "drop"@
            &&& key@ != "request"@
        },
        Err(ParseError::Malformed(_)) => false,
    }
}

/// `r` is the right answer for a decoded object with these entries, taken
/// from a text that writes `members` members: the error `Duplicate` where the
/// text writes more members than there are entries, which is so where it
/// gives a key more than once, and else the answer for the entries.
pub open spec fn decoded_answer(
    entries: Seq<(Seq<char>, Seq<Seq<char>>)>,
    members: nat,
    r: Result<ClientAction, ParseError>,
) -> bool {
    if members == entries.len() {
        action_answer(entries, r)
    } else {
        r matches Err(ParseError::Duplicate)
    }
}

/// `r` is the right answer to a text: the error `Malformed` where the text
/// decodes to no object, and else the answer for what it decodes to and the
/// members that it writes.
pub open spec fn parse_answer(text: Seq<char>, r: Result<ClientAction, ParseError>) -> bool {
    match parsed_list_object(text) {
        Some(entries) => decoded_answer(entries, top_level_members(text), r),
        None => r matches Err(ParseError::Malformed(_)),
    }
}

impl ClientAction {
    /// The set of hash names is well-formed.
    pub open spec fn wf(&self) -> bool {
        self.hash_names.wf()
    }

    /// The request that a decoded object stands for. The object must have
    /// exactly one entry, keyed `drop` or `request`; hash names given more
    /// than once count once.
    pub fn from_entries(entries: &Vec<(String, Vec<String>)>) -> (r: Result<
        ClientAction,
        ParseError,
    >)
        ensures
            action_answer(list_entry_texts(entries@), r),
    {
        if entries.len() == 0 {
            return Err(ParseError::Missing);
        }
        if entries.len() > 1 {
            return Err(ParseError::Duplicate);
        }
        let key = &entries[0].0;
        let action = if *key == String::from_str("drop") {
            ClientActions::Drop
        } else if *key == String::from_str("request") {
            ClientActions::Request
        } else {
            return Err(ParseError::UnknownAction(key.clone()));
        };
        Ok(ClientAction { action, hash_names: StringSet::from_names(&entries[0].1) })
    }

    /// The request that a decoded object stands for, where the text that it
    /// was decoded from writes `members` members. A decoder keeps one entry
    /// for each key; a text with more members than entries gave a key more
    /// than once, and is rejected like one with two keys.
    pub fn from_decoded(entries: &Vec<(String, Vec<String>)>, members: usize) -> (r: Result<
        ClientAction,
        ParseError,
    >)
        ensures
            decoded_answer(list_entry_texts(entries@), members as nat, r),
    {
        if members == entries.len() {
            ClientAction::from_entries(entries)
        } else {
            Err(ParseError::Duplicate)
        }
    }

    /// Decodes the JSON text of a request. The text must be an object with
    /// exactly one member.
    pub fn parse(text: &str) -> (r: Result<ClientAction, ParseError>)
        ensures
            parse_answer(text@, r),
    {
        match parse_list_object(text) {
            Ok(entries) => ClientAction::from_decoded(&entries, count_members(text)),
            Err(error) => Err(ParseError::Malformed(error_text(&error))),
        }
    }
}

impl ToJson for ClientAction {
    open spec fn encodable(&self) -> bool {
        self.wf()
    }

    open spec fn json_text(&self) -> Seq<char> {
        action_text(self.action, self.hash_names@)
    }

    /// The JSON text of this request.
    fn to_json(&self) -> (out: String) {
        let mut out = String::from_str("{\"");
        match self.action {
            ClientActions::Drop => out.append("drop"),
            ClientActions::Request => out.append("request"),
        }
        out.append("\":");
        proof {
            self.hash_names.lemma_names();
        }
        out.append(array_text(self.hash_names.name_list()).as_str());
        out.append("}");
        out
    }
}

} // verus!
