use redis_hash_broker::json::{ParseError, ToJson};
use redis_hash_broker::session::client_action::{ClientAction, ClientActions};
use redis_hash_broker::string_set::StringSet;

fn names_of(action: &ClientAction) -> Vec<String> {
    let mut out: Vec<String> = action.hash_names.name_list().clone();
    out.sort();
    out
}

fn strings(items: &[&str]) -> Vec<String> {
    items.iter().map(|s| s.to_string()).collect()
}

#[test]
fn action_parse_reads_a_request() {
    let action = ClientAction::parse(r#"{"request": ["h1", "h2"]}"#).expect("a request");
    assert_eq!(action.action, ClientActions::Request);
    assert_eq!(names_of(&action), strings(&["h1", "h2"]));
}

#[test]
fn action_parse_reads_a_drop() {
    let action = ClientAction::parse(r#"{"drop":    ["h1"]}"#).expect("a drop");
    assert_eq!(action.action, ClientActions::Drop);
    assert_eq!(names_of(&action), strings(&["h1"]));
}

#[test]
fn action_parse_collapses_repeated_names() {
    let action = ClientAction::parse(r#"{"request":["h","g","h","h"]}"#).expect("a request");
    assert_eq!(action.hash_names.len(), 2);
    assert_eq!(names_of(&action), strings(&["g", "h"]));
}

#[test]
fn action_parse_accepts_an_empty_list() {
    let action = ClientAction::parse(r#"{"drop":[]}"#).expect("a drop");
    assert_eq!(action.action, ClientActions::Drop);
    assert!(action.hash_names.is_empty());
}

#[test]
fn action_parse_rejects_an_unknown_key() {
    match ClientAction::parse(r#"{"drp":["h"]}"#) {
        Err(ParseError::UnknownAction(key)) => assert_eq!(key, "drp"),
        other => panic!("expected an unknown action, got {:?}", other),
    }
    assert!(matches!(
        ClientAction::parse(r#"{"Request":["h"]}"#),
        Err(ParseError::UnknownAction(_))
    ));
}

#[test]
fn action_parse_rejects_more_than_one_key() {
    assert!(matches!(
        ClientAction::parse(r#"{"request":["h"],"drop":["g"]}"#),
        Err(ParseError::Duplicate)
    ));
    assert!(matches!(
        ClientAction::parse(r#"{"request":["h"],"other":["g"]}"#),
        Err(ParseError::Duplicate)
    ));
}

#[test]
fn action_parse_rejects_an_empty_object() {
    assert!(matches!(ClientAction::parse("{}"), Err(ParseError::Missing)));
}

#[test]
fn action_parse_rejects_a_value_that_is_no_list_of_strings() {
    assert!(matches!(ClientAction::parse(r#"{"request":"h"}"#), Err(ParseError::Malformed(_))));
    assert!(matches!(ClientAction::parse(r#"{"request":null}"#), Err(ParseError::Malformed(_))));
    assert!(matches!(ClientAction::parse(r#"{"request":[1]}"#), Err(ParseError::Malformed(_))));
    assert!(matches!(ClientAction::parse(r#"{"request":{"h":"g"}}"#), Err(ParseError::Malformed(_))));
    assert!(matches!(ClientAction::parse(r#"{"request"}"#), Err(ParseError::Malformed(_))));
}

#[test]
fn action_parse_rejects_what_is_no_object() {
    assert!(matches!(ClientAction::parse(""), Err(ParseError::Malformed(_))));
    assert!(matches!(ClientAction::parse("hello"), Err(ParseError::Malformed(_))));
    assert!(matches!(ClientAction::parse(r#"["request"]"#), Err(ParseError::Malformed(_))));
    assert!(matches!(ClientAction::parse(r#"{"request":["h"]} tail"#), Err(ParseError::Malformed(_))));
}

#[test]
fn action_from_entries_decides_by_the_only_entry() {
    let request = vec![("request".to_string(), strings(&["a", "b", "a"]))];
    let action = ClientAction::from_entries(&request).expect("a request");
    assert_eq!(action.action, ClientActions::Request);
    assert_eq!(names_of(&action), strings(&["a", "b"]));
    let drop = vec![("drop".to_string(), strings(&[]))];
    assert_eq!(ClientAction::from_entries(&drop).expect("a drop").action, ClientActions::Drop);
    assert!(matches!(ClientAction::from_entries(&Vec::new()), Err(ParseError::Missing)));
    let two = vec![("drop".to_string(), strings(&[])), ("request".to_string(), strings(&[]))];
    assert!(matches!(ClientAction::from_entries(&two), Err(ParseError::Duplicate)));
    let unknown = vec![("dropp".to_string(), strings(&["a"]))];
    assert!(matches!(ClientAction::from_entries(&unknown), Err(ParseError::UnknownAction(_))));
}

#[test]
fn action_json_has_the_action_as_its_only_key() {
    let request = ClientAction {
        action: ClientActions::Request,
        hash_names: StringSet::from_names(&strings(&["two", "one"])),
    };
    assert_eq!(request.to_json(), r#"{"request":["one","two"]}"#);
    let drop = ClientAction {
        action: ClientActions::Drop,
        hash_names: StringSet::from_names(&strings(&["a\"b"])),
    };
    assert_eq!(drop.to_json(), r#"{"drop":["a\"b"]}"#);
}

#[test]
fn action_json_is_read_back_as_the_same_action() {
    let request = ClientAction {
        action: ClientActions::Drop,
        hash_names: StringSet::from_names(&strings(&["one", "two"])),
    };
    let back = ClientAction::parse(&request.to_json()).expect("an action");
    assert_eq!(back.action, ClientActions::Drop);
    assert_eq!(names_of(&back), strings(&["one", "two"]));
}

#[test]
fn error_descriptions_are_worded_per_kind() {
    assert_eq!(ParseError::Missing.description(), "expected exactly one entry, found none");
    assert_eq!(ParseError::Duplicate.description(), "expected exactly one entry, found more");
    assert_eq!(
        ParseError::UnknownAction("drp".to_string()).description(),
        "unknown action `drp`, expected `drop` or `request`"
    );
    assert_eq!(ParseError::Malformed("as given".to_string()).description(), "as given");
}

#[test]
fn malformed_description_is_the_decoder_s_message() {
    match ClientAction::parse("{") {
        Err(ParseError::Malformed(description)) => {
            assert_eq!(description, "EOF while parsing an object at line 1 column 1")
        }
        other => panic!("expected a malformed text, got {:?}", other),
    }
}

#[test]
fn action_parse_rejects_a_repeated_drop_key() {
    assert!(matches!(
        ClientAction::parse(r#"{"drop":["a"],"drop":["b"]}"#),
        Err(ParseError::Duplicate)
    ));
}

#[test]
fn action_parse_rejects_a_repeated_request_key() {
    assert!(matches!(
        ClientAction::parse(r#"{"request":["a"],"request":["b"]}"#),
        Err(ParseError::Duplicate)
    ));
    assert!(matches!(
        ClientAction::parse(" {\n \"request\" : [ \"a\" ] ,\n \"request\" : [ \"a\" ] } "),
        Err(ParseError::Duplicate)
    ));
    assert!(matches!(
        ClientAction::parse(r#"{"request":[],"request":[],"request":[]}"#),
        Err(ParseError::Duplicate)
    ));
}

#[test]
fn action_parse_rejects_a_repeated_unknown_key() {
    assert!(matches!(
        ClientAction::parse(r#"{"drp":["a"],"drp":["b"]}"#),
        Err(ParseError::Duplicate)
    ));
    assert!(matches!(ClientAction::parse(r#"{"":[],"":[]}"#), Err(ParseError::Duplicate)));
}

#[test]
fn action_parse_is_not_misled_by_what_stands_inside_strings() {
    let action = ClientAction::parse(r#"{"request":["a:b","{\"x\":1}","]","}",":","\\"]}"#)
        .expect("one member");
    assert_eq!(action.action, ClientActions::Request);
    assert_eq!(names_of(&action), strings(&[":", "\\", "]", "a:b", "{\"x\":1}", "}"]));
    match ClientAction::parse(r#"{"re\"quest\":[\"a\"],\"request":["b"]}"#) {
        Err(ParseError::UnknownAction(key)) => assert_eq!(key, "re\"quest\":[\"a\"],\"request"),
        other => panic!("expected an unknown action, got {:?}", other),
    }
    let names = ClientAction::parse("{\"drop\":[\"h\u{e9}\u{4e2d}:\u{1f600}\"]}").expect("one member");
    assert_eq!(names_of(&names), vec!["h\u{e9}\u{4e2d}:\u{1f600}".to_string()]);
}

#[test]
fn action_from_decoded_holds_the_entries_against_the_members() {
    let one = vec![("drop".to_string(), strings(&["b"]))];
    let action = ClientAction::from_decoded(&one, 1).expect("one member, one entry");
    assert_eq!(action.action, ClientActions::Drop);
    assert_eq!(names_of(&action), strings(&["b"]));
    assert!(matches!(ClientAction::from_decoded(&one, 2), Err(ParseError::Duplicate)));
    assert!(matches!(ClientAction::from_decoded(&one, 3), Err(ParseError::Duplicate)));
    assert!(matches!(ClientAction::from_decoded(&Vec::new(), 0), Err(ParseError::Missing)));
    let two = vec![("drop".to_string(), strings(&[])), ("request".to_string(), strings(&[]))];
    assert!(matches!(ClientAction::from_decoded(&two, 2), Err(ParseError::Duplicate)));
    let unknown = vec![("drp".to_string(), strings(&["a"]))];
    assert!(matches!(ClientAction::from_decoded(&unknown, 1), Err(ParseError::UnknownAction(_))));
    assert!(matches!(ClientAction::from_decoded(&unknown, 2), Err(ParseError::Duplicate)));
}
