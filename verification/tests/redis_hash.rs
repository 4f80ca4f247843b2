use redis_hash_broker::json::{ParseError, ToJson};
use redis_hash_broker::server::client::JsonMessage;
use redis_hash_broker::server::redis_hash::{RedisHash, RedisHashContents, RedisHashContentsUpdate};

fn contents(pairs: &[(&str, &str)]) -> RedisHashContents {
    let owned: Vec<(String, String)> =
        pairs.iter().map(|(k, v)| (k.to_string(), v.to_string())).collect();
    RedisHashContents::from_pairs(&owned)
}

fn sorted_pairs(c: &RedisHashContents) -> Vec<(String, String)> {
    let mut out = Vec::new();
    for i in 0..c.len() {
        out.push((c.field_at(i).clone(), c.value_at(i).clone()));
    }
    out.sort();
    out
}

fn sorted_names(update: &RedisHashContentsUpdate) -> Vec<String> {
    let mut out: Vec<String> = update.delete().name_list().clone();
    out.sort();
    out
}

fn owned(pairs: &[(&str, &str)]) -> Vec<(String, String)> {
    pairs.iter().map(|(k, v)| (k.to_string(), v.to_string())).collect()
}

#[test]
fn contents_from_pairs_keeps_last_value_of_a_repeated_field() {
    let c = contents(&[("a", "1"), ("b", "2"), ("a", "3")]);
    assert_eq!(c.len(), 2);
    assert_eq!(c.get(&"a".to_string()), Some(&"3".to_string()));
    assert_eq!(c.get(&"b".to_string()), Some(&"2".to_string()));
    assert_eq!(c.get(&"c".to_string()), None);
    assert!(c.contains_field(&"a".to_string()));
    assert!(!c.contains_field(&"z".to_string()));
}

#[test]
fn contents_insert_and_remove_report_the_old_value() {
    let mut c = RedisHashContents::new();
    assert!(c.is_empty());
    assert_eq!(c.insert("k".to_string(), "v1".to_string()), None);
    assert_eq!(c.insert("k".to_string(), "v2".to_string()), Some("v1".to_string()));
    assert!(!c.is_empty());
    assert_eq!(c.remove(&"k".to_string()), Some("v2".to_string()));
    assert_eq!(c.remove(&"k".to_string()), None);
    assert!(c.is_empty());
}

#[test]
fn contents_clone_is_equal_and_independent() {
    let source = contents(&[("a", "1"), ("b", "2")]);
    let mut copy = source.clone();
    assert_eq!(sorted_pairs(&copy), owned(&[("a", "1"), ("b", "2")]));
    copy.insert("a".to_string(), "9".to_string());
    assert_eq!(source.get(&"a".to_string()), Some(&"1".to_string()));
}

#[test]
fn diff_of_equal_contents_is_no_change() {
    let x = contents(&[("a", "1"), ("b", "2")]);
    let same_in_other_order = contents(&[("b", "2"), ("a", "1")]);
    assert!(RedisHashContentsUpdate::from(&x, &x).is_none());
    assert!(RedisHashContentsUpdate::from(&x, &same_in_other_order).is_none());
    let empty = RedisHashContents::new();
    assert!(RedisHashContentsUpdate::from(&empty, &empty).is_none());
}

#[test]
fn diff_against_empty_upserts_everything() {
    let x = contents(&[("a", "1"), ("b", "2")]);
    let empty = RedisHashContents::new();
    let update = RedisHashContentsUpdate::from(&x, &empty).expect("non-empty against empty");
    assert_eq!(sorted_pairs(update.upsert()), owned(&[("a", "1"), ("b", "2")]));
    assert!(update.delete().is_empty());
}

#[test]
fn diff_to_empty_deletes_everything() {
    let x = contents(&[("a", "1"), ("b", "2")]);
    let empty = RedisHashContents::new();
    let update = RedisHashContentsUpdate::from(&empty, &x).expect("empty against non-empty");
    assert!(update.upsert().is_empty());
    assert_eq!(sorted_names(&update), vec!["a".to_string(), "b".to_string()]);
}

#[test]
fn diff_reports_changed_new_and_deleted_fields_only() {
    let previous = contents(&[("same", "s"), ("changed", "old"), ("gone", "g")]);
    let current = contents(&[("same", "s"), ("changed", "new"), ("added", "a")]);
    let update = RedisHashContentsUpdate::from(&current, &previous).expect("they differ");
    assert_eq!(sorted_pairs(update.upsert()), owned(&[("added", "a"), ("changed", "new")]));
    assert_eq!(sorted_names(&update), vec!["gone".to_string()]);
}

#[test]
fn diff_compares_values_exactly() {
    let previous = contents(&[("a", "1")]);
    let current = contents(&[("a", "1 ")]);
    let update = RedisHashContentsUpdate::from(&current, &previous).expect("they differ");
    assert_eq!(sorted_pairs(update.upsert()), owned(&[("a", "1 ")]));
    assert!(update.delete().is_empty());
}

#[test]
fn applying_the_diff_to_previous_gives_current() {
    let cases: Vec<(RedisHashContents, RedisHashContents)> = vec![
        (contents(&[("a", "2"), ("b", "3")]), contents(&[("a", "1")])),
        (contents(&[("a", "2")]), contents(&[("a", "2"), ("b", "3")])),
        (contents(&[("x", "1"), ("y", "2")]), contents(&[("p", "1"), ("y", "0")])),
        (RedisHashContents::new(), contents(&[("p", "1")])),
        (contents(&[("p", "1")]), RedisHashContents::new()),
    ];
    for (current, previous) in cases {
        let update = RedisHashContentsUpdate::from(&current, &previous).expect("they differ");
        let mut rebuilt = previous.clone();
        rebuilt.apply_update(&update);
        assert_eq!(sorted_pairs(&rebuilt), sorted_pairs(&current));
    }
}

#[test]
fn contents_json_lists_fields_in_key_order() {
    let c = contents(&[("b", "2"), ("a", "1"), ("c", "3")]);
    assert_eq!(c.to_json(), r#"{"a":"1","b":"2","c":"3"}"#);
    assert_eq!(RedisHashContents::new().to_json(), "{}");
}

#[test]
fn contents_json_agrees_with_the_encoder_on_a_map() {
    let c = contents(&[("k\"1", "line\nbreak"), ("é", "\\")]);
    let mut map = std::collections::BTreeMap::new();
    map.insert("k\"1".to_string(), "line\nbreak".to_string());
    map.insert("é".to_string(), "\\".to_string());
    assert_eq!(c.to_json(), serde_json::to_string(&map).unwrap());
}

#[test]
fn delta_json_has_upsert_then_delete() {
    let previous = contents(&[("a", "1")]);
    let current = contents(&[("b", "3"), ("a", "2")]);
    let update = RedisHashContentsUpdate::from(&current, &previous).unwrap();
    assert_eq!(update.to_json(), r#"{"upsert":{"a":"2","b":"3"},"delete":[]}"#);
}

#[test]
fn delta_json_lists_deleted_fields_in_order() {
    let previous = contents(&[("z", "1"), ("b", "1"), ("m", "1"), ("keep", "1")]);
    let current = contents(&[("keep", "1")]);
    let update = RedisHashContentsUpdate::from(&current, &previous).unwrap();
    assert_eq!(update.to_json(), r#"{"upsert":{},"delete":["b","m","z"]}"#);
}

#[test]
fn snapshot_json_has_the_hash_name_as_its_only_key() {
    let hash = RedisHash { name: "h1".to_string(), contents: contents(&[("field2", "v2"), ("field1", "v1")]) };
    assert_eq!(hash.to_json(), r#"{"h1":{"field1":"v1","field2":"v2"}}"#);
}

#[test]
fn snapshot_json_escapes_the_hash_name() {
    let hash = RedisHash { name: "a\"b\\c".to_string(), contents: RedisHashContents::new() };
    assert_eq!(hash.to_json(), r#"{"a\"b\\c":{}}"#);
}

#[test]
fn json_message_carries_the_json_text() {
    let hash = RedisHash { name: "h".to_string(), contents: contents(&[("a", "1")]) };
    assert_eq!(JsonMessage::new(&hash).string, r#"{"h":{"a":"1"}}"#);
    assert_eq!(JsonMessage::from(hash).string, r#"{"h":{"a":"1"}}"#);
    let update =
        RedisHashContentsUpdate::from(&contents(&[("a", "2")]), &contents(&[("a", "1")])).unwrap();
    assert_eq!(JsonMessage::from(update).string, r#"{"upsert":{"a":"2"},"delete":[]}"#);
}

#[test]
fn snapshot_parse_reads_back_what_was_written() {
    let hash = RedisHash { name: "h\"1".to_string(), contents: contents(&[("b", "2"), ("a", "1\n")]) };
    let back = RedisHash::parse(&hash.to_json()).expect("a snapshot");
    assert_eq!(back.name, "h\"1");
    assert_eq!(sorted_pairs(&back.contents), owned(&[("a", "1\n"), ("b", "2")]));
}

#[test]
fn snapshot_parse_accepts_exactly_one_entry() {
    let one = RedisHash::parse(r#" { "h" : { "a" : "1" } } "#).expect("one entry");
    assert_eq!(one.name, "h");
    assert_eq!(sorted_pairs(&one.contents), owned(&[("a", "1")]));
    assert!(matches!(RedisHash::parse("{}"), Err(ParseError::Missing)));
    assert!(matches!(
        RedisHash::parse(r#"{"h":{"a":"1"},"g":{}}"#),
        Err(ParseError::Duplicate)
    ));
}

#[test]
fn snapshot_parse_rejects_other_shapes() {
    assert!(matches!(RedisHash::parse(r#"{"h":["a"]}"#), Err(ParseError::Malformed(_))));
    assert!(matches!(RedisHash::parse(r#"{"h":{"a":1}}"#), Err(ParseError::Malformed(_))));
    assert!(matches!(RedisHash::parse(r#"["h"]"#), Err(ParseError::Malformed(_))));
    assert!(matches!(RedisHash::parse("not json"), Err(ParseError::Malformed(_))));
    assert!(matches!(RedisHash::parse(r#"{"h":{}} x"#), Err(ParseError::Malformed(_))));
}

#[test]
fn snapshot_from_entries_takes_the_only_entry() {
    let entries = vec![("h".to_string(), owned(&[("a", "1"), ("a", "2")]))];
    let hash = RedisHash::from_entries(&entries).expect("one entry");
    assert_eq!(hash.name, "h");
    assert_eq!(sorted_pairs(&hash.contents), owned(&[("a", "2")]));
    assert!(matches!(RedisHash::from_entries(&Vec::new()), Err(ParseError::Missing)));
    let two = vec![("h".to_string(), Vec::new()), ("g".to_string(), Vec::new())];
    assert!(matches!(RedisHash::from_entries(&two), Err(ParseError::Duplicate)));
}

#[test]
fn snapshot_parse_rejects_a_repeated_hash_name() {
    assert!(matches!(
        RedisHash::parse(r#"{"h":{"a":"1"},"h":{"a":"2"}}"#),
        Err(ParseError::Duplicate)
    ));
    assert!(matches!(RedisHash::parse(r#"{"h":{},"h":{}}"#), Err(ParseError::Duplicate)));
    assert!(matches!(
        RedisHash::parse(" { \"h\" : { \"a\" : \"1\" } , \"h\" : { } } "),
        Err(ParseError::Duplicate)
    ));
}

#[test]
fn snapshot_parse_keeps_the_last_value_of_a_repeated_field() {
    let hash = RedisHash::parse(r#"{"h":{"a":"1","b":"2","a":"3"}}"#).expect("one hash");
    assert_eq!(hash.name, "h");
    assert_eq!(sorted_pairs(&hash.contents), owned(&[("a", "3"), ("b", "2")]));
}

#[test]
fn snapshot_parse_is_not_misled_by_what_stands_inside_strings() {
    let hash = RedisHash::parse(r#"{"h:1":{"a:b":"c:d","x":"{","y\"":"\\\":"}}"#).expect("one hash");
    assert_eq!(hash.name, "h:1");
    assert_eq!(
        sorted_pairs(&hash.contents),
        owned(&[("a:b", "c:d"), ("x", "{"), ("y\"", "\\\":")])
    );
}

#[test]
fn snapshot_from_decoded_holds_the_entries_against_the_members() {
    let one = vec![("h".to_string(), owned(&[("a", "2")]))];
    let hash = RedisHash::from_decoded(&one, 1).expect("one member, one entry");
    assert_eq!(hash.name, "h");
    assert_eq!(sorted_pairs(&hash.contents), owned(&[("a", "2")]));
    assert!(matches!(RedisHash::from_decoded(&one, 2), Err(ParseError::Duplicate)));
    assert!(matches!(RedisHash::from_decoded(&Vec::new(), 0), Err(ParseError::Missing)));
    let two = vec![("h".to_string(), Vec::new()), ("g".to_string(), Vec::new())];
    assert!(matches!(RedisHash::from_decoded(&two, 2), Err(ParseError::Duplicate)));
}
