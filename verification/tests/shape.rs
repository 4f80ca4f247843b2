use redis_hash_broker::shape::count_members;

#[test]
fn members_are_the_colons_directly_inside_the_outermost_object() {
    assert_eq!(count_members(""), 0);
    assert_eq!(count_members("{}"), 0);
    assert_eq!(count_members(r#"{"a":[]}"#), 1);
    assert_eq!(count_members(r#"{"a":[],"b":[]}"#), 2);
    assert_eq!(count_members(r#"{"a":[],"a":[]}"#), 2);
    assert_eq!(count_members(" {\n\t\"a\" : [ \"x\" , \"y\" ] ,\r\n \"a\" : [ ] } "), 2);
}

#[test]
fn members_of_inner_objects_are_not_counted() {
    assert_eq!(count_members(r#"{"h":{"a":"1","b":"2","a":"3"}}"#), 1);
    assert_eq!(count_members(r#"{"h":{"a":{"b":{"c":"d"}}},"g":[{"x":"y"}]}"#), 2);
    assert_eq!(count_members(r#"[{"a":"1"},{"b":"2"}]"#), 0);
}

#[test]
fn what_stands_inside_strings_is_not_counted() {
    assert_eq!(count_members(r#"{"a:b":["c:d","{","}","[","]"]}"#), 1);
    assert_eq!(count_members(r#"{"a\"":["\\",":"]}"#), 1);
    assert_eq!(count_members(r#"{"a\\":[],"b\\\"":[]}"#), 2);
    assert_eq!(count_members(r#"{"":":["\"]}"#), 1);
    assert_eq!(count_members("{\"\u{e9}\u{4e2d}\u{1f600}:\":[\"\u{e9}:\"]}"), 1);
}
