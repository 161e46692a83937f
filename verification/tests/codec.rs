use tagfind::codec::ParseError;
use tagfind::store::TagDatabase;

#[test]
fn empty_database_serializes_exactly() {
    let db = TagDatabase::new();
    assert_eq!(db.to_json(), "{\"tags\":{}}");
}

#[test]
fn one_entry_serializes_exactly() {
    let mut db = TagDatabase::new();
    assert_eq!(db.add_tag("work".to_string(), "a.txt".to_string(), true), Ok(true));
    assert_eq!(db.to_json(), "{\"tags\":{\"work\":[\"a.txt\"]}}");
}

#[test]
fn two_entries_serialize_in_insertion_order() {
    let mut db = TagDatabase::new();
    assert_eq!(db.add_tag("b".to_string(), "1.txt".to_string(), true), Ok(true));
    assert_eq!(db.add_tag("a".to_string(), "2.txt".to_string(), true), Ok(true));
    assert_eq!(db.add_tag("b".to_string(), "3.txt".to_string(), true), Ok(true));
    assert_eq!(db.to_json(), "{\"tags\":{\"b\":[\"1.txt\",\"3.txt\"],\"a\":[\"2.txt\"]}}");
}

#[test]
fn quotes_and_backslashes_are_escaped() {
    let mut db = TagDatabase::new();
    assert_eq!(db.add_tag("a\"b".to_string(), "c\\d".to_string(), true), Ok(true));
    assert_eq!(db.to_json(), "{\"tags\":{\"a\\\"b\":[\"c\\\\d\"]}}");
    let back = TagDatabase::from_json(&db.to_json()).expect("canonical text should parse");
    let files = back.find_by_tag("a\"b").expect("escaped tag should survive");
    assert_eq!(files[0], "c\\d");
}

#[test]
fn round_trip_reproduces_database() {
    let mut db = TagDatabase::new();
    assert_eq!(db.add_tag("work".to_string(), "a.txt".to_string(), true), Ok(true));
    assert_eq!(db.add_tag("work".to_string(), "b.txt".to_string(), true), Ok(true));
    assert_eq!(db.add_tag("home".to_string(), "c.txt".to_string(), true), Ok(true));
    let text = db.to_json();
    let back = TagDatabase::from_json(&text).expect("canonical text should parse");
    assert_eq!(back.to_json(), text);
    let files = back.find_by_tag("work").expect("tag should survive the trip");
    assert_eq!(files.len(), 2);
    assert_eq!(files[0], "a.txt");
    assert_eq!(files[1], "b.txt");
    let files = back.find_by_tag("home").expect("tag should survive the trip");
    assert_eq!(files[0], "c.txt");
}

#[test]
fn parses_empty_document() {
    let db = TagDatabase::from_json("{\"tags\":{}}").expect("empty document should parse");
    assert!(db.find_by_tag("anything").is_none());
    assert_eq!(db.to_json(), "{\"tags\":{}}");
}

#[test]
fn rejects_malformed_text() {
    assert!(matches!(TagDatabase::from_json(""), Err(ParseError::Malformed)));
    assert!(matches!(TagDatabase::from_json("{}"), Err(ParseError::Malformed)));
    assert!(matches!(TagDatabase::from_json("{\"tags\":{"), Err(ParseError::Malformed)));
    assert!(matches!(TagDatabase::from_json("{\"tags\":[]}"), Err(ParseError::Malformed)));
    assert!(matches!(
        TagDatabase::from_json("{\"tags\":{\"a\":[\"x\"]}"),
        Err(ParseError::Malformed)
    ));
    assert!(matches!(TagDatabase::from_json("{\"tags\":{}} "), Err(ParseError::Malformed)));
    assert!(matches!(
        TagDatabase::from_json("{\"tags\":{\"a\":\"x\"}}"),
        Err(ParseError::Malformed)
    ));
    assert!(matches!(
        TagDatabase::from_json("{\"tags\":{\"a\":[\"x\"],}}"),
        Err(ParseError::Malformed)
    ));
}

#[test]
fn rejects_unescaped_control_of_grammar() {
    assert!(matches!(
        TagDatabase::from_json("{\"tags\":{\"a\\x\":[\"y\"]}}"),
        Err(ParseError::Malformed)
    ));
}

#[test]
fn rejects_empty_file_list() {
    assert!(matches!(TagDatabase::from_json("{\"tags\":{\"a\":[]}}"), Err(ParseError::Invalid)));
}

#[test]
fn rejects_repeated_tag() {
    assert!(matches!(
        TagDatabase::from_json("{\"tags\":{\"a\":[\"x\"],\"a\":[\"y\"]}}"),
        Err(ParseError::Invalid)
    ));
}

#[test]
fn rejects_repeated_file_under_one_tag() {
    assert!(matches!(
        TagDatabase::from_json("{\"tags\":{\"a\":[\"x\",\"x\"]}}"),
        Err(ParseError::Invalid)
    ));
}

#[test]
fn parses_handwritten_document() {
    let db = TagDatabase::from_json("{\"tags\":{\"work\":[\"a.txt\",\"b.txt\"],\"home\":[\"c.txt\"]}}")
        .expect("document should parse");
    let files = db.find_by_tag("work").expect("tag should be present");
    assert_eq!(files.len(), 2);
    assert_eq!(files[0], "a.txt");
    assert_eq!(files[1], "b.txt");
}
