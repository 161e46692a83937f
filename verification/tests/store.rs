use tagfind::store::TagDatabase;
use tagfind::store::ValidationError;

#[test]
fn add_then_find() {
    let mut db = TagDatabase::new();
    let r = db.add_tag("work".to_string(), "a.txt".to_string(), true);
    assert_eq!(r, Ok(true));
    let files = db.find_by_tag("work").expect("tag should be present");
    assert_eq!(files.len(), 1);
    assert_eq!(files[0], "a.txt");
}

#[test]
fn add_twice_is_idempotent() {
    let mut db = TagDatabase::new();
    assert_eq!(db.add_tag("work".to_string(), "a.txt".to_string(), true), Ok(true));
    assert_eq!(db.add_tag("work".to_string(), "a.txt".to_string(), true), Ok(false));
    let files = db.find_by_tag("work").expect("tag should be present");
    assert_eq!(files.len(), 1);
    assert_eq!(files[0], "a.txt");
}

#[test]
fn add_then_remove_restores_empty() {
    let mut db = TagDatabase::new();
    assert_eq!(db.add_tag("t".to_string(), "f.txt".to_string(), true), Ok(true));
    assert_eq!(db.remove_tag("t", "f.txt", true), Ok(true));
    assert!(db.find_by_tag("t").is_none());
    assert_eq!(db.to_json(), "{\"tags\":{}}");
}

#[test]
fn add_then_remove_restores_existing_list() {
    let mut db = TagDatabase::new();
    assert_eq!(db.add_tag("t".to_string(), "a.txt".to_string(), true), Ok(true));
    assert_eq!(db.add_tag("t".to_string(), "b.txt".to_string(), true), Ok(true));
    assert_eq!(db.remove_tag("t", "b.txt", true), Ok(true));
    let files = db.find_by_tag("t").expect("tag should be present");
    assert_eq!(files.len(), 1);
    assert_eq!(files[0], "a.txt");
}

#[test]
fn validation_rejects_empty_tag() {
    let mut db = TagDatabase::new();
    let r = db.add_tag("".to_string(), "existing.txt".to_string(), true);
    assert_eq!(r, Err(ValidationError::EmptyTag));
    assert_eq!(db.to_json(), "{\"tags\":{}}");
}

#[test]
fn validation_rejects_blank_tag() {
    let mut db = TagDatabase::new();
    let r = db.add_tag("   ".to_string(), "existing.txt".to_string(), true);
    assert_eq!(r, Err(ValidationError::EmptyTag));
}

#[test]
fn validation_rejects_unicode_whitespace_tag() {
    let mut db = TagDatabase::new();
    let r = db.add_tag("\u{a0}\u{2028}\t".to_string(), "a.txt".to_string(), true);
    assert_eq!(r, Err(ValidationError::EmptyTag));
}

#[test]
fn validation_rejects_empty_file() {
    let mut db = TagDatabase::new();
    let r = db.add_tag("tag".to_string(), "".to_string(), true);
    assert_eq!(r, Err(ValidationError::EmptyFile));
    assert_eq!(db.to_json(), "{\"tags\":{}}");
}

#[test]
fn validation_rejects_missing_file() {
    let mut db = TagDatabase::new();
    let r = db.add_tag("tag".to_string(), "/no/such/file".to_string(), false);
    assert_eq!(r, Err(ValidationError::FileNotFound));
    assert_eq!(db.to_json(), "{\"tags\":{}}");
}

#[test]
fn validation_applies_to_remove() {
    let mut db = TagDatabase::new();
    assert_eq!(db.remove_tag("", "a.txt", true), Err(ValidationError::EmptyTag));
    assert_eq!(db.remove_tag("t", " ", true), Err(ValidationError::EmptyFile));
    assert_eq!(db.remove_tag("t", "a.txt", false), Err(ValidationError::FileNotFound));
}

#[test]
fn validate_input_order_of_rules() {
    assert_eq!(TagDatabase::validate_input("", "", false), Err(ValidationError::EmptyTag));
    assert_eq!(TagDatabase::validate_input("t", "", false), Err(ValidationError::EmptyFile));
    assert_eq!(TagDatabase::validate_input("t", "f", false), Err(ValidationError::FileNotFound));
    assert_eq!(TagDatabase::validate_input("t", "f", true), Ok(()));
}

#[test]
fn empty_after_removal_cleanup() {
    let mut db = TagDatabase::new();
    assert_eq!(db.add_tag("x".to_string(), "a.txt".to_string(), true), Ok(true));
    assert_eq!(db.remove_tag("x", "a.txt", true), Ok(true));
    assert!(db.find_by_tag("x").is_none());
    let dump = db.to_json();
    assert!(!dump.contains("x"));
    assert_eq!(dump, "{\"tags\":{}}");
}

#[test]
fn find_unknown_tag_is_none() {
    let mut db = TagDatabase::new();
    assert!(db.find_by_tag("nope").is_none());
    assert_eq!(db.add_tag("work".to_string(), "a.txt".to_string(), true), Ok(true));
    assert!(db.find_by_tag("nope").is_none());
    assert!(db.find_by_tag("").is_none());
    assert!(db.find_by_tag("  ").is_none());
}

#[test]
fn remove_absent_is_no_op() {
    let mut db = TagDatabase::new();
    assert_eq!(db.add_tag("t".to_string(), "a.txt".to_string(), true), Ok(true));
    assert_eq!(db.remove_tag("t", "b.txt", true), Ok(false));
    assert_eq!(db.remove_tag("u", "a.txt", true), Ok(false));
    let files = db.find_by_tag("t").expect("tag should be present");
    assert_eq!(files.len(), 1);
}

#[test]
fn insertion_order_is_kept() {
    let mut db = TagDatabase::new();
    assert_eq!(db.add_tag("t".to_string(), "b.txt".to_string(), true), Ok(true));
    assert_eq!(db.add_tag("t".to_string(), "a.txt".to_string(), true), Ok(true));
    assert_eq!(db.add_tag("t".to_string(), "c.txt".to_string(), true), Ok(true));
    let files = db.find_by_tag("t").expect("tag should be present");
    assert_eq!(files.len(), 3);
    assert_eq!(files[0], "b.txt");
    assert_eq!(files[1], "a.txt");
    assert_eq!(files[2], "c.txt");
}

#[test]
fn one_file_under_two_tags() {
    let mut db = TagDatabase::new();
    assert_eq!(db.add_tag("work".to_string(), "a.txt".to_string(), true), Ok(true));
    assert_eq!(db.add_tag("urgent".to_string(), "a.txt".to_string(), true), Ok(true));
    assert_eq!(db.remove_tag("work", "a.txt", true), Ok(true));
    assert!(db.find_by_tag("work").is_none());
    let files = db.find_by_tag("urgent").expect("tag should be present");
    assert_eq!(files[0], "a.txt");
}
