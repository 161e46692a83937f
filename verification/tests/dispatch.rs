use tagfind::dispatch::Command;
use tagfind::dispatch::Outcome;
use tagfind::dispatch::dispatch;
use tagfind::store::TagDatabase;
use tagfind::store::ValidationError;

#[test]
fn end_to_end_scenario() {
    // Start with no storage: an empty database.
    let mut db = TagDatabase::new();

    // add a.txt work (a.txt exists)
    let out = dispatch(
        &mut db,
        Command::Add { file: Some("a.txt".to_string()), tag: Some("work".to_string()) },
        true,
    );
    assert!(matches!(out, Outcome::Added { .. }));
    assert!(out.needs_save());
    assert_eq!(db.to_json(), "{\"tags\":{\"work\":[\"a.txt\"]}}");

    // work -> prints a.txt
    let out = dispatch(&mut db, Command::Find { tag: "work".to_string() }, false);
    match out {
        Outcome::Listing { tag, files } => {
            assert_eq!(tag, "work");
            assert_eq!(files, vec!["a.txt".to_string()]);
        }
        _ => panic!("expected a listing"),
    }

    // remove a.txt work -> storage becomes empty
    let out = dispatch(
        &mut db,
        Command::Remove { file: Some("a.txt".to_string()), tag: Some("work".to_string()) },
        true,
    );
    assert!(matches!(out, Outcome::Removed { .. }));
    assert!(out.needs_save());
    assert_eq!(db.to_json(), "{\"tags\":{}}");

    // work -> no files found
    let out = dispatch(&mut db, Command::Find { tag: "work".to_string() }, false);
    match out {
        Outcome::NoFiles { tag } => assert_eq!(tag, "work"),
        _ => panic!("expected no files"),
    }
}

#[test]
fn missing_operand_shows_usage() {
    let mut db = TagDatabase::new();
    let out = dispatch(&mut db, Command::Add { file: None, tag: None }, false);
    assert!(matches!(out, Outcome::UsageAdd));
    assert!(!out.needs_save());
    let out = dispatch(
        &mut db,
        Command::Remove { file: Some("a.txt".to_string()), tag: None },
        false,
    );
    assert!(matches!(out, Outcome::UsageRemove));
    assert!(!out.needs_save());
    assert_eq!(db.to_json(), "{\"tags\":{}}");
}

#[test]
fn rejected_operands_do_not_persist() {
    let mut db = TagDatabase::new();
    let out = dispatch(
        &mut db,
        Command::Add { file: Some("gone.txt".to_string()), tag: Some("work".to_string()) },
        false,
    );
    match out {
        Outcome::Rejected { error } => assert_eq!(error, ValidationError::FileNotFound),
        _ => panic!("expected a rejection"),
    }
    assert!(!out.needs_save());
    assert_eq!(db.to_json(), "{\"tags\":{}}");
}

#[test]
fn already_tagged_does_not_persist() {
    let mut db = TagDatabase::new();
    let out = dispatch(
        &mut db,
        Command::Add { file: Some("a.txt".to_string()), tag: Some("work".to_string()) },
        true,
    );
    assert!(out.needs_save());
    let out = dispatch(
        &mut db,
        Command::Add { file: Some("a.txt".to_string()), tag: Some("work".to_string()) },
        true,
    );
    assert!(matches!(out, Outcome::AlreadyTagged { .. }));
    assert!(!out.needs_save());
    let out = dispatch(
        &mut db,
        Command::Remove { file: Some("b.txt".to_string()), tag: Some("work".to_string()) },
        true,
    );
    assert!(matches!(out, Outcome::NotTagged { .. }));
    assert!(!out.needs_save());
}

#[test]
fn find_blank_tag_reports_no_files() {
    let mut db = TagDatabase::new();
    let out = dispatch(&mut db, Command::Find { tag: "  ".to_string() }, false);
    assert!(matches!(out, Outcome::NoFiles { .. }));
}
