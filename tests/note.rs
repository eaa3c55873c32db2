use std::str::FromStr;

use upim::note::{Metadata, Note};

#[test]
fn read_tag_meta_line() {
    if let Metadata::Tag(vs) = Note::read_metadata_line("@some-tag\n", 1).unwrap() {
        assert_eq!(vs.len(), 1);
        assert_eq!(vs[0], "@some-tag");
    } else {
        panic!();
    }
}

#[test]
fn read_multiple_tags_meta_line() {
    if let Metadata::Tag(vs) = Note::read_metadata_line("@some-tag @other-tag\n", 1).unwrap() {
        assert_eq!(vs.len(), 2);
        assert_eq!(vs[0], "@some-tag");
        assert_eq!(vs[1], "@other-tag");
    } else {
        panic!();
    }
}

#[test]
fn tags_must_be_prefixed_with_symbol() {
    assert!(Note::read_metadata_line("@some tag\n", 1).is_err());
}

#[test]
fn read_key_value_meta_line() {
    if let Metadata::KV(k, v) = Note::read_metadata_line("[Key: Value]\n", 1).unwrap() {
        assert_eq!(k, "Key");
        assert_eq!(v, "Value");
    } else {
        panic!();
    }
}

#[test]
fn only_one_kv_is_on_a_line() {
    assert!(Note::read_metadata_line("[k:v] [k:v]\n", 1).is_err());
}

#[test]
fn read_note_with_empty_header() {
    let text = "\nSome text.\n";

    let val = Note::from_str(text).unwrap();
    assert_eq!(val.tags().len(), 0);
    assert_eq!(val.attributes().len(), 0);
    assert_eq!(val.content(), "Some text.\n");
}

#[test]
fn fail_to_read_note_with_missing_header() {
    let text = "Some text.\n";
    assert!(Note::from_str(text).is_err());
}

#[test]
fn read_note_with_empty_content() {
    let text = "@tag\n[some:stuff]\n";

    let val = Note::from_str(text).unwrap();
    assert_eq!(val.tags().len(), 1);
    assert_eq!(val.attributes().len(), 1);
    assert_eq!(val.tags()[0], "@tag");
    assert_eq!(val.get_attribute("some").unwrap(), "stuff");
    assert_eq!(val.content(), "");
}

#[test]
fn read_full_note() {
    let text = "\
    @some-tag @other-tag\n\
    @another-tag\n\
    [Date: None]\n\
    [Some: Thing]\n\
    \n\
    Some content goes here.\n\
    \n\
    And more stuff.\n\
    ";

    let note = Note::from_str(text).unwrap();

    assert_eq!(note.tags().len(), 3);
    assert_eq!(note.attributes().len(), 2);
    assert_eq!(note.tags()[0], "@some-tag");
    assert_eq!(note.tags()[1], "@other-tag");
    assert_eq!(note.tags()[2], "@another-tag");
    assert_eq!(note.get_attribute("Date").unwrap(), "None");
    assert_eq!(note.get_attribute("Some").unwrap(), "Thing");
    assert_eq!(note.content(), "Some content goes here.\n\nAnd more stuff.\n");
}

#[test]
fn lookup_attribute_by_key() {
    let text = "\
    [Date: None]\n\
    [Some: Thing]\n\
    ";

    let note = Note::from_str(text).unwrap();
    assert_eq!(note.get_attribute("Date"), Some(&String::from("None")));
    assert_eq!(note.get_attribute("Some"), Some(&String::from("Thing")));
    assert_eq!(note.get_attribute("Date").unwrap(), "None");
    assert_eq!(note.get_attribute("Some").unwrap(), "Thing");
}

#[test]
fn create_and_modify_attributes_by_key() {
    let text = "\
    [Date: None]\n\
    [Some: Thing]\n\
    ";

    let mut note = Note::from_str(text).unwrap();
    note.set_attribute("Date", "January 1");
    note.set_attribute("Year", "2000");

    assert_eq!(note.get_attribute("Date").unwrap(), "January 1");
    assert_eq!(note.get_attribute("Some").unwrap(), "Thing");
    assert_eq!(note.get_attribute("Year").unwrap(), "2000");
}

#[test]
fn note_contains_tag() {
    let text = "@tag1 @tag2\n";
    let note = Note::from_str(text).unwrap();

    assert!(note.contains_tag("@tag1"));
    assert!(note.contains_tag("@tag2"));
    assert!(!note.contains_tag("@tag3"));
}

#[test]
fn note_add_tag() {
    let text = "@tag1\n";
    let mut note = Note::from_str(text).unwrap();

    note.insert_tag("@tag2");
    note.insert_tag("tag3");

    assert!(note.contains_tag("@tag1"));
    assert!(note.contains_tag("@tag2"));
    assert!(note.contains_tag("@tag3"));
}

#[test]
fn note_remove_tag() {
    let text = "@tag1 @tag2\n";
    let mut note = Note::from_str(text).unwrap();

    assert_eq!(note.remove_tag("@tag2"), Some("@tag2".to_string()));
    assert!(note.contains_tag("@tag1"));
    assert!(!note.contains_tag("@tag2"));
}

#[test]
fn note_list_tags() {
    let text = "@tag1 @tag2\n";
    let note = Note::from_str(text).unwrap();

    assert_eq!(note.tags(), ["@tag1".to_string(), "@tag2".to_string()]);
}

#[test]
fn note_clear_content_data() {
    let text = "\
    @some-tag @other-tag\n\
    @another-tag\n\
    [Date: None]\n\
    [Some: Thing]\n\
    \n\
    Some content goes here.\n\
    \n\
    And more stuff.\n\
    ";

    let mut note = Note::from_str(text).unwrap();
    assert!(!note.content().is_empty());
    note.clear_content();
    assert!(note.content().is_empty());
}

#[test]
fn note_text_reads_back() {
    let text = "@a @b\n[Key: Value]\n\nBody.\n";
    let note = Note::from_str(text).unwrap();
    assert_eq!(note.to_text(), "@a\n@b\n[Key: Value]\n\nBody.\n");

    let again = Note::from_str(&note.to_text()).unwrap();
    assert_eq!(again.tags(), note.tags());
    assert_eq!(again.attributes(), note.attributes());
    assert_eq!(again.content(), note.content());
}

#[test]
fn note_attribute_removal_and_keys() {
    let mut note = Note::new(
        &["@x".to_string()],
        vec![
            ("A".to_string(), "1".to_string()),
            ("B".to_string(), "2".to_string()),
            ("A".to_string(), "3".to_string()),
        ],
        "text",
    );
    assert_eq!(note.attribute_keys(), vec!["A".to_string(), "B".to_string()]);
    assert_eq!(note.get_attribute("A").unwrap(), "3");
    assert!(note.contains_attribute("B"));
    assert_eq!(note.remove_attribute("B"), Some("2".to_string()));
    assert_eq!(note.remove_attribute("B"), None);
    assert!(!note.contains_attribute("B"));
    assert_eq!(note.take_tags(), vec!["@x".to_string()]);
    assert!(note.tags().is_empty());
}

#[test]
fn malformed_header_lines() {
    assert!(Note::read_metadata_line("@\n", 4).is_err());
    assert!(Note::read_metadata_line("[no colon]\n", 4).is_err());
    assert!(Note::read_metadata_line("plain\n", 4).is_err());
    match Note::from_str("@ok\n[bad\n") {
        Err(upim::error::FileError::Parse { line, .. }) => assert_eq!(line, 2),
        _ => panic!("Expected a parse error"),
    }
}
