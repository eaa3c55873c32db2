use upim::config::Config;
use upim::error::FileError;

const TEST_INI: &str = "\
; A test configuration.
var1 = val1

[Group A]
var2 = value two
var 3 = value = three
";

const TEST2_INI: &str = "\
[Group A]
var 3 = value = four
";

const INVALID_INI: &str = "\
var1 = val1

some variable

= some value

[Bad Group

# Bad comment
";

#[test]
fn parse_variables() {
    let conf = Config::read_from_str(TEST_INI).unwrap();

    assert_eq!(conf.get("DEFAULT", "var1").unwrap(), "val1");
    assert_eq!(conf.get("Group A", "var2").unwrap(), "value two");
    assert_eq!(conf.get("Group A", "var 3").unwrap(), "value = three");
}

#[test]
fn merge_configs() {
    let conf = Config::read_from_str(TEST_INI)
        .unwrap()
        .merge_with(Config::read_from_str(TEST2_INI).unwrap());

    assert_eq!(conf.get("DEFAULT", "var1").unwrap(), "val1");
    assert_eq!(conf.get("Group A", "var2").unwrap(), "value two");
    assert_eq!(conf.get("Group A", "var 3").unwrap(), "value = four");
}

#[test]
fn get_default_group() {
    let conf = Config::read_from_str(TEST_INI).unwrap();

    assert_eq!(conf.get_default("var1"), Some(&"val1".to_string()));
    assert_eq!(conf.get_default("nothing"), None);
}

#[test]
fn get_group() {
    let conf = Config::read_from_str(TEST_INI).unwrap();

    assert_eq!(conf.get("Group A", "var2"), Some(&"value two".to_string()));
    assert_eq!(conf.get("Group A", "var1"), None);
}

#[test]
fn get_nonexistent_group_is_none() {
    let conf = Config::read_from_str(TEST_INI).unwrap();

    assert!(conf.get("Not a group", "var1").is_none());
}

#[test]
fn set_default_values() {
    let conf = Config::default()
        .set_default("var1", "default value")
        .set_default("some-var", "my-value")
        .merge_with(Config::read_from_str(TEST_INI).unwrap());

    assert_eq!(conf.get_default("var1").unwrap(), "val1");
    assert_eq!(conf.get_default("some-var").unwrap(), "my-value");
}

#[test]
fn collect_all_parse_errors() {
    let errs = Config::read_from_str(INVALID_INI).unwrap_err();
    let mut errs = errs.iter();

    match errs.next() {
        Some(FileError::Parse { msg, data, line }) => {
            assert!(msg.contains("variable assignment"));
            assert_eq!(data, "some variable");
            assert_eq!(*line, 3);
        },
        _ => panic!("Expected a FileError::Parse"),
    }

    match errs.next() {
        Some(FileError::Parse { msg, data, line }) => {
            assert!(msg.contains("variable name"));
            assert_eq!(data, "= some value");
            assert_eq!(*line, 5);
        },
        _ => panic!("Expected a FileError::Parse"),
    }

    match errs.next() {
        Some(FileError::Parse { msg, data, line }) => {
            assert!(msg.contains("closing bracket"));
            assert_eq!(data, "[Bad Group");
            assert_eq!(*line, 7);
        },
        _ => panic!("Expected a FileError::Parse"),
    }

    match errs.next() {
        Some(FileError::Parse { msg, data, line }) => {
            assert!(msg.contains("variable assignment"));
            assert_eq!(data, "# Bad comment");
            assert_eq!(*line, 9);
        },
        _ => panic!("Expected a FileError::Parse"),
    }

    assert!(errs.next().is_none());
}

#[test]
fn groups_and_variables_are_listed() {
    let conf = Config::read_from_str(TEST_INI).unwrap();

    assert_eq!(conf.groups(), vec!["DEFAULT".to_string(), "Group A".to_string()]);
    assert_eq!(
        conf.variables_in_group("Group A"),
        vec!["var2".to_string(), "var 3".to_string()]
    );
}

#[test]
fn later_value_of_a_variable_stands() {
    let conf = Config::read_from_str("a = 1\na = 2\n").unwrap();
    assert_eq!(conf.get_default("a").unwrap(), "2");
    assert_eq!(conf.variables_in_group("DEFAULT").len(), 1);
}

#[test]
fn write_to_text_and_read_back() {
    let conf = Config::default()
        .set_default("var1", "value")
        .set("Some Group", "my variable", "my value");

    let text = conf.to_text();
    assert_eq!(text, "[DEFAULT]\nvar1 = value\n[Some Group]\nmy variable = my value\n");

    let read_conf = Config::read_from_str(&text).unwrap();
    assert_eq!(read_conf.get_default("var1"), Some(&"value".to_string()));
    assert_eq!(read_conf.get("Some Group", "my variable"), Some(&"my value".to_string()));
}
