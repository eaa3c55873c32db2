use upim::config::Config;
use upim::settings::{
    read_config, unescape_unicode, validate_aliases, validate_field_separator,
    ConfigurationError,
};

fn aliases(list: &[(&str, &str)]) -> Vec<(String, String)> {
    list.iter().map(|(a, b)| (a.to_string(), b.to_string())).collect()
}

#[test]
fn validate_default_aliases() {
    let aliases = aliases(&[
        ("first", "--filter 'Name,Phone,Employer:Name' WHERE Name = '$0' --limit 1"),
        ("second", "--filter 'Name,Phone,Employer:Name' WHERE Name = '$0'"),
    ]);

    assert!(validate_aliases(&aliases).is_ok())
}

#[test]
fn error_when_validating_bad_filter() {
    let aliases = aliases(&[
        ("first", "--filter Name,Phone,Employer:Name' WHERE Name = '$0' --limit 1"),
        ("second", "--filter Name,Phone,Employer:Name' WHERE Name > '$0'"),
        ("third", "--filter 'Name,Phone,Employer:Name' WHERE"),
    ]);

    let res = validate_aliases(&aliases);
    assert!(res.is_err());
    assert_eq!(res.unwrap_err().len(), 3);
}

#[test]
fn unescape_unicode_valid_input() {
    let text = r"This is a \u2764!";
    let unescaped = "This is a ❤!";

    assert!(text != unescaped);
    assert_eq!(unescape_unicode(text).unwrap(), unescaped);
}

#[test]
fn unescape_unicode_not_hex_is_err() {
    assert!(unescape_unicode(r"\ughij").is_err());
}

#[test]
fn unescape_unicode_not_four_chars_is_err() {
    assert!(unescape_unicode(r"\u9").is_err());
    assert!(unescape_unicode(r"\u99").is_err());
    assert!(unescape_unicode(r"\u999").is_err());
    assert!(unescape_unicode(r"\u99999").is_err());
}

#[test]
fn unescape_unicode_invalid_codepoint_is_err() {
    assert!(unescape_unicode(r"\ud8f3").is_err());
}

#[test]
fn validate_string_field_separator() {
    assert_eq!(validate_field_separator("' :: '").unwrap(), " :: ");
}

#[test]
fn validate_string_char_separator() {
    assert_eq!(validate_field_separator("#").unwrap(), "#");
}

#[test]
fn validate_string_whitespace_tag_in_separator() {
    assert_eq!(validate_field_separator("'{SPACE}{TAB}'").unwrap(), " \t");
}

#[test]
fn validate_string_unicode_code_points_in_separator() {
    assert_eq!(validate_field_separator(r"'\u2713\u27fa\u27F4'").unwrap(), "✓⟺⟴");
}

#[test]
fn unquoted_long_separator_is_err() {
    assert!(matches!(
        validate_field_separator(" | "),
        Err(ConfigurationError::InvalidValue { .. })
    ));
    assert!(unescape_unicode(r"a\x").is_err());
    assert_eq!(unescape_unicode("plain").unwrap(), "plain");
}

const LOCAL: &str = "\
default_collection = ~/contacts
field_separator = '{TAB}'

[Aliases]
emp = --filter 'Name' WHERE 'Employer:Name' = '$0'
";

#[test]
fn read_config_checks_and_interprets() {
    let conf = read_config(Ok(Config::new()), Some(Config::read_from_str(LOCAL))).unwrap();
    assert_eq!(conf.get_default("field_separator").unwrap(), "\t");
    assert_eq!(conf.get_default("default_collection").unwrap(), "~/contacts");
    assert_eq!(
        conf.group_entries("Aliases"),
        vec![(
            "emp".to_string(),
            "--filter 'Name' WHERE 'Employer:Name' = '$0'".to_string()
        )]
    );
}

#[test]
fn read_config_default_separator() {
    let conf = read_config(
        Ok(Config::new()),
        Some(Config::read_from_str("default_collection = c\n")),
    )
    .unwrap();
    assert_eq!(conf.get_default("field_separator").unwrap(), " | ");
}

#[test]
fn read_config_collects_errors() {
    let local = "field_separator = ab\n[Aliases]\nbad = --filter Name WHERE\n";
    let errs = read_config(Ok(Config::new()), Some(Config::read_from_str(local))).unwrap_err();
    assert_eq!(errs.len(), 3);
    assert!(matches!(errs[0], ConfigurationError::MissingOption(_)));

    let errs = read_config(Ok(Config::new()), None).unwrap_err();
    assert!(matches!(errs[0], ConfigurationError::Environment(_)));

    let errs = read_config(
        Ok(Config::new()),
        Some(Config::read_from_str("default_collection = c\nnot an assignment\n")),
    )
    .unwrap_err();
    assert!(matches!(errs[0], ConfigurationError::Config(_)));
}

#[test]
fn read_config_counts_every_error() {
    let local = "field_separator = ab\n[Aliases]\nx = --filter Name WHERE\ny = --filter 'A' WHERE B > 'c'\n";
    let global = Config::read_from_str("[bad\n");
    let errs = read_config(global, Some(Config::read_from_str(local))).unwrap_err();
    // One read error, no default_collection, a bad separator, two bad aliases.
    assert_eq!(errs.len(), 5);
}

#[test]
fn alias_errors_name_their_alias() {
    let list = aliases(&[
        ("good", "--filter 'Name' WHERE Name = 'x'"),
        ("bad", "--filter Name WHERE --filter 'A' WHERE B < 'c'"),
    ]);
    let errs = validate_aliases(&list).unwrap_err();
    assert_eq!(errs.len(), 2);
    for e in errs {
        match e {
            ConfigurationError::InvalidValue { data, .. } => assert_eq!(data, "bad"),
            _ => panic!("Expected an invalid value"),
        }
    }
}
