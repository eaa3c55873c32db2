use upim::alias::{alias_query, substitute_alias, AliasError, AliasSubstitutionError, IndexErrorKind};
use upim::filter::{Condition, FilterOp, QueryConversionError};

#[test]
fn substitute_alias_no_substitution() {
    let args = vec!["--limit", "1"];
    let args: Vec<String> = args.iter().map(|s| s.to_string()).collect();

    let alias = "--filter 'Name,Phone' WHERE Name = 'Nobody'";

    let (len, alias) = substitute_alias(&args, alias).unwrap();
    assert_eq!(len, 0);
    assert_eq!(alias, "--filter 'Name,Phone' WHERE Name = 'Nobody'");
}

#[test]
fn substitute_alias_values() {
    let args = vec!["Some Person"];
    let args: Vec<String> = args.iter().map(|s| s.to_string()).collect();

    let alias = "--filter 'Name,Phone' WHERE Name = '$0' --limit 1";

    let (len, new_alias) = substitute_alias(&args, alias).unwrap();
    assert_eq!(len, 1);
    assert_eq!(new_alias,
        "--filter 'Name,Phone' WHERE Name = 'Some Person' --limit 1"
    );
}

#[test]
fn substitute_alias_escaped_dollar() {
    let args = vec!["Some Person"];
    let args: Vec<String> = args.iter().map(|s| s.to_string()).collect();

    let alias = "--filter 'Name,Phone' WHERE Name = '\\$0' --limit 1";

    let (len, new_alias) = substitute_alias(&args, alias).unwrap();
    assert_eq!(len, 0);
    assert_eq!(new_alias,
        "--filter 'Name,Phone' WHERE Name = '\\$0' --limit 1"
    );
}

#[test]
fn subsitute_multiple_aliases() {
    let args = vec!["Some Person", "12345"];
    let args: Vec<String> = args.iter().map(|s| s.to_string()).collect();

    let alias = "--filter 'Name,Phone' WHERE Name = '$0' AND Phone = '$1'";

    let (len, new_alias) = substitute_alias(&args, alias).unwrap();
    assert_eq!(len, 2);
    assert_eq!(new_alias,
        "--filter 'Name,Phone' WHERE Name = 'Some Person' \
        AND Phone = '12345'"
    );
}

#[test]
fn subsitute_alias_missing_value_is_err() {
    let args = vec!["Some Person"];
    let args: Vec<String> = args.iter().map(|s| s.to_string()).collect();

    let alias = "--filter 'Name,Phone' WHERE Name = '$0' AND Phone = '$1'";

    assert!(substitute_alias(&args, alias).is_err());
}

#[test]
fn substitute_alias_extra_values_are_ignored() {
    let args = vec!["Some Person", "12345"];
    let args: Vec<String> = args.iter().map(|s| s.to_string()).collect();

    let alias = "--filter 'Name,Phone' WHERE Name = '$0' --limit 1";

    let (len, new_alias) = substitute_alias(&args, alias).unwrap();
    assert_eq!(len, 1);
    assert_eq!(new_alias,
        "--filter 'Name,Phone' WHERE Name = 'Some Person' --limit 1"
    );
}

#[test]
fn substitute_alias_missing_index_is_err() {
    let args = vec!["Some Person"];
    let args: Vec<String> = args.iter().map(|s| s.to_string()).collect();

    let alias = "--filter 'Name,Phone' WHERE Name = '$' --limit 1";
    assert!(substitute_alias(&args, alias).is_err());
}

#[test]
fn substitute_alias_invalid_index_is_err() {
    let args = vec!["Some Person"];
    let args: Vec<String> = args.iter().map(|s| s.to_string()).collect();

    let alias = "--filter 'Name,Phone' WHERE Name = '$a' --limit 1";
    assert!(substitute_alias(&args, alias).is_err());
}

#[test]
fn substitute_alias_error_kinds() {
    let args: Vec<String> = vec!["x".to_string()];

    assert_eq!(
        substitute_alias(&args, "a $ b"),
        Err(AliasSubstitutionError::ParseError(IndexErrorKind::Empty))
    );
    assert_eq!(
        substitute_alias(&args, "$2"),
        Err(AliasSubstitutionError::MissingValue(2))
    );
    assert_eq!(
        substitute_alias(&args, "$99999999999999999999999"),
        Err(AliasSubstitutionError::ParseError(IndexErrorKind::PosOverflow))
    );
}

#[test]
fn substitute_alias_placeholder_at_start_and_adjacent() {
    let args: Vec<String> = vec!["A".to_string(), "B".to_string()];

    let (len, text) = substitute_alias(&args, "$0$1$0").unwrap();
    assert_eq!(len, 3);
    assert_eq!(text, "ABA");
}

#[test]
fn alias_resolves_to_query() {

    let alias = "--filter 'Name,Phone' WHERE Name = '$0'";
    let params = vec!["Some Person".to_string()];
    let q = alias_query(alias, Some(&params)).unwrap();
    assert_eq!(q.select, vec!["Name".to_string(), "Phone".to_string()]);
    assert_eq!(
        q.condition,
        Condition::Filter("Name".into(), FilterOp::EqualTo, "Some Person".into())
    );

    let two = vec!["A".to_string(), "B".to_string()];
    assert_eq!(alias_query(alias, Some(&two)), Err(AliasError::ParameterCount(1, 2)));
    assert_eq!(
        alias_query(alias, None),
        Err(AliasError::Substitution(AliasSubstitutionError::MissingValue(0)))
    );
    assert_eq!(
        alias_query("Name WHERE", None),
        Err(AliasError::Query(QueryConversionError::MissingWhere))
    );
    assert!(alias_query("Name", None).is_ok());
}
