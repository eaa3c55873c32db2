use std::str::FromStr;

use upim::either::Either;
use upim::filter::{
    parse_condition, read_field, read_op, Condition, ConditionConversionError, Filter, FilterOp,
    Function, FunctionParseError, QueryConversionError,
};
use upim::lexical::is_quoted;
use upim::number::{is_number_str, num_compare, parse_num};
use upim::record::Record;

fn filter(f: &str, op: FilterOp, v: &str) -> Condition {
    Condition::Filter(f.into(), op, v.into())
}

fn and(l: Condition, r: Condition) -> Condition {
    Condition::And(Box::new((l, r)))
}

fn or(l: Condition, r: Condition) -> Condition {
    Condition::Or(Box::new((l, r)))
}

#[test]
fn operator_text_round_trips() {
    let ops = [
        FilterOp::EqualTo,
        FilterOp::LessThan,
        FilterOp::LessEq,
        FilterOp::GreaterThan,
        FilterOp::GreaterEq,
        FilterOp::Not,
    ];
    for op in ops.iter() {
        assert_eq!(FilterOp::parse(&op.to_string()), Ok(*op));
    }
    assert_eq!(FilterOp::GreaterEq.to_string(), ">=");
    assert_eq!(FilterOp::parse("not"), Err(ConditionConversionError::UnknownOperator));
}

#[test]
fn quoted_field_list_consumes_quoted_span() {
    let (len, fields) = upim::filter::read_fields("'A,B,C' WHERE x = 1").unwrap();
    assert_eq!(len, 7);
    assert_eq!(fields, vec!["A".to_string(), "B".to_string(), "C".to_string()]);

    let (len, fields) = upim::filter::read_fields("\"A,B,C\"").unwrap();
    assert_eq!(len, 7);
    assert_eq!(fields, vec!["A".to_string(), "B".to_string(), "C".to_string()]);
}

#[test]
fn empty_field_list_is_empty() {
    let (len, fields) = upim::filter::read_fields("").unwrap();
    assert_eq!(len, 0);
    assert!(fields.is_empty());
}

#[test]
fn unterminated_field_list_is_err() {
    assert_eq!(
        upim::filter::read_fields("'Name,Phone WHERE"),
        Err(ConditionConversionError::Invalid)
    );
}

#[test]
fn query_of_two_fields_with_condition() {
    let q = Filter::from_str("'Name,Phone' WHERE Name = 'Somebody'").unwrap();
    assert_eq!(
        q,
        Filter::new(
            vec!["Name".to_string(), "Phone".to_string()],
            filter("Name", FilterOp::EqualTo, "Somebody")
        )
    );
}

#[test]
fn query_keyword_where_in_any_case() {
    let q = Filter::from_str("Name where Phone > 1").unwrap();
    assert_eq!(q.condition, filter("Phone", FilterOp::GreaterThan, "1"));
}

#[test]
fn query_without_where_is_err() {
    assert_eq!(
        Filter::from_str("Name = 'Person' AND Phone > 1"),
        Err(QueryConversionError::MissingWhere)
    );
    assert_eq!(
        Filter::from_str("'Name' Phone = 1"),
        Err(QueryConversionError::MissingWhere)
    );
}

#[test]
fn query_with_bad_condition_is_err() {
    assert_eq!(
        Filter::from_str("'Name' WHERE Name = Person"),
        Err(QueryConversionError::Condition(ConditionConversionError::UnquotedString))
    );
}

#[test]
fn condition_and_of_filters() {
    let c = Condition::from_str("Name = 'Person' AND Phone > 1").unwrap();
    assert_eq!(
        c,
        and(
            filter("Name", FilterOp::EqualTo, "Person"),
            filter("Phone", FilterOp::GreaterThan, "1")
        )
    );
}

#[test]
fn parentheses_forms_agree() {
    let expected = and(
        filter("a", FilterOp::EqualTo, "b"),
        filter("b", FilterOp::EqualTo, "c"),
    );
    assert_eq!(parse_condition("(a = 'b') AND (b = 'c')").unwrap(), expected);
    assert_eq!(parse_condition("(a = 'b' AND b = 'c')").unwrap(), expected);
    assert_eq!(parse_condition("a = 'b' AND b = 'c'").unwrap(), expected);
    assert_eq!(parse_condition("  ((a = 'b' AND b = 'c'))  ").unwrap(), expected);
}

#[test]
fn rightmost_conjunction_splits() {
    assert_eq!(
        parse_condition("a = '1' AND b = '2' OR c = '3'").unwrap(),
        or(
            and(filter("a", FilterOp::EqualTo, "1"), filter("b", FilterOp::EqualTo, "2")),
            filter("c", FilterOp::EqualTo, "3")
        )
    );
    assert_eq!(
        parse_condition("a = '1' or b = '2' and c = '3'").unwrap(),
        and(
            or(filter("a", FilterOp::EqualTo, "1"), filter("b", FilterOp::EqualTo, "2")),
            filter("c", FilterOp::EqualTo, "3")
        )
    );
}

#[test]
fn condition_errors() {
    assert_eq!(parse_condition("   "), Err(ConditionConversionError::MissingField));
    assert_eq!(
        parse_condition("(a = 'b'"),
        Err(ConditionConversionError::MismatchedParenthesis)
    );
    assert_eq!(
        parse_condition("a == 'b'"),
        Err(ConditionConversionError::Function(FunctionParseError::NoVariableAssignment))
    );
    assert_eq!(parse_condition("'a = b' <> 'x'"), Err(ConditionConversionError::UnknownOperator));
    assert_eq!(parse_condition("'a = b' 'x'"), Err(ConditionConversionError::MissingOperator));
    assert_eq!(parse_condition("'abc = 1"), Err(ConditionConversionError::Invalid));
    assert_eq!(
        parse_condition("'a\"b' = 'c'"),
        Err(ConditionConversionError::InvalidFieldName)
    );
    assert_eq!(
        parse_condition("\"it's\" = 'c'"),
        Err(ConditionConversionError::InvalidFieldName)
    );
    assert_eq!(parse_condition("Name < 'x'"), Err(ConditionConversionError::BadComparison));
    assert_eq!(parse_condition("Phone > EMPTY"), Err(ConditionConversionError::BadComparison));
    assert_eq!(parse_condition("Name = Person"), Err(ConditionConversionError::UnquotedString));
}

#[test]
fn numbers_in_conditions() {
    assert_eq!(
        parse_condition("Age >= -12.5").unwrap(),
        filter("Age", FilterOp::GreaterEq, "-12.5")
    );
    assert_eq!(parse_condition("Age < .5").unwrap(), filter("Age", FilterOp::LessThan, ".5"));
    assert_eq!(parse_condition("Age < 1.2.3"), Err(ConditionConversionError::UnquotedString));
    assert!(is_number_str("+7"));
    assert!(is_number_str("7."));
    assert!(!is_number_str("."));
    assert!(!is_number_str("-"));
    assert!(is_number_str("1e5"));
    assert!(is_number_str("-2.5E-3"));
    assert!(!is_number_str("1e"));
    assert!(!is_number_str("e5"));
    assert!(!is_number_str("1e+"));
    assert!(is_number_str("inf"));
    assert!(is_number_str("-Infinity"));
    assert!(is_number_str("NaN"));
    assert!(!is_number_str("infin"));
    assert!(parse_num("abc").is_none());
}

#[test]
fn function_clauses() {
    assert_eq!(
        Function::from_str("s = REF(Spouse)"),
        Ok(Function::Ref("s".into(), Either::Left("Spouse".into())))
    );
    assert_eq!(
        Function::from_str("c = split(Children, ';')"),
        Ok(Function::Split("c".into(), "Children".into(), ';'))
    );
    assert_eq!(
        Function::from_str("REGEX(Name, \"^A.*\")"),
        Ok(Function::Regex("Name".into(), "^A.*".into()))
    );
}

#[test]
fn function_errors() {
    assert_eq!(
        Function::from_str("REGEX(Name, ^A.*)"),
        Err(FunctionParseError::InvalidArguments)
    );
    assert_eq!(
        Function::from_str("REGEX(Name '^A')"),
        Err(FunctionParseError::InvalidArguments)
    );
    assert_eq!(
        Function::from_str("v = REF(Spouse"),
        Err(FunctionParseError::MissingClosingParenthesis)
    );
    assert_eq!(
        Function::from_str("v = SPLIT(Children, ',,')"),
        Err(FunctionParseError::InvalidArguments)
    );
    assert_eq!(Function::from_str("nothing"), Err(FunctionParseError::NoVariableAssignment));
    assert_eq!(
        Function::from_str("v > REF(x)"),
        Err(FunctionParseError::InvalidOperator(FilterOp::GreaterThan))
    );
    assert_eq!(Function::from_str("v = LOOKUP(x)"), Err(FunctionParseError::UnknownFunction));
    assert_eq!(
        parse_condition("v = REF(Spouse"),
        Err(ConditionConversionError::Function(FunctionParseError::MissingClosingParenthesis))
    );
}

#[test]
fn field_and_operator_readers() {
    assert_eq!(read_field("'Employer:Name' = 'x'").unwrap(), (15, "Employer:Name".to_string()));
    assert_eq!(read_field("Name = 'x'").unwrap(), (4, "Name".to_string()));
    assert_eq!(read_field(""), Err(ConditionConversionError::MissingField));
    assert_eq!(read_op(">= 5").unwrap(), (2, FilterOp::GreaterEq));
    assert!(!is_quoted("'"));
    assert!(!is_quoted("'a\""));
}

#[test]
fn merge_queries() {
    let a = Filter::from_str("Name WHERE Name = 'A'").unwrap();
    let b = Filter::from_str("Phone WHERE Phone > 1").unwrap();
    let m = a.merge_with(b);
    assert_eq!(m.select, vec!["Name".to_string(), "Phone".to_string()]);
    assert_eq!(
        m.condition,
        and(filter("Name", FilterOp::EqualTo, "A"), filter("Phone", FilterOp::GreaterThan, "1"))
    );
}

fn sample() -> Record {
    let mut r = Record::new();
    r.set_field("default", "Name", "Some Person");
    r.set_field("default", "Num", "123");
    r.set_field("employer", "Name", "Acme");
    r
}

#[test]
fn numeric_comparison() {
    let r = sample();
    let lt = |v: &str| filter("Num", FilterOp::LessThan, v);
    assert_eq!(r.matches(&lt("200")), Some(true));
    assert_eq!(r.matches(&lt("100")), Some(false));
    assert_eq!(r.matches(&lt("non-numeric-field-value")), Some(false));
    assert_eq!(r.matches(&filter("Num", FilterOp::GreaterEq, "123.0")), Some(true));
    assert_eq!(r.matches(&filter("Num", FilterOp::LessEq, "-5")), Some(false));
    assert_eq!(r.matches(&filter("Name", FilterOp::GreaterThan, "1")), Some(false));
}

#[test]
fn missing_field_policy() {
    let r = sample();
    assert_eq!(r.matches(&filter("Missing", FilterOp::Not, "x")), Some(true));
    assert_eq!(r.matches(&filter("Missing", FilterOp::EqualTo, "x")), Some(false));
    assert_eq!(r.matches(&filter("Nogroup:Name", FilterOp::Not, "x")), Some(true));
}

#[test]
fn group_qualified_lookup() {
    let r = sample();
    assert_eq!(r.matches(&filter("Employer:Name", FilterOp::EqualTo, "Acme")), Some(true));
    assert_eq!(r.matches(&filter("EMPLOYER:Name", FilterOp::Not, "Acme")), Some(false));
    assert_eq!(r.matches(&filter("Name", FilterOp::EqualTo, "Some Person")), Some(true));
    assert_eq!(r.get_field_from("Employer", "Name"), Some(&"Acme".to_string()));
    assert_eq!(r.get_field("Num"), Some(&"123".to_string()));
}

#[test]
fn set_field_replaces_value() {
    let mut r = sample();
    r.set_field("EMPLOYER", "Name", "Other");
    assert_eq!(r.get_field_from("employer", "Name"), Some(&"Other".to_string()));
}

#[test]
fn combined_conditions_evaluate() {
    let r = sample();
    let c = Condition::from_str("Name = 'Some Person' AND (Num < 200 OR Num > 1000)").unwrap();
    assert_eq!(r.matches(&c), Some(true));
    let c = Condition::from_str("Name = 'Nobody' AND s = REF(Spouse)").unwrap();
    assert_eq!(r.matches(&c), Some(false));
    let c = Condition::from_str("Name = 'Some Person' AND s = REF(Spouse)").unwrap();
    assert_eq!(r.matches(&c), None);
    assert_eq!(r.matches(&Condition::All), Some(true));
}

#[test]
fn regex_clause_evaluates() {
    let r = sample();
    let c = Condition::from_str("REGEX(Name, '^Some P')").unwrap();
    assert_eq!(r.matches(&c), Some(true));
    let c = Condition::from_str("REGEX(Name, 'Person$')").unwrap();
    assert_eq!(r.matches(&c), Some(true));
    let c = Condition::from_str("REGEX(Name, '^Person')").unwrap();
    assert_eq!(r.matches(&c), Some(false));
    let c = Condition::from_str("REGEX(Employer:Name, 'c.e')").unwrap();
    assert_eq!(r.matches(&c), Some(true));
    let c = Condition::from_str("REGEX(Name, '[unclosed')").unwrap();
    assert_eq!(r.matches(&c), Some(false));
    assert_eq!(
        Condition::from_str("REGEX(Name, '(unclosed')"),
        Err(ConditionConversionError::Function(FunctionParseError::InvalidArguments))
    );
    let c = Condition::from_str("REGEX(Missing, '.*')").unwrap();
    assert_eq!(r.matches(&c), Some(false));
}

#[test]
fn exponent_numbers() {
    assert_eq!(cmp("1e3", "1000"), Some(0));
    assert_eq!(cmp("2E+1", "19.999"), Some(1));
    assert_eq!(cmp("-1.5e-1", "-0.15"), Some(0));
    assert_eq!(cmp("1e-20", "0"), Some(1));
    assert_eq!(cmp("1e40", "9999999999999999999999999999999999999999"), Some(1));
    assert_eq!(cmp("1000e-3", "1"), Some(0));
    assert_eq!(cmp("1e99999999999999999999", "1"), None);
    assert_eq!(parse_condition("Num > 1e3").unwrap(), filter("Num", FilterOp::GreaterThan, "1e3"));
    let r = sample();
    assert_eq!(r.matches(&filter("Num", FilterOp::LessThan, "1.5e2")), Some(true));
    assert_eq!(r.matches(&filter("Num", FilterOp::GreaterEq, "1.23E2")), Some(true));
    assert_eq!(r.matches(&filter("Num", FilterOp::GreaterThan, "1.23e2")), Some(false));
}

fn cmp(a: &str, b: &str) -> Option<i8> {
    match (parse_num(a), parse_num(b)) {
        (Some(x), Some(y)) => num_compare(&x, &y),
        _ => None,
    }
}

#[test]
fn exact_comparison_without_digit_limit() {
    assert_eq!(cmp("123456789012345678901234567890", "123456789012345678901234567891"), Some(-1));
    assert_eq!(cmp("0.000000000000000000000000001", "0"), Some(1));
    assert_eq!(cmp("-0", "0"), Some(0));
    assert_eq!(cmp("007.50", "7.5"), Some(0));
    assert_eq!(cmp("-3", "-20"), Some(1));
    assert_eq!(cmp("inf", "1e300"), Some(1));
    assert_eq!(cmp("-INF", "-1e300"), Some(-1));
    assert_eq!(cmp("infinity", "inf"), Some(0));
    assert_eq!(cmp("nan", "1"), None);
    assert_eq!(cmp("1", "NaN"), None);

    let mut r = Record::new();
    r.set_field("default", "Num", "inf");
    r.set_field("default", "Big", "123456789012345678901234567890");
    assert_eq!(r.matches(&filter("Num", FilterOp::GreaterThan, "1")), Some(true));
    assert_eq!(r.matches(&filter("Big", FilterOp::GreaterThan, "123456789012345678901234567889")), Some(true));
    assert_eq!(parse_condition("Num > inf").unwrap(), filter("Num", FilterOp::GreaterThan, "inf"));
    assert_eq!(r.matches(&filter("Num", FilterOp::GreaterEq, "nan")), Some(false));
}

#[test]
fn merge_deduplicates_fields() {
    let a = Filter::from_str("'Name,Phone' WHERE Name = 'A'").unwrap();
    let b = Filter::from_str("'Phone,Email,Name' WHERE Phone > 1").unwrap();
    let m = a.merge_with(b);
    assert_eq!(
        m.select,
        vec!["Name".to_string(), "Phone".to_string(), "Email".to_string()]
    );
}
