use std::str::FromStr;

use upim::either::Either;
use upim::filter::{read_fields, Condition, Filter, FilterOp, Function};
use upim::lexical::{get_inner_expression, is_quoted};

#[test]
fn read_single_field_no_quotes() {
    let text = "Field more text";

    let (len, fields) = read_fields(text).unwrap();
    assert_eq!(len, 5);
    assert_eq!(fields[0], "Field");
}

#[test]
fn read_single_field_with_quotes() {
    let text = "'Field' more text";

    let (len, fields) = read_fields(text).unwrap();
    assert_eq!(len, 7);
    assert_eq!(fields[0], "Field");
}

#[test]
fn read_multiple_fields_no_quotes() {
    let text = "AField,BField more text";

    let (len, fields) = read_fields(text).unwrap();
    assert_eq!(len, 13);
    assert_eq!(fields[0], "AField");
    assert_eq!(fields[1], "BField");
}

#[test]
fn read_multiple_fields_with_quotes() {
    let text = "'A Field,B Field' more text";

    let (len, fields) = read_fields(text).unwrap();
    assert_eq!(len, 17);
    assert_eq!(fields[0], "A Field");
    assert_eq!(fields[1], "B Field");
}

#[test]
fn error_on_read_of_invalid_field() {
    let text = "'Field, and other' more text";
    assert!(read_fields(text).is_err());
}

#[test]
fn read_operators() {
    let tests = vec![
        ("=", FilterOp::EqualTo),
        ("<", FilterOp::LessThan),
        ("<=", FilterOp::LessEq),
        (">", FilterOp::GreaterThan),
        (">=", FilterOp::GreaterEq),
        ("NOT", FilterOp::Not),
    ];

    for (s, op) in tests.iter() {
        assert_eq!(FilterOp::from_str(s).unwrap(), *op);
    }

    assert!(FilterOp::from_str("asdf").is_err());
}

#[test]
fn parse_filter_all_contacts() {
    let text = "Name";

    let filter = Filter::from_str(text).unwrap();
    assert_eq!(filter,
        Filter {
            select: vec!["Name".into()],
            condition: Condition::All,
        });
}

#[test]
fn parse_filter_all_quoted_contacts() {
    let text = "'Name'";

    let filter = Filter::from_str(text).unwrap();
    assert_eq!(filter,
        Filter {
            select: vec!["Name".into()],
            condition: Condition::All,
        });
}

#[test]
fn parse_condition_by_field_value() {
    let text = "Name = 'Somebody'";

    let cond = Condition::from_str(text).unwrap();
    assert_eq!(cond,
        Condition::Filter(
            "Name".into(),
            FilterOp::EqualTo,
            "Somebody".into()
        )
    );
}

#[test]
fn parse_condition_field_empty() {
    let text = "Phone = EMPTY";

    let cond = Condition::from_str(text).unwrap();
    assert_eq!(cond,
        Condition::Filter(
            "Phone".into(),
            FilterOp::EqualTo,
            "".into()
        )
    );
}

#[test]
fn parse_condition_field_not_empty() {
    let text = "Phone NOT EMPTY";

    let cond = Condition::from_str(text).unwrap();
    assert_eq!(cond,
        Condition::Filter(
            "Phone".into(),
            FilterOp::Not,
            "".into()
        )
    );
}

#[test]
fn parse_condition_by_ref_function() {
    let text = "v =  REF(SomeField)";

    let cond = Condition::from_str(text).unwrap();
    assert_eq!(cond,
        Condition::Function(
            Function::Ref("v".into(), Either::Left("SomeField".into()))
        )
    );
}

#[test]
fn parse_condition_by_split_field_function() {
    let text = "v = SPLIT(Children, ',')";

    let cond = Condition::from_str(text).unwrap();
    assert_eq!(cond,
        Condition::Function(
            Function::Split("v".into(), "Children".into(), ',')
        )
    )
}

#[test]
fn parse_condition_by_split_ref_function() {
    let text = "v = REF(SPLIT(Children, ','))";

    let cond = Condition::from_str(text).unwrap();
    assert_eq!(cond,
        Condition::Function(
            Function::Ref(
                "v".into(),
                Either::Right(Box::new(
                    Function::Split(
                        "".into(),
                        "Children".into(),
                        ','
                    )
                ))
            )
        )
    );
}

#[test]
fn parse_condition_by_regex_function() {
    let text = "REGEX(SomeField, '.*regex.*')";

    let cond = Condition::from_str(text).unwrap();
    assert_eq!(cond,
        Condition::Function(
            Function::Regex("SomeField".into(), ".*regex.*".into())
        )
    );
}

#[test]
fn parse_filter_and_filter() {
    let text = "Name = 'Person' AND Phone > 1";

    let cond = Condition::from_str(text).unwrap();
    assert_eq!(cond,
        Condition::And(Box::new((
            Condition::Filter(
                "Name".into(),
                FilterOp::EqualTo,
                "Person".into()
            ),
            Condition::Filter(
                "Phone".into(),
                FilterOp::GreaterThan,
                "1".into()
            ),
        )))
    );
}

#[test]
fn parse_filter_or_filter() {
    let text = "Name = 'Person' OR Phone > 1";

    let cond = Condition::from_str(text).unwrap();
    assert_eq!(cond,
        Condition::Or(Box::new((
            Condition::Filter(
                "Name".into(),
                FilterOp::EqualTo,
                "Person".into()
            ),
            Condition::Filter(
                "Phone".into(),
                FilterOp::GreaterThan,
                "1".into()
            ),
        )))
    );
}

#[test]
fn parse_filter_and_function() {
    let text = "Name = 'Person' AND s = REF(Spouse)";

    let cond = Condition::from_str(text).unwrap();
    assert_eq!(cond,
        Condition::And(Box::new((
            Condition::Filter(
                "Name".into(),
                FilterOp::EqualTo,
                "Person".into()
            ),
            Condition::Function(
                Function::Ref(
                    "s".into(),
                    Either::Left("Spouse".into())
                ))
        )))
    );
}

#[test]
fn get_inner_expression_inner_left() {
    let text = "((a) and b)";

    let (i, s) = get_inner_expression(text).unwrap();
    assert_eq!(i, text.len());
    assert_eq!(s, "(a) and b");

    let (i, s) = get_inner_expression(&text[1..text.len()]).unwrap();
    assert_eq!(i, 3);
    assert_eq!(s, "a");
}

#[test]
fn get_inner_expression_inner_right() {
    let text = "(a and (b))";

    let (i, s) = get_inner_expression(text).unwrap();
    assert_eq!(i, text.len());
    assert_eq!(s, "a and (b)");

    let (i, s) = get_inner_expression(&text[7..text.len()]).unwrap();
    assert_eq!(i, 3);
    assert_eq!(s, "b");
}

#[test]
fn parse_parens_prioritize_over_conjunctions() {
    let text = "(a = 'b') AND (b = 'c')";

    let cond = Condition::from_str(text).unwrap();
    assert_eq!(cond,
        Condition::And(Box::new((
            Condition::Filter("a".into(), FilterOp::EqualTo, "b".into()),
            Condition::Filter("b".into(), FilterOp::EqualTo, "c".into()),
        )))
    );
}

#[test]
fn parse_parens_over_entire_condition() {
    let text = "(a = 'b' AND b = 'c')";

    let cond = Condition::from_str(text).unwrap();
    assert_eq!(cond,
        Condition::And(Box::new((
            Condition::Filter("a".into(), FilterOp::EqualTo, "b".into()),
            Condition::Filter("b".into(), FilterOp::EqualTo, "c".into()),
        )))
    );
}

#[test]
fn parse_parens_inner_on_right() {
    let text = "(a = 'b' AND (b = 'c' AND c = 'd'))";

    let cond = Condition::from_str(text).unwrap();
    assert_eq!(cond,
        Condition::And(Box::new((
            Condition::Filter("a".into(), FilterOp::EqualTo, "b".into()),
            Condition::And(Box::new((
                Condition::Filter(
                    "b".into(),
                    FilterOp::EqualTo,
                    "c".into()
                ),
                Condition::Filter(
                    "c".into(),
                    FilterOp::EqualTo,
                    "d".into()
                ),
            )))
        )))
    );
}

#[test]
fn parse_parens_inner_on_left() {
    let text = "((a = 'b' AND b = 'c') AND c = 'd')";

    let cond = Condition::from_str(text).unwrap();
    assert_eq!(cond,
        Condition::And(Box::new((
            Condition::And(Box::new((
                Condition::Filter(
                    "a".into(),
                    FilterOp::EqualTo,
                    "b".into()
                ),
                Condition::Filter(
                    "b".into(),
                    FilterOp::EqualTo,
                    "c".into()
                ),
            ))),
            Condition::Filter("c".into(), FilterOp::EqualTo, "d".into())
        )))
    );
}

#[test]
fn parse_filter_by_field_value() {
    let text = "'Name' WHERE Name = 'Somebody'";

    let filter = Filter::from_str(text).unwrap();
    assert_eq!(filter,
        Filter {
            select: vec!["Name".into()],
            condition: Condition::Filter(
                "Name".into(),
                FilterOp::EqualTo,
                "Somebody".into()
            ),
        });
}

#[test]
fn determine_string_quote_presence() {
    assert!(is_quoted("'some text'"));
    assert!(is_quoted("\"some text\""));
    assert!(! is_quoted("s'ome text'"));
    assert!(! is_quoted("'some text"));
}
