use std::str::FromStr;

use upim::filter::{Condition, Filter, FilterOp};

#[test]
fn condition_prints_and_reads_back() {
    let c = Condition::from_str("Name = 'Person' AND (Phone NOT 'x' OR Employer:Name = 'Acme')").unwrap();
    let text = c.to_query_string();
    assert_eq!(text, "(Name = 'Person') AND ((Phone NOT 'x') OR (Employer:Name = 'Acme'))");
    assert_eq!(Condition::from_str(&text).unwrap(), c);
}

#[test]
fn numeric_comparison_prints_unquoted() {
    let c = Condition::Filter("Age".into(), FilterOp::GreaterEq, "21".into());
    assert_eq!(c.to_query_string(), "Age >= 21");
    assert_eq!(Condition::from_str(&c.to_query_string()).unwrap(), c);
}

#[test]
fn query_prints_and_reads_back() {
    let q = Filter::from_str("'Name,Phone' WHERE Name = 'Somebody'").unwrap();
    let text = q.to_query_string();
    assert_eq!(text, "'Name,Phone' WHERE Name = 'Somebody'");
    assert_eq!(Filter::from_str(&text).unwrap(), q);

    let all = Filter::from_str("Name").unwrap();
    assert_eq!(all.to_query_string(), "'Name'");
    assert_eq!(Filter::from_str(&all.to_query_string()).unwrap(), all);
}

#[test]
fn function_clauses_print_and_read_back() {
    for text in [
        "REGEX(SomeField, '.*regex.*')",
        "v = REF(SomeField)",
        "v = REF(SPLIT(Children, ','))",
        "c = SPLIT(Children, ';')",
    ] {
        let c = Condition::from_str(text).unwrap();
        assert_eq!(c.to_query_string(), text);
        assert_eq!(Condition::from_str(&c.to_query_string()).unwrap(), c);
    }
    let q = Filter::from_str("'Name,s.Name' WHERE Name = 'A' AND s = REF(Spouse)").unwrap();
    assert_eq!(Filter::from_str(&q.to_query_string()).unwrap(), q);
}
