use std::str::FromStr;

use upim::contact::Contact;
use upim::filter::{Condition, FilterOp};
use upim::note::Note;

#[test]
fn simple_contact_name() {
    let text = "\
    [Name: Favorite Person]\n\
    [Phone: 123-456]\n\
    ";

    let contact = Contact::new(Note::from_str(text).unwrap()).unwrap();
    assert_eq!(contact.name().unwrap(), "Favorite Person");
}

#[test]
fn simple_contact_full_name() {
    let text = "\
    [Full Name: Favorite Person]\n\
    [Phone: 123-456]\n\
    ";

    let contact = Contact::new(Note::from_str(text).unwrap()).unwrap();
    assert_eq!(contact.name().unwrap(), "Favorite Person");
}

#[test]
fn merge_given_family_name() {
    let text = "\
    [Given Name: Favorite]\n\
    [Family Name: Person]\n\
    [Phone: 123-456]\n\
    ";

    let contact = Contact::new(Note::from_str(text).unwrap()).unwrap();
    assert_eq!(contact.name().unwrap(), "Favorite Person");
}

#[test]
fn merge_first_last_name() {
    let text = "\
    [First Name: Favorite]\n\
    [Last Name: Person]\n\
    [Phone: 123-456]\n\
    ";

    let contact = Contact::new(Note::from_str(text).unwrap()).unwrap();
    assert_eq!(contact.name().unwrap(), "Favorite Person");
}

#[test]
fn new_contact_is_error_with_no_name() {
    let text = "\
    [Phone: 123-456]\n\
    ";

    assert!(Contact::new(Note::from_str(text).unwrap()).is_err());
}

#[test]
fn get_field() {
    let text = "\
    [Name: Favorite Person]\n\
    [Phone: 123-456]\n\
    ";

    let contact = Contact::new(Note::from_str(text).unwrap()).unwrap();
    assert_eq!(contact.get_field("Phone").unwrap(), "123-456");
}

#[test]
fn get_field_from_group() {
    let text = "\
    [Name: Favorite Person]\n\
    \n\
    @employer\n\
    [Name: Some Company]\n\
    [Address: 123 Somewhere]\n\
    ";

    let contact = Contact::new(Note::from_str(text).unwrap()).unwrap();
    assert_eq!(
        contact.get_field_from("employer", "Name").unwrap(),
        "Some Company"
    );
    assert_eq!(
        contact.get_field_from("employer", "Address").unwrap(),
        "123 Somewhere"
    );
}

#[test]
fn group_list() {
    let text = "\
    [Name: Favorite Person]\n\
    \n\
    @employer\n\
    [Name: Some Company]\n\
    ";

    let contact = Contact::new(Note::from_str(text).unwrap()).unwrap();
    let groups: Vec<&String> = contact.groups().iter().collect();

    assert!(groups.contains(&&String::from("default")));
    assert!(groups.contains(&&String::from("employer")));
    assert_eq!(groups.len(), 2);
}

#[test]
fn filter_equal() {
    let text = "\
    [Name: Favorite Person]\n\
    [Num: 123]\n\
    ";

    let contact = Contact::new(Note::from_str(text).unwrap()).unwrap();

    let cond_true1 = Condition::Filter(
        "Name".into(),
        FilterOp::EqualTo,
        "Favorite Person".into()
    );
    let cond_true2 = Condition::Filter(
        "Num".into(),
        FilterOp::EqualTo,
        "123".into()
    );

    let cond_false1 = Condition::Filter(
        "Name".into(),
        FilterOp::EqualTo,
        "Other".into()
    );
    let cond_false2 = Condition::Filter(
        "Num".into(),
        FilterOp::EqualTo,
        "12".into()
    );
    let cond_false3 = Condition::Filter(
        "Stuff".into(),
        FilterOp::EqualTo,
        "a".into()
    );

    assert_eq!(contact.matches(&cond_true1), Some(true));
    assert_eq!(contact.matches(&cond_true2), Some(true));
    assert_eq!(contact.matches(&cond_false1), Some(false));
    assert_eq!(contact.matches(&cond_false2), Some(false));
    assert_eq!(contact.matches(&cond_false3), Some(false));
}

#[test]
fn filter_less_than() {
    let text = "\
    [Name: Favorite Person]\n\
    [Num: 123]\n\
    ";

    let contact = Contact::new(Note::from_str(text).unwrap()).unwrap();

    let cond_true = Condition::Filter(
        "Num".into(),
        FilterOp::LessThan,
        "200".into()
    );

    let cond_false1 = Condition::Filter(
        "Name".into(),
        FilterOp::LessThan,
        "Other".into()
    );
    let cond_false2 = Condition::Filter(
        "Num".into(),
        FilterOp::LessThan,
        "12".into()
    );
    let cond_false3 = Condition::Filter(
        "Stuff".into(),
        FilterOp::LessThan,
        "5".into()
    );

    assert_eq!(contact.matches(&cond_true), Some(true));
    assert_eq!(contact.matches(&cond_false1), Some(false));
    assert_eq!(contact.matches(&cond_false2), Some(false));
    assert_eq!(contact.matches(&cond_false3), Some(false));
}

#[test]
fn filter_less_equal() {
    let text = "\
    [Name: Favorite Person]\n\
    [Num: 123]\n\
    ";

    let contact = Contact::new(Note::from_str(text).unwrap()).unwrap();

    let cond_true1 = Condition::Filter(
        "Num".into(),
        FilterOp::LessEq,
        "200".into()
    );
    let cond_true2 = Condition::Filter(
        "Num".into(),
        FilterOp::LessEq,
        "123".into()
    );

    let cond_false1 = Condition::Filter(
        "Name".into(),
        FilterOp::LessEq,
        "Other".into()
    );
    let cond_false2 = Condition::Filter(
        "Num".into(),
        FilterOp::LessEq,
        "20".into()
    );
    let cond_false3 = Condition::Filter(
        "Stuff".into(),
        FilterOp::LessEq,
        "5".into()
    );

    assert_eq!(contact.matches(&cond_true1), Some(true));
    assert_eq!(contact.matches(&cond_true2), Some(true));
    assert_eq!(contact.matches(&cond_false1), Some(false));
    assert_eq!(contact.matches(&cond_false2), Some(false));
    assert_eq!(contact.matches(&cond_false3), Some(false));
}

#[test]
fn filter_greater_than() {
    let text = "\
    [Name: Favorite Person]\n\
    [Num: 123]\n\
    ";

    let contact = Contact::new(Note::from_str(text).unwrap()).unwrap();

    let cond_true = Condition::Filter(
        "Num".into(),
        FilterOp::GreaterThan,
        "20".into()
    );

    let cond_false1 = Condition::Filter(
        "Name".into(),
        FilterOp::GreaterThan,
        "Other".into()
    );
    let cond_false2 = Condition::Filter(
        "Num".into(),
        FilterOp::GreaterThan,
        "123".into()
    );
    let cond_false3 = Condition::Filter(
        "Num".into(),
        FilterOp::GreaterThan,
        "200".into()
    );
    let cond_false4 = Condition::Filter(
        "Stuff".into(),
        FilterOp::GreaterThan,
        "5".into()
    );

    assert_eq!(contact.matches(&cond_true), Some(true));
    assert_eq!(contact.matches(&cond_false1), Some(false));
    assert_eq!(contact.matches(&cond_false2), Some(false));
    assert_eq!(contact.matches(&cond_false3), Some(false));
    assert_eq!(contact.matches(&cond_false4), Some(false));
}

#[test]
fn filter_greater_equal() {
    let text = "\
    [Name: Favorite Person]\n\
    [Num: 123]\n\
    ";

    let contact = Contact::new(Note::from_str(text).unwrap()).unwrap();

    let cond_true1 = Condition::Filter(
        "Num".into(),
        FilterOp::GreaterEq,
        "20".into()
    );
    let cond_true2 = Condition::Filter(
        "Num".into(),
        FilterOp::GreaterEq,
        "123".into()
    );

    let cond_false1 = Condition::Filter(
        "Name".into(),
        FilterOp::GreaterEq,
        "Other".into()
    );
    let cond_false2 = Condition::Filter(
        "Num".into(),
        FilterOp::GreaterEq,
        "200".into()
    );
    let cond_false3 = Condition::Filter(
        "Stuff".into(),
        FilterOp::GreaterEq,
        "5".into()
    );

    assert_eq!(contact.matches(&cond_true1), Some(true));
    assert_eq!(contact.matches(&cond_true2), Some(true));
    assert_eq!(contact.matches(&cond_false1), Some(false));
    assert_eq!(contact.matches(&cond_false2), Some(false));
    assert_eq!(contact.matches(&cond_false3), Some(false));
}

#[test]
fn filter_not_equal() {
    let text = "\
    [Name: Favorite Person]\n\
    [Num: 123]\n\
    ";

    let contact = Contact::new(Note::from_str(text).unwrap()).unwrap();

    let cond_true1 = Condition::Filter(
        "Name".into(),
        FilterOp::Not,
        "Other Person".into()
    );
    let cond_true2 = Condition::Filter(
        "Num".into(),
        FilterOp::Not,
        "12".into()
    );
    let cond_true3 = Condition::Filter(
        "Stuff".into(),
        FilterOp::Not,
        "a".into()
    );

    let cond_false1 = Condition::Filter(
        "Name".into(),
        FilterOp::Not,
        "Favorite Person".into()
    );
    let cond_false2 = Condition::Filter(
        "Num".into(),
        FilterOp::Not,
        "123".into()
    );

    assert_eq!(contact.matches(&cond_true1), Some(true));
    assert_eq!(contact.matches(&cond_true2), Some(true));
    assert_eq!(contact.matches(&cond_true3), Some(true));
    assert_eq!(contact.matches(&cond_false1), Some(false));
    assert_eq!(contact.matches(&cond_false2), Some(false));
}

#[test]
fn filter_cond_and_cond() {
    let text = "\
    [Name: Favorite Person]\n\
    [Num: 123]\n\
    ";

    let contact = Contact::new(Note::from_str(text).unwrap()).unwrap();

    let cond_true_a = Condition::Filter(
        "Name".into(),
        FilterOp::EqualTo,
        "Favorite Person".into()
    );
    let cond_true_b = Condition::Filter(
        "Num".into(),
        FilterOp::EqualTo,
        "123".into()
    );

    let cond_false_a = Condition::Filter(
        "Num".into(),
        FilterOp::LessThan,
        "10".into()
    );
    let cond_false_b = Condition::Filter(
        "Name".into(),
        FilterOp::EqualTo,
        "Other Person".into()
    );

    let cond_true = Condition::And(
        Box::new((cond_true_a.clone(), cond_true_b.clone())));
    let cond_false1 = Condition::And(
        Box::new((cond_true_a, cond_false_a.clone())));
    let cond_false2 = Condition::And(
        Box::new((cond_false_a, cond_false_b)));

    assert_eq!(contact.matches(&cond_true), Some(true));
    assert_eq!(contact.matches(&cond_false1), Some(false));
    assert_eq!(contact.matches(&cond_false2), Some(false));
}

#[test]
fn filter_cond_or_cond() {
    let text = "\
    [Name: Favorite Person]\n\
    [Num: 123]\n\
    ";

    let contact = Contact::new(Note::from_str(text).unwrap()).unwrap();

    let cond_true_a = Condition::Filter(
        "Name".into(),
        FilterOp::EqualTo,
        "Favorite Person".into()
    );
    let cond_true_b = Condition::Filter(
        "Num".into(),
        FilterOp::EqualTo,
        "123".into()
    );

    let cond_false_a = Condition::Filter(
        "Num".into(),
        FilterOp::LessThan,
        "10".into()
    );
    let cond_false_b = Condition::Filter(
        "Name".into(),
        FilterOp::EqualTo,
        "Other Person".into()
    );

    let cond_true1 = Condition::Or(
        Box::new((cond_true_a.clone(), cond_true_b.clone())));
    let cond_true2 = Condition::Or(
        Box::new((cond_true_a, cond_false_b.clone())));
    let cond_true3 = Condition::Or(
        Box::new((cond_false_a.clone(), cond_true_b)));
    let cond_false = Condition::Or(Box::new((cond_false_a, cond_false_b)));

    assert_eq!(contact.matches(&cond_true1), Some(true));
    assert_eq!(contact.matches(&cond_true2), Some(true));
    assert_eq!(contact.matches(&cond_true3), Some(true));
    assert_eq!(contact.matches(&cond_false), Some(false));
}

#[test]
fn filter_in_group() {
    let text = "\
    [Name: Favorite Person]\n\
    [Num: 123]\n\
    \n\
    @Employer\n\
    [Name: Some Company]\n\
    ";

    let contact = Contact::new(Note::from_str(text).unwrap()).unwrap();

    let cond_true = Condition::Filter(
        "Employer:Name".into(),
        FilterOp::EqualTo,
        "Some Company".into()
    );
    let cond_false = Condition::Filter(
        "Employer:Name".into(),
        FilterOp::EqualTo,
        "Favorite Person".into()
    );

    assert_eq!(contact.matches(&cond_true), Some(true));
    assert_eq!(contact.matches(&cond_false), Some(false));
}

#[test]
fn nested_group_without_tags_continues_group() {
    let text = "\
    [Name: Favorite Person]\n\
    \n\
    @employer\n\
    [Name: Some Company]\n\
    \n\
    [Phone: 555]\n\
    \n\
    Closing words.\n\
    ";

    let contact = Contact::new(Note::from_str(text).unwrap()).unwrap();
    assert_eq!(contact.get_field_from("EMPLOYER", "Name").unwrap(), "Some Company");
    // A later note of a group is not consulted: the group's first note wins.
    assert_eq!(contact.get_field_from("employer", "Phone"), None);
    assert_eq!(contact.groups().len(), 2);
}

#[test]
fn contact_tags_come_from_first_note() {
    let text = "@friend @work\n[Given Name: Ann]\n";
    let contact = Contact::new(Note::from_str(text).unwrap()).unwrap();
    assert_eq!(contact.tags(), ["@friend".to_string(), "@work".to_string()]);
    assert_eq!(contact.name().unwrap(), "Ann");
}
