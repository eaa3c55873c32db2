use upim::either::Either;

#[test]
fn either_is_methods() {
    let left = Either::<String, i32>::Left("s".to_owned());
    let right = Either::<String, i32>::Right(5);

    assert!(left.is_left());
    assert!(!left.is_right());
    assert!(right.is_right());
    assert!(!right.is_left());
}

#[test]
fn either_get_left_right() {
    let left = Either::<String, i32>::Left("s".to_owned());
    let right = Either::<String, i32>::Right(5);

    assert_eq!(left.left(), Some(&"s".to_owned()));
    assert_eq!(left.right(), None);
    assert_eq!(right.right(), Some(&5));
    assert_eq!(right.left(), None);
}
