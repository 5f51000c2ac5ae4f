use natural_sort::natural_sort;
use natural_sort::StringParts;
use std::cmp::Ordering;

fn comp(lhs: &str, rhs: &str) -> Option<Ordering> {
    StringParts::split(lhs)
        .unwrap()
        .partial_cmp(&StringParts::split(rhs).unwrap())
}

#[test]
fn test_natural_sort() {
    let mut list = vec![
        "z10a", "b23g", "z999", "z10", "x12z34", "x12z101", "z9", "z3", "z101", "z5",
    ];
    let expected = vec![
        "b23g", "x12z34", "x12z101", "z3", "z5", "z9", "z10", "z10a", "z101", "z999",
    ];

    assert_eq!(natural_sort(&mut list), Ok(()));

    assert_eq!(list, expected);
}

#[test]
fn test_partial_ord() {
    assert_eq!(comp("asdf", "asdf"), Some(Ordering::Equal));
    assert_eq!(comp("asd", "asdf"), Some(Ordering::Less));
    assert_eq!(comp("asff", "asef"), Some(Ordering::Greater));
    assert_eq!(comp("asdf1", "asdf"), Some(Ordering::Greater));

    assert_eq!(comp("123", "123"), Some(Ordering::Equal));
    assert_eq!(comp("123", "321"), Some(Ordering::Less));
    assert_eq!(comp("123", "12"), Some(Ordering::Greater));
    assert_eq!(comp("1", "11"), Some(Ordering::Less));

    assert_eq!(comp("asd123", "asd123"), Some(Ordering::Equal));
    assert_eq!(comp("asd123", "asd124"), Some(Ordering::Less));
    assert_eq!(comp("asd123", "asd122"), Some(Ordering::Greater));
    assert_eq!(comp("asd122", "asd13"), Some(Ordering::Greater));
    assert_eq!(comp("asd122", "asd1111"), Some(Ordering::Less));

    assert_eq!(comp("123a7", "123b1"), Some(Ordering::Less));
    assert_eq!(comp("124a7", "123b1"), Some(Ordering::Greater));
    assert_eq!(comp("a23b7", "a24b8"), Some(Ordering::Less));

    assert_eq!(comp("1", "a"), Some(Ordering::Less));
    assert_eq!(comp("a", "1"), Some(Ordering::Greater));
}
