use natural_sort::{natural_sort, Overflow, StringParts};
use std::cmp::Ordering;

fn order(lhs: &str, rhs: &str) -> Ordering {
    StringParts::split(lhs)
        .unwrap()
        .compare(&StringParts::split(rhs).unwrap())
}

#[test]
fn sort_scenario() {
    let mut list = vec![
        "z10a", "b23g", "z999", "z10", "x12z34", "x12z101", "z9", "z3", "z101", "z5",
    ];
    assert_eq!(natural_sort(&mut list), Ok(()));
    assert_eq!(
        list,
        vec!["b23g", "x12z34", "x12z101", "z3", "z5", "z9", "z10", "z10a", "z101", "z999"]
    );
}

#[test]
fn sort_empty_and_single() {
    let mut none: Vec<&str> = vec![];
    assert_eq!(natural_sort(&mut none), Ok(()));
    assert!(none.is_empty());
    let mut one = vec!["z10"];
    assert_eq!(natural_sort(&mut one), Ok(()));
    assert_eq!(one, vec!["z10"]);
}

#[test]
fn sort_is_by_number_not_by_text() {
    let mut list = vec!["file10", "file9", "file100", "file1", "file2"];
    assert_eq!(natural_sort(&mut list), Ok(()));
    assert_eq!(list, vec!["file1", "file2", "file9", "file10", "file100"]);
}

#[test]
fn sort_keeps_every_string() {
    let mut list = vec!["b", "a", "b", "a1", "a", "", "a1", "b"];
    assert_eq!(natural_sort(&mut list), Ok(()));
    assert_eq!(list, vec!["", "a", "a", "a1", "a1", "b", "b", "b"]);
}

#[test]
fn sort_leaves_neighbours_in_order() {
    let mut list = vec![
        "a1b02", "z9", "", "a10", "1", "a1b10", "abc1", "a", "a2", "10", "a1b3", "z10a", "2",
        "a1", "z10", "1a", "b", "a1b2", "ab", "a1a", "a01", "a1b",
    ];
    assert_eq!(natural_sort(&mut list), Ok(()));
    assert_eq!(list.len(), 22);
    for pair in list.windows(2) {
        assert_ne!(order(pair[0], pair[1]), Ordering::Greater, "{:?}", pair);
    }
}

#[test]
fn sort_keeps_order_of_strings_of_same_rank() {
    let mut list = vec!["a01", "a1", "a001"];
    assert_eq!(natural_sort(&mut list), Ok(()));
    assert_eq!(list, vec!["a01", "a1", "a001"]);

    let mut list = vec!["b", "a001", "c", "a1", "a", "a01"];
    assert_eq!(natural_sort(&mut list), Ok(()));
    assert_eq!(list, vec!["a", "a001", "a1", "a01", "b", "c"]);

    let mut list = vec!["x1y02", "x01y2", "x1y2", "x1y1"];
    assert_eq!(natural_sort(&mut list), Ok(()));
    assert_eq!(list, vec!["x1y1", "x1y02", "x01y2", "x1y2"]);
}

#[test]
fn sorting_what_is_sorted_changes_nothing() {
    let sorted = vec![
        "b23g", "x12z34", "x12z101", "z3", "z5", "z9", "z10", "z10a", "z101", "z999",
    ];
    let mut list = sorted.clone();
    assert_eq!(natural_sort(&mut list), Ok(()));
    assert_eq!(list, sorted);
}

#[test]
fn sorting_twice_is_sorting_once() {
    let mut list = vec!["a10", "a01", "b", "a1", "a2", "", "a001", "10", "9"];
    assert_eq!(natural_sort(&mut list), Ok(()));
    let once = list.clone();
    assert_eq!(natural_sort(&mut list), Ok(()));
    assert_eq!(list, once);
}

#[test]
fn sort_reversed_input() {
    let mut list = vec!["z999", "z101", "z10a", "z10", "z9", "z5", "z3"];
    assert_eq!(natural_sort(&mut list), Ok(()));
    assert_eq!(list, vec!["z3", "z5", "z9", "z10", "z10a", "z101", "z999"]);
}

#[test]
fn sort_many_strings() {
    let names: Vec<String> = (0..500u32)
        .map(|i| format!("item{}", (i * 7919) % 500))
        .collect();
    let mut list: Vec<&str> = names.iter().map(|s| s.as_str()).collect();
    assert_eq!(natural_sort(&mut list), Ok(()));
    let expected: Vec<String> = (0..500u32).map(|i| format!("item{}", i)).collect();
    assert_eq!(list, expected);
}

#[test]
fn sort_rejects_overflow_and_changes_nothing() {
    let mut list = vec!["b2", "a18446744073709551616", "a1"];
    assert_eq!(natural_sort(&mut list), Err(Overflow));
    assert_eq!(list, vec!["b2", "a18446744073709551616", "a1"]);

    let mut list = vec!["b2", "a1", "c1d99999999999999999999"];
    assert_eq!(natural_sort(&mut list), Err(Overflow));
    assert_eq!(list, vec!["b2", "a1", "c1d99999999999999999999"]);

    let mut list = vec!["99999999999999999999"];
    assert_eq!(natural_sort(&mut list), Err(Overflow));
    assert_eq!(list, vec!["99999999999999999999"]);
}

#[test]
fn sort_accepts_largest_number() {
    let mut list = vec!["n18446744073709551615", "n18446744073709551614", "n0"];
    assert_eq!(natural_sort(&mut list), Ok(()));
    assert_eq!(
        list,
        vec!["n0", "n18446744073709551614", "n18446744073709551615"]
    );
}
