use natural_sort::digits::{digit_of, push_decimal};
use natural_sort::{char_is_digit, is_representable, Overflow, StringParts};

fn parts(s: &str) -> StringParts {
    StringParts::split(s).unwrap()
}

fn fields(s: &str) -> (String, Option<u64>, Option<String>) {
    let p = parts(s);
    (
        p.alpha().to_string(),
        p.numeric(),
        p.remainder().map(|r| r.to_string()),
    )
}

#[test]
fn split_prefix_number_remainder() {
    assert_eq!(
        fields("abc123def"),
        ("abc".to_string(), Some(123), Some("def".to_string()))
    );
}

#[test]
fn split_empty_string() {
    assert_eq!(fields(""), (String::new(), None, None));
}

#[test]
fn split_without_digits() {
    assert_eq!(fields("hello world"), ("hello world".to_string(), None, None));
}

#[test]
fn split_digits_only() {
    assert_eq!(fields("2024"), (String::new(), Some(2024), None));
}

#[test]
fn split_digits_to_the_end() {
    assert_eq!(fields("img12"), ("img".to_string(), Some(12), None));
}

#[test]
fn split_starts_with_digits() {
    assert_eq!(
        fields("12abc34"),
        (String::new(), Some(12), Some("abc34".to_string()))
    );
}

#[test]
fn split_takes_first_run_only() {
    assert_eq!(
        fields("x12z34"),
        ("x".to_string(), Some(12), Some("z34".to_string()))
    );
}

#[test]
fn split_single_zero() {
    assert_eq!(fields("a0b"), ("a".to_string(), Some(0), Some("b".to_string())));
}

#[test]
fn split_reads_leading_zeros_as_number() {
    assert_eq!(
        fields("a007b"),
        ("a".to_string(), Some(7), Some("b".to_string()))
    );
}

#[test]
fn split_non_ascii_prefix_and_remainder() {
    assert_eq!(
        fields("über42straße"),
        ("über".to_string(), Some(42), Some("straße".to_string()))
    );
}

#[test]
fn split_other_scripts_digits_are_no_digits() {
    // ARABIC-INDIC DIGIT THREE and SUPERSCRIPT TWO are numeric, not '0'..='9'.
    assert_eq!(fields("a\u{0663}b"), ("a\u{0663}b".to_string(), None, None));
    assert_eq!(
        fields("x\u{00B2}7"),
        ("x\u{00B2}".to_string(), Some(7), None)
    );
}

#[test]
fn split_largest_number() {
    assert_eq!(
        fields("n18446744073709551615"),
        ("n".to_string(), Some(u64::MAX), None)
    );
}

#[test]
fn split_rejects_number_past_64_bits() {
    assert!(matches!(
        StringParts::split("n18446744073709551616"),
        Err(Overflow)
    ));
    assert!(matches!(
        StringParts::split("99999999999999999999999"),
        Err(Overflow)
    ));
}

#[test]
fn split_rejects_overflow_in_remainder() {
    assert!(matches!(
        StringParts::split("a1b18446744073709551616c"),
        Err(Overflow)
    ));
    assert!(matches!(
        StringParts::split("a1b2c3d100000000000000000000"),
        Err(Overflow)
    ));
}

#[test]
fn split_accepts_long_run_of_small_value() {
    assert_eq!(
        fields("v0000000000000000000000000000042"),
        ("v".to_string(), Some(42), None)
    );
}

#[test]
fn is_representable_examples() {
    assert!(is_representable(""));
    assert!(is_representable("abc"));
    assert!(is_representable("a1b22c333"));
    assert!(is_representable("18446744073709551615"));
    assert!(is_representable("x18446744073709551615y18446744073709551615"));
    assert!(!is_representable("18446744073709551616"));
    assert!(!is_representable("18446744073709551620"));
    assert!(!is_representable("a1b18446744073709551616"));
    assert!(!is_representable("184467440737095516150"));
    assert!(is_representable("000000000000000000000000000001"));
}

#[test]
fn join_gives_the_string_back() {
    for s in ["", "abc", "z10a", "x12z34", "123", "a0", "0", "über42straße", "a1b02"] {
        assert_eq!(parts(s).join(), s);
    }
}

#[test]
fn join_drops_leading_zeros_of_the_number() {
    assert_eq!(parts("a007b").join(), "a7b");
    assert_eq!(parts("000").join(), "0");
    assert_eq!(parts("a01b02").join(), "a1b02");
}

#[test]
fn join_writes_each_number_exactly() {
    for n in [0u64, 1, 9, 10, 11, 99, 100, 101, 12345, 9007199254740993, u64::MAX] {
        let s = format!("k{}", n);
        assert_eq!(parts(&s).numeric(), Some(n));
        assert_eq!(parts(&s).join(), s);
    }
}

#[test]
fn split_of_join_is_the_same_parts() {
    for s in ["a007b", "z10a", "", "12", "a1b02"] {
        let p = parts(s);
        let q = parts(&p.join());
        assert_eq!(p.alpha(), q.alpha());
        assert_eq!(p.numeric(), q.numeric());
        assert_eq!(p.remainder(), q.remainder());
    }
}

#[test]
fn digit_characters() {
    for (i, c) in "0123456789".chars().enumerate() {
        assert!(char_is_digit(c));
        assert_eq!(digit_of(c), i as u64);
    }
    for c in ['/', ':', 'a', ' ', '\u{0663}', '\u{00B2}', '\u{FF11}'] {
        assert!(!char_is_digit(c));
    }
}

#[test]
fn push_decimal_appends() {
    let mut s = String::from("n=");
    push_decimal(&mut s, 0);
    assert_eq!(s, "n=0");
    push_decimal(&mut s, 1205);
    assert_eq!(s, "n=01205");
    push_decimal(&mut s, u64::MAX);
    assert_eq!(s, "n=0120518446744073709551615");
}
