use natural_sort::{lexical_compare, StringParts};
use std::cmp::Ordering;

fn parts(s: &str) -> StringParts {
    StringParts::split(s).unwrap()
}

fn order(lhs: &str, rhs: &str) -> Ordering {
    parts(lhs).compare(&parts(rhs))
}

const SAMPLES: [&str; 24] = [
    "", "a", "b", "a1", "a01", "a2", "a10", "a1a", "a1b", "a1b2", "a1b02", "a1b3", "a1b10", "1",
    "2", "10", "1a", "z9", "z10", "z10a", "ab", "abc1", "é1", "a1b2c3",
];

#[test]
fn numbers_compare_by_value() {
    assert_eq!(order("z9", "z10"), Ordering::Less);
    assert_eq!(order("z10", "z9"), Ordering::Greater);
    assert_eq!(order("z100", "z99"), Ordering::Greater);
}

#[test]
fn prefix_decides_before_number() {
    assert_eq!(order("a1", "b1"), Ordering::Less);
    assert_eq!(order("a9", "b1"), Ordering::Less);
    assert_eq!(order("b1", "a9"), Ordering::Greater);
}

#[test]
fn remainders_compare_in_turn() {
    assert_eq!(order("a1b2", "a1b3"), Ordering::Less);
    assert_eq!(order("a1b10", "a1b9"), Ordering::Greater);
    assert_eq!(order("a1b2c3", "a1b2c3"), Ordering::Equal);
    assert_eq!(order("a1b2c3", "a1b2c4"), Ordering::Less);
}

#[test]
fn pairwise_examples() {
    assert_eq!(order("1", "a"), Ordering::Less);
    assert_eq!(order("asdf1", "asdf"), Ordering::Greater);
    assert_eq!(order("123", "12"), Ordering::Greater);
    assert_eq!(order("asd122", "asd13"), Ordering::Greater);
}

#[test]
fn no_number_comes_before_any_number() {
    assert_eq!(order("a", "a0"), Ordering::Less);
    assert_eq!(order("a0", "a"), Ordering::Greater);
    assert_eq!(order("", "0"), Ordering::Less);
}

#[test]
fn no_remainder_comes_before_any_remainder() {
    assert_eq!(order("z10", "z10a"), Ordering::Less);
    assert_eq!(order("z10a", "z10"), Ordering::Greater);
    assert_eq!(order("a1", "a1b"), Ordering::Less);
    assert_eq!(order("a1b", "a1"), Ordering::Greater);
}

#[test]
fn leading_zeros_do_not_change_the_rank() {
    assert_eq!(order("a01", "a1"), Ordering::Equal);
    assert_eq!(order("a1b02", "a1b2"), Ordering::Equal);
    assert_eq!(order("a1b02", "a1b3"), Ordering::Less);
}

#[test]
fn empty_strings() {
    assert_eq!(order("", ""), Ordering::Equal);
    assert_eq!(order("", "a"), Ordering::Less);
    assert_eq!(order("a", ""), Ordering::Greater);
}

#[test]
fn each_sample_equals_itself() {
    for s in SAMPLES {
        assert_eq!(order(s, s), Ordering::Equal, "{:?}", s);
    }
}

#[test]
fn exchanging_sides_reverses_the_result() {
    for s in SAMPLES {
        for t in SAMPLES {
            assert_eq!(order(t, s), order(s, t).reverse(), "{:?} {:?}", s, t);
        }
    }
}

#[test]
fn order_is_transitive() {
    for s in SAMPLES {
        for t in SAMPLES {
            for u in SAMPLES {
                let st = order(s, t);
                let tu = order(t, u);
                if st != Ordering::Greater && tu != Ordering::Greater {
                    let su = order(s, u);
                    assert_ne!(su, Ordering::Greater, "{:?} {:?} {:?}", s, t, u);
                    if st == Ordering::Less || tu == Ordering::Less {
                        assert_eq!(su, Ordering::Less, "{:?} {:?} {:?}", s, t, u);
                    } else {
                        assert_eq!(su, Ordering::Equal, "{:?} {:?} {:?}", s, t, u);
                    }
                }
            }
        }
    }
}

/// No run of digits in `s` starts with a zero that another digit follows.
fn plainly_written(s: &str) -> bool {
    let c: Vec<char> = s.chars().collect();
    (0..c.len()).all(|i| {
        let leads = c[i] == '0' && (i == 0 || !c[i - 1].is_ascii_digit());
        !(leads && i + 1 < c.len() && c[i + 1].is_ascii_digit())
    })
}

#[test]
fn plainly_written_samples_of_same_rank_are_the_same() {
    assert!(plainly_written("a10b0"));
    assert!(!plainly_written("a01"));
    let mut pairs = 0;
    for s in SAMPLES {
        for t in SAMPLES {
            if plainly_written(s) && plainly_written(t) && order(s, t) == Ordering::Equal {
                assert_eq!(s, t);
                pairs += 1;
            }
        }
    }
    assert_eq!(pairs, 22);
}

#[test]
fn partial_cmp_is_never_none() {
    for s in SAMPLES {
        for t in SAMPLES {
            assert_eq!(parts(s).partial_cmp(&parts(t)), Some(order(s, t)));
        }
    }
}

#[test]
fn operators_follow_the_order() {
    for s in SAMPLES {
        for t in SAMPLES {
            let o = order(s, t);
            let (a, b) = (parts(s), parts(t));
            assert_eq!(a < b, o == Ordering::Less);
            assert_eq!(a <= b, o != Ordering::Greater);
            assert_eq!(a > b, o == Ordering::Greater);
            assert_eq!(a >= b, o != Ordering::Less);
        }
    }
}

#[test]
fn equality_is_equality_of_joined_text() {
    assert!(parts("a1b2") == parts("a1b2"));
    assert!(parts("a01") == parts("a1"));
    assert!(parts("a1b02") != parts("a1b2"));
    assert!(parts("a1") != parts("a2"));
    for s in SAMPLES {
        for t in SAMPLES {
            let same = parts(s).join() == parts(t).join();
            assert_eq!(parts(s) == parts(t), same);
            assert_eq!(parts(s) != parts(t), !same);
            if same {
                assert_eq!(order(s, t), Ordering::Equal);
            }
        }
    }
}

#[test]
fn lexical_compare_examples() {
    assert_eq!(lexical_compare("", ""), Ordering::Equal);
    assert_eq!(lexical_compare("", "a"), Ordering::Less);
    assert_eq!(lexical_compare("a", ""), Ordering::Greater);
    assert_eq!(lexical_compare("abc", "abd"), Ordering::Less);
    assert_eq!(lexical_compare("abd", "abc"), Ordering::Greater);
    assert_eq!(lexical_compare("ab", "abc"), Ordering::Less);
    assert_eq!(lexical_compare("abc", "abc"), Ordering::Equal);
    assert_eq!(lexical_compare("Z", "a"), Ordering::Less);
    assert_eq!(lexical_compare("z", "é"), Ordering::Less);
    assert_eq!(lexical_compare("\u{FFFF}", "\u{10000}"), Ordering::Less);
}

#[test]
fn lexical_compare_agrees_with_str_order() {
    let words = ["", "a", "ab", "b", "é", "z", "zz", "\u{10000}", "\u{FFFF}", "A", "10", "9"];
    for s in words {
        for t in words {
            assert_eq!(lexical_compare(s, t), s.cmp(t), "{:?} {:?}", s, t);
        }
    }
}
