//! The natural order: how two segmented texts compare.

use crate::parts::StringParts;
use crate::segment::{
    lemma_plainly_written_parts, lemma_round_trip, lemma_segment_wf, lemma_text_injective,
    plainly_written, segment, Segment,
};
use std::cmp::Ordering;
use vstd::prelude::*;
use vstd::std_specs::iter::IteratorSpec;

verus! {

/// The order of two texts character by character, by code point: the first
/// place where they differ decides, and a text comes before every longer text
/// that starts with it.
pub open spec fn lexical_order(a: Seq<char>, b: Seq<char>) -> Ordering
    decreases a.len(),
{
    if a.len() == 0 {
        if b.len() == 0 {
            Ordering::Equal
        } else {
            Ordering::Less
        }
    } else if b.len() == 0 {
        Ordering::Greater
    } else if a[0] < b[0] {
        Ordering::Less
    } else if a[0] > b[0] {
        Ordering::Greater
    } else {
        lexical_order(a.drop_first(), b.drop_first())
    }
}

/// The order of two optional numbers: no number comes before any number, and
/// two numbers compare by value.
pub open spec fn number_order(a: Option<nat>, b: Option<nat>) -> Ordering {
    match (a, b) {
        (None, None) => Ordering::Equal,
        (None, Some(_)) => Ordering::Less,
        (Some(_), None) => Ordering::Greater,
        (Some(x), Some(y)) => if x < y {
            Ordering::Less
        } else if x > y {
            Ordering::Greater
        } else {
            Ordering::Equal
        },
    }
}

/// The natural order of two segmented texts. The prefixes decide where they
/// differ; else the numbers, where they differ; else the remainders: no
/// remainder comes before any remainder, and two remainders compare as texts,
/// in the natural order again.
pub open spec fn compare(a: Segment, b: Segment) -> Ordering
    decreases
        (match a.remainder {
            Some(r) => r.len() + 1,
            None => 0,
        }),
        0nat,
{
    if a.prefix != b.prefix {
        lexical_order(a.prefix, b.prefix)
    } else if a.number != b.number {
        number_order(a.number, b.number)
    } else {
        match (a.remainder, b.remainder) {
            (None, None) => Ordering::Equal,
            (None, Some(_)) => Ordering::Less,
            (Some(_), None) => Ordering::Greater,
            (Some(ra), Some(rb)) => natural_order(ra, rb),
        }
    }
}

/// The natural order of two texts: that of their segmentations.
pub open spec fn natural_order(s: Seq<char>, t: Seq<char>) -> Ordering
    decreases s.len(), 1nat,
{
    proof {
        lemma_segment_wf(s);
    }
    compare(segment(s), segment(t))
}

/// The same order, read from the other side.
pub open spec fn opposite(o: Ordering) -> Ordering {
    match o {
        Ordering::Less => Ordering::Greater,
        Ordering::Equal => Ordering::Equal,
        Ordering::Greater => Ordering::Less,
    }
}

/// `s` comes strictly before `t` in the natural order.
pub open spec fn comes_before(s: Seq<char>, t: Seq<char>) -> bool {
    natural_order(s, t) == Ordering::Less
}

/// Neither of `s` and `t` comes before the other in the natural order.
pub open spec fn same_rank(s: Seq<char>, t: Seq<char>) -> bool {
    natural_order(s, t) == Ordering::Equal
}

/// `s` does not come after `t` in the natural order.
pub open spec fn in_order(s: Seq<char>, t: Seq<char>) -> bool {
    natural_order(s, t) != Ordering::Greater
}

/// Two texts are equal in the lexical order exactly when they are the same
/// text.
pub proof fn lemma_lexical_equal(a: Seq<char>, b: Seq<char>)
    ensures
        lexical_order(a, b) == Ordering::Equal <==> a == b,
    decreases a.len(),
{
    if a.len() == 0 || b.len() == 0 {
        if a.len() == 0 && b.len() == 0 {
            assert(a =~= b);
        }
    } else {
        lemma_lexical_equal(a.drop_first(), b.drop_first());
        if a[0] == b[0] && a.drop_first() == b.drop_first() {
            assert(a =~= seq![a[0]] + a.drop_first());
            assert(b =~= seq![b[0]] + b.drop_first());
        }
    }
}

/// Exchanging the two texts turns the lexical order round.
pub proof fn lemma_lexical_opposite(a: Seq<char>, b: Seq<char>)
    ensures
        lexical_order(b, a) == opposite(lexical_order(a, b)),
    decreases a.len(),
{
    if a.len() > 0 && b.len() > 0 {
        lemma_lexical_opposite(a.drop_first(), b.drop_first());
    }
}

/// The lexical order is transitive.
pub proof fn lemma_lexical_transitive(a: Seq<char>, b: Seq<char>, c: Seq<char>)
    requires
        lexical_order(a, b) != Ordering::Greater,
        lexical_order(b, c) != Ordering::Greater,
    ensures
        lexical_order(a, c) != Ordering::Greater,
        lexical_order(a, b) == Ordering::Less || lexical_order(b, c) == Ordering::Less
            ==> lexical_order(a, c) == Ordering::Less,
    decreases a.len(),
{
    if a.len() > 0 && b.len() > 0 && c.len() > 0 {
        if a[0] == b[0] && b[0] == c[0] {
            lemma_lexical_transitive(a.drop_first(), b.drop_first(), c.drop_first());
        }
    }
}

/// Every segmented text is equal to itself in the natural order.
pub proof fn lemma_compare_reflexive(a: Segment)
    ensures
        compare(a, a) == Ordering::Equal,
    decreases
        (match a.remainder {
            Some(r) => r.len() + 1,
            None => 0,
        }),
        0nat,
{
    if let Some(r) = a.remainder {
        lemma_natural_order_reflexive(r);
    }
}

/// Every text is equal to itself in the natural order.
pub proof fn lemma_natural_order_reflexive(s: Seq<char>)
    ensures
        natural_order(s, s) == Ordering::Equal,
    decreases s.len(), 1nat,
{
    lemma_segment_wf(s);
    lemma_compare_reflexive(segment(s));
}

/// Exchanging the two sides turns the result round: one side is less exactly
/// when the other is greater, and equal exactly when the other is.
pub proof fn lemma_compare_opposite(a: Segment, b: Segment)
    ensures
        compare(b, a) == opposite(compare(a, b)),
    decreases
        (match a.remainder {
            Some(r) => r.len() + 1,
            None => 0,
        }),
        0nat,
{
    lemma_lexical_opposite(a.prefix, b.prefix);
    if let (Some(ra), Some(rb)) = (a.remainder, b.remainder) {
        lemma_natural_order_opposite(ra, rb);
    }
}

/// Exchanging the two texts turns the natural order round.
pub proof fn lemma_natural_order_opposite(s: Seq<char>, t: Seq<char>)
    ensures
        natural_order(t, s) == opposite(natural_order(s, t)),
    decreases s.len(), 1nat,
{
    lemma_segment_wf(s);
    lemma_compare_opposite(segment(s), segment(t));
}

/// The natural order is transitive: what is not greater than a second, which
/// is not greater than a third, is not greater than the third, and is less
/// than it where either step is strict.
pub proof fn lemma_compare_transitive(a: Segment, b: Segment, c: Segment)
    requires
        compare(a, b) != Ordering::Greater,
        compare(b, c) != Ordering::Greater,
    ensures
        compare(a, c) != Ordering::Greater,
        compare(a, b) == Ordering::Less || compare(b, c) == Ordering::Less ==> compare(a, c)
            == Ordering::Less,
    decreases
        (match a.remainder {
            Some(r) => r.len() + 1,
            None => 0,
        }),
        0nat,
{
    lemma_lexical_equal(a.prefix, b.prefix);
    lemma_lexical_equal(b.prefix, c.prefix);
    lemma_lexical_equal(a.prefix, c.prefix);
    if a.prefix == b.prefix && b.prefix == c.prefix {
        if a.number == b.number && b.number == c.number {
            if let (Some(ra), Some(rb), Some(rc)) = (a.remainder, b.remainder, c.remainder) {
                lemma_natural_order_transitive(ra, rb, rc);
            }
        }
    } else {
        lemma_lexical_transitive(a.prefix, b.prefix, c.prefix);
    }
}

/// The natural order of texts is transitive.
pub proof fn lemma_natural_order_transitive(s: Seq<char>, t: Seq<char>, u: Seq<char>)
    requires
        natural_order(s, t) != Ordering::Greater,
        natural_order(t, u) != Ordering::Greater,
    ensures
        natural_order(s, u) != Ordering::Greater,
        natural_order(s, t) == Ordering::Less || natural_order(t, u) == Ordering::Less
            ==> natural_order(s, u) == Ordering::Less,
    decreases s.len(), 1nat,
{
    lemma_segment_wf(s);
    lemma_compare_transitive(segment(s), segment(t), segment(u));
}

/// Well-formed parts that give the same text when put together have the same
/// rank.
pub proof fn lemma_same_text_same_rank(a: Segment, b: Segment)
    requires
        a.wf(),
        b.wf(),
        a.text() == b.text(),
    ensures
        a == b,
        compare(a, b) == Ordering::Equal,
{
    lemma_text_injective(a, b);
    lemma_compare_reflexive(a);
}

/// Two plainly written texts have the same rank only where they are the
/// same text.
pub proof fn lemma_same_rank_is_same_text(s: Seq<char>, t: Seq<char>)
    requires
        plainly_written(s),
        plainly_written(t),
        natural_order(s, t) == Ordering::Equal,
    ensures
        s == t,
    decreases s.len(),
{
    let a = segment(s);
    let b = segment(t);
    lemma_segment_wf(s);
    lemma_plainly_written_parts(s);
    lemma_plainly_written_parts(t);
    lemma_lexical_equal(a.prefix, b.prefix);
    if let (Some(ra), Some(rb)) = (a.remainder, b.remainder) {
        lemma_same_rank_is_same_text(ra, rb);
    }
    assert(a == b);
    lemma_round_trip(s);
    lemma_round_trip(t);
}

/// Of two texts exactly one of three holds: the first comes before the
/// second, the second before the first, or they have the same rank.
pub proof fn lemma_trichotomy(s: Seq<char>, t: Seq<char>)
    ensures
        comes_before(s, t) || same_rank(s, t) || comes_before(t, s),
        !(comes_before(s, t) && same_rank(s, t)),
        !(comes_before(s, t) && comes_before(t, s)),
        !(same_rank(s, t) && comes_before(t, s)),
        same_rank(s, t) == same_rank(t, s),
        in_order(s, t) == !comes_before(t, s),
{
    lemma_natural_order_opposite(s, t);
}

/// Every text has its own rank.
pub proof fn lemma_same_rank_reflexive(s: Seq<char>)
    ensures
        same_rank(s, s),
{
    lemma_natural_order_reflexive(s);
}

/// Being in order is transitive, and strictly so where either step is strict.
pub proof fn lemma_in_order_transitive(s: Seq<char>, t: Seq<char>, u: Seq<char>)
    requires
        in_order(s, t),
        in_order(t, u),
    ensures
        in_order(s, u),
        comes_before(s, t) || comes_before(t, u) ==> comes_before(s, u),
        same_rank(s, t) && same_rank(t, u) ==> same_rank(s, u),
{
    lemma_natural_order_transitive(s, t, u);
    lemma_trichotomy(s, t);
    lemma_trichotomy(t, u);
    lemma_trichotomy(s, u);
    if same_rank(s, t) && same_rank(t, u) {
        lemma_natural_order_transitive(u, t, s);
    }
}

/// Compares two strings character by character, by code point.
pub fn lexical_compare(a: &str, b: &str) -> (o: Ordering)
    ensures
        o == lexical_order(a@, b@),
{
    let mut left = a.chars();
    let mut right = b.chars();
    loop
        invariant
            left.obeys_prophetic_iter_laws(),
            right.obeys_prophetic_iter_laws(),
            left.decrease() is Some,
            lexical_order(a@, b@) == lexical_order(left.remaining(), right.remaining()),
        decreases left.decrease()->0,
    {
        match left.next() {
            None => {
                match right.next() {
                    None => {
                        return Ordering::Equal;
                    },
                    Some(_) => {
                        return Ordering::Less;
                    },
                }
            },
            Some(x) => {
                match right.next() {
                    None => {
                        return Ordering::Greater;
                    },
                    Some(y) => {
                        if x < y {
                            return Ordering::Less;
                        }
                        if x > y {
                            return Ordering::Greater;
                        }
                    },
                }
            },
        }
    }
}

impl StringParts {
    /// Compares the parts of two strings in the natural order.
    pub fn compare(&self, other: &StringParts) -> (o: Ordering)
        ensures
            o == compare(self@, other@),
        decreases
            (match self@.remainder {
                Some(r) => r.len() + 1,
                None => 0,
            }),
    {
        let by_prefix = lexical_compare(self.alpha(), other.alpha());
        proof {
            lemma_lexical_equal(self@.prefix, other@.prefix);
        }
        match by_prefix {
            Ordering::Equal => {},
            _ => {
                return by_prefix;
            },
        }
        match (self.numeric(), other.numeric()) {
            (None, None) => {},
            (None, Some(_)) => {
                return Ordering::Less;
            },
            (Some(_), None) => {
                return Ordering::Greater;
            },
            (Some(x), Some(y)) => {
                if x < y {
                    return Ordering::Less;
                }
                if x > y {
                    return Ordering::Greater;
                }
            },
        }
        match (self.remainder(), other.remainder()) {
            (None, None) => Ordering::Equal,
            (None, Some(_)) => Ordering::Less,
            (Some(_), None) => Ordering::Greater,
            (Some(ra), Some(rb)) => {
                proof {
                    lemma_segment_wf(ra@);
                }
                let a = StringParts::split_valid(ra);
                let b = StringParts::split_valid(rb);
                a.compare(&b)
            },
        }
    }
}

impl PartialEq for StringParts {
    /// Whether the two, put together again, give the same string. Parts that
    /// are equal have the same rank; parts of the same rank may still differ,
    /// in leading zeros of a number in their remainders.
    fn eq(&self, other: &StringParts) -> (same: bool) {
        self.join() == other.join()
    }

    /// Whether the two, put together again, give different strings.
    fn ne(&self, other: &StringParts) -> (differ: bool) {
        self.join() != other.join()
    }
}

impl vstd::std_specs::cmp::PartialEqSpecImpl for StringParts {
    open spec fn obeys_eq_spec() -> bool {
        true
    }

    open spec fn eq_spec(&self, other: &StringParts) -> bool {
        self@.text() == other@.text()
    }
}

impl PartialOrd for StringParts {
    /// The natural order of the two; never `None`.
    fn partial_cmp(&self, other: &StringParts) -> (o: Option<Ordering>) {
        Some(self.compare(other))
    }

    /// Whether `self` comes before `other`.
    fn lt(&self, other: &StringParts) -> (r: bool) {
        match self.compare(other) {
            Ordering::Less => true,
            _ => false,
        }
    }

    /// Whether `self` does not come after `other`.
    fn le(&self, other: &StringParts) -> (r: bool) {
        match self.compare(other) {
            Ordering::Greater => false,
            _ => true,
        }
    }

    /// Whether `self` comes after `other`.
    fn gt(&self, other: &StringParts) -> (r: bool) {
        match self.compare(other) {
            Ordering::Greater => true,
            _ => false,
        }
    }

    /// Whether `self` does not come before `other`.
    fn ge(&self, other: &StringParts) -> (r: bool) {
        match self.compare(other) {
            Ordering::Less => false,
            _ => true,
        }
    }
}

impl vstd::std_specs::cmp::PartialOrdSpecImpl for StringParts {
    open spec fn obeys_partial_cmp_spec() -> bool {
        true
    }

    open spec fn partial_cmp_spec(&self, other: &StringParts) -> Option<Ordering> {
        Some(compare(self@, other@))
    }
}

} // verus!
