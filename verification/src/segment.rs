//! The mathematical model of segmentation: a text falls into a prefix without
//! digits, the number that its first run of digits denotes, and what follows
//! that run.

use crate::digits::{
    all_digits, decimal_text, decimal_value, is_digit, is_plain_numeral, lemma_decimal_text_plain,
    lemma_text_of_value, lemma_value_of_head, lemma_value_of_tail, lemma_value_of_text,
};
use vstd::prelude::*;

verus! {

/// How many characters stand before the first digit of `s`; the length of `s`
/// where it holds no digit.
pub open spec fn prefix_len(s: Seq<char>) -> nat
    decreases s.len(),
{
    if s.len() == 0 || is_digit(s[0]) {
        0
    } else {
        1 + prefix_len(s.drop_first())
    }
}

/// How many digits `s` starts with.
pub open spec fn digit_run_len(s: Seq<char>) -> nat
    decreases s.len(),
{
    if s.len() == 0 || !is_digit(s[0]) {
        0
    } else {
        1 + digit_run_len(s.drop_first())
    }
}

/// The three parts of a text.
pub ghost struct Segment {
    /// The characters before the first digit.
    pub prefix: Seq<char>,
    /// What the first run of digits denotes, where there is one.
    pub number: Option<nat>,
    /// What follows the first run of digits, where anything does.
    pub remainder: Option<Seq<char>>,
}

impl Segment {
    /// The parts are such as segmentation produces: the prefix holds no digit,
    /// and a remainder follows a number and starts with a character that is
    /// no digit.
    pub open spec fn wf(self) -> bool {
        &&& forall|k: int| 0 <= k < self.prefix.len() ==> !is_digit(#[trigger] self.prefix[k])
        &&& self.remainder matches Some(r) ==> self.number is Some && r.len() > 0 && !is_digit(
            r[0],
        )
    }

    /// The digits of the number, or nothing where there is no number.
    pub open spec fn number_text(self) -> Seq<char> {
        match self.number {
            Some(n) => decimal_text(n),
            None => Seq::empty(),
        }
    }

    /// The remainder, or nothing where there is none.
    pub open spec fn remainder_text(self) -> Seq<char> {
        match self.remainder {
            Some(r) => r,
            None => Seq::empty(),
        }
    }

    /// The parts put together again: the prefix, the number in decimal, the
    /// remainder.
    pub open spec fn text(self) -> Seq<char> {
        self.prefix + self.number_text() + self.remainder_text()
    }
}

/// The first run of digits of `s`, as it is written there.
pub open spec fn first_run(s: Seq<char>) -> Seq<char> {
    let rest = s.skip(prefix_len(s) as int);
    rest.take(digit_run_len(rest) as int)
}

/// The segmentation of `s`.
pub open spec fn segment(s: Seq<char>) -> Segment {
    let p = prefix_len(s) as int;
    let rest = s.skip(p);
    let d = digit_run_len(rest) as int;
    Segment {
        prefix: s.take(p),
        number: if d == 0 {
            None
        } else {
            Some(decimal_value(rest.take(d)))
        },
        remainder: if d == 0 || d == rest.len() {
            None
        } else {
            Some(rest.skip(d))
        },
    }
}

/// Every run of digits in `s` denotes a number that fits in 64 bits.
pub open spec fn representable(s: Seq<char>) -> bool {
    forall|i: int, j: int|
        0 <= i <= j <= s.len() && all_digits(#[trigger] s.subrange(i, j)) ==> decimal_value(
            s.subrange(i, j),
        ) <= u64::MAX
}

/// The first run of digits of `s` is written without a superfluous leading
/// zero (or `s` holds no digit).
pub open spec fn first_run_plain(s: Seq<char>) -> bool {
    first_run(s).len() == 0 || is_plain_numeral(first_run(s))
}

/// `prefix_len(s)` is the place of the first digit of `s`.
pub proof fn lemma_prefix_len(s: Seq<char>)
    ensures
        prefix_len(s) <= s.len(),
        forall|k: int| 0 <= k < prefix_len(s) ==> !is_digit(#[trigger] s[k]),
        prefix_len(s) < s.len() ==> is_digit(s[prefix_len(s) as int]),
    decreases s.len(),
{
    if s.len() == 0 || is_digit(s[0]) {
    } else {
        let t = s.drop_first();
        lemma_prefix_len(t);
        assert forall|k: int| 0 <= k < prefix_len(s) implies !is_digit(#[trigger] s[k]) by {
            if k > 0 {
                assert(s[k] == t[k - 1]);
            }
        }
        if prefix_len(s) < s.len() {
            assert(s[prefix_len(s) as int] == t[prefix_len(t) as int]);
        }
    }
}

/// A place before which `s` holds no digit, and at which it holds one or ends,
/// is `prefix_len(s)`.
pub proof fn lemma_prefix_len_is(s: Seq<char>, n: int)
    requires
        0 <= n <= s.len(),
        forall|k: int| 0 <= k < n ==> !is_digit(#[trigger] s[k]),
        n < s.len() ==> is_digit(s[n]),
    ensures
        prefix_len(s) == n,
    decreases s.len(),
{
    if n == 0 {
    } else {
        let t = s.drop_first();
        assert(!is_digit(s[0]));
        assert forall|k: int| 0 <= k < n - 1 implies !is_digit(#[trigger] t[k]) by {
            assert(t[k] == s[k + 1]);
        }
        lemma_prefix_len_is(t, n - 1);
    }
}

/// `digit_run_len(s)` is the place of the first character of `s` that is no
/// digit.
pub proof fn lemma_digit_run_len(s: Seq<char>)
    ensures
        digit_run_len(s) <= s.len(),
        forall|k: int| 0 <= k < digit_run_len(s) ==> is_digit(#[trigger] s[k]),
        digit_run_len(s) < s.len() ==> !is_digit(s[digit_run_len(s) as int]),
    decreases s.len(),
{
    if s.len() == 0 || !is_digit(s[0]) {
    } else {
        let t = s.drop_first();
        lemma_digit_run_len(t);
        assert forall|k: int| 0 <= k < digit_run_len(s) implies is_digit(#[trigger] s[k]) by {
            if k > 0 {
                assert(s[k] == t[k - 1]);
            }
        }
        if digit_run_len(s) < s.len() {
            assert(s[digit_run_len(s) as int] == t[digit_run_len(t) as int]);
        }
    }
}

/// A place before which `s` holds digits only, and at which it holds another
/// character or ends, is `digit_run_len(s)`.
pub proof fn lemma_digit_run_len_is(s: Seq<char>, n: int)
    requires
        0 <= n <= s.len(),
        forall|k: int| 0 <= k < n ==> is_digit(#[trigger] s[k]),
        n < s.len() ==> !is_digit(s[n]),
    ensures
        digit_run_len(s) == n,
    decreases s.len(),
{
    if n == 0 {
    } else {
        let t = s.drop_first();
        assert(is_digit(s[0]));
        assert forall|k: int| 0 <= k < n - 1 implies is_digit(#[trigger] t[k]) by {
            assert(t[k] == s[k + 1]);
        }
        lemma_digit_run_len_is(t, n - 1);
    }
}

/// Where the parts of `s` lie in it: the prefix ends at `p`, the first run of
/// digits at `e`.
pub proof fn lemma_segment_bounds(s: Seq<char>) -> (cut: (int, int))
    ensures
        ({
            let (p, e) = cut;
            &&& p == prefix_len(s)
            &&& e == p + digit_run_len(s.skip(p))
            &&& 0 <= p <= e <= s.len()
            &&& p < s.len() ==> p < e
            &&& forall|k: int| 0 <= k < p ==> !is_digit(#[trigger] s[k])
            &&& forall|k: int| p <= k < e ==> is_digit(#[trigger] s[k])
            &&& e < s.len() ==> !is_digit(s[e])
            &&& segment(s).prefix == s.subrange(0, p)
            &&& first_run(s) == s.subrange(p, e)
            &&& segment(s).number == (if p == e {
                None
            } else {
                Some(decimal_value(s.subrange(p, e)))
            })
            &&& segment(s).remainder == (if p == e || e == s.len() {
                None
            } else {
                Some(s.subrange(e, s.len() as int))
            })
        }),
{
    let p = prefix_len(s) as int;
    lemma_prefix_len(s);
    let rest = s.skip(p);
    let d = digit_run_len(rest) as int;
    lemma_digit_run_len(rest);
    let e = p + d;
    assert forall|k: int| p <= k < e implies is_digit(#[trigger] s[k]) by {
        assert(s[k] == rest[k - p]);
    }
    if e < s.len() {
        assert(s[e] == rest[d]);
    }
    if p < s.len() {
        assert(rest[0] == s[p]);
    }
    assert(s.take(p) =~= s.subrange(0, p));
    assert(rest.take(d) =~= s.subrange(p, e));
    assert(rest.skip(d) =~= s.subrange(e, s.len() as int));
    (p, e)
}

/// Cuts that have the shape of a segmentation are the segmentation.
pub proof fn lemma_segment_is(s: Seq<char>, p: int, e: int)
    requires
        0 <= p <= e <= s.len(),
        forall|k: int| 0 <= k < p ==> !is_digit(#[trigger] s[k]),
        forall|k: int| p <= k < e ==> is_digit(#[trigger] s[k]),
        p < s.len() ==> p < e,
        e < s.len() ==> !is_digit(s[e]),
    ensures
        p == prefix_len(s),
        e == p + digit_run_len(s.skip(p)),
{
    if p < s.len() {
        assert(is_digit(s[p]));
    }
    lemma_prefix_len_is(s, p);
    let rest = s.skip(p);
    assert forall|k: int| 0 <= k < e - p implies is_digit(#[trigger] rest[k]) by {
        assert(rest[k] == s[k + p]);
    }
    if e < s.len() {
        assert(rest[e - p] == s[e]);
    }
    lemma_digit_run_len_is(rest, e - p);
}

/// What segmentation produces is well formed, and a remainder is shorter than
/// the text it was cut from.
pub proof fn lemma_segment_wf(s: Seq<char>)
    ensures
        segment(s).wf(),
        segment(s).remainder matches Some(r) ==> r.len() < s.len(),
        segment(s).number is None <==> segment(s).prefix == s,
{
    let (p, e) = lemma_segment_bounds(s);
    let seg = segment(s);
    assert forall|k: int| 0 <= k < seg.prefix.len() implies !is_digit(#[trigger] seg.prefix[k]) by {
        assert(seg.prefix[k] == s[k]);
    }
    if p == s.len() {
        assert(seg.prefix =~= s);
    } else {
        assert(seg.prefix.len() < s.len());
    }
}

/// A text is its prefix, its first run of digits as written, and its
/// remainder, in this order.
pub proof fn lemma_segment_parts(s: Seq<char>)
    ensures
        s == segment(s).prefix + first_run(s) + segment(s).remainder_text(),
        segment(s).number == (if first_run(s).len() == 0 {
            None
        } else {
            Some(decimal_value(first_run(s)))
        }),
        all_digits(first_run(s)),
{
    let (p, e) = lemma_segment_bounds(s);
    assert(s =~= segment(s).prefix + first_run(s) + segment(s).remainder_text());
}

/// Putting the parts of `s` together again gives `s` exactly when the first
/// run of digits of `s` has no superfluous leading zero.
pub proof fn lemma_round_trip(s: Seq<char>)
    ensures
        segment(s).text() == s <==> first_run_plain(s),
{
    let seg = segment(s);
    let run = first_run(s);
    lemma_segment_parts(s);
    let (p, e) = lemma_segment_bounds(s);
    if run.len() == 0 {
        assert(seg.text() =~= s);
    } else {
        let n = decimal_value(run);
        lemma_decimal_text_plain(n);
        if is_plain_numeral(run) {
            lemma_text_of_value(run);
            assert(seg.text() =~= s);
        }
        if seg.text() == s {
            let t = decimal_text(n);
            let r = seg.remainder_text();
            // The digits of `t` and of `run` both start at `p`; both runs end
            // where the remainder starts or the text ends.
            assert(seg.text().len() == s.len());
            assert(t.len() == run.len());
            assert forall|k: int| 0 <= k < t.len() implies t[k] == run[k] by {
                assert(seg.text()[p + k] == t[k]);
                assert(s[p + k] == run[k]);
            }
            assert(t =~= run);
        }
    }
}

/// Segmenting the text of well-formed parts gives the parts back.
pub proof fn lemma_segment_of_text(seg: Segment)
    requires
        seg.wf(),
    ensures
        segment(seg.text()) == seg,
{
    let s = seg.text();
    let nt = seg.number_text();
    let rt = seg.remainder_text();
    let p = seg.prefix.len() as int;
    let e = p + nt.len();
    if let Some(n) = seg.number {
        lemma_decimal_text_plain(n);
        lemma_value_of_text(n);
    }
    assert forall|k: int| 0 <= k < p implies !is_digit(#[trigger] s[k]) by {
        assert(s[k] == seg.prefix[k]);
    }
    assert forall|k: int| p <= k < e implies is_digit(#[trigger] s[k]) by {
        assert(s[k] == nt[k - p]);
    }
    if e < s.len() {
        assert(s[e] == rt[0]);
    }
    lemma_segment_is(s, p, e);
    lemma_segment_bounds(s);
    assert(s.subrange(0, p) =~= seg.prefix);
    assert(s.subrange(p, e) =~= nt);
    assert(s.subrange(e, s.len() as int) =~= rt);
}

/// Well-formed parts with the same text are the same parts.
pub proof fn lemma_text_injective(a: Segment, b: Segment)
    requires
        a.wf(),
        b.wf(),
        a.text() == b.text(),
    ensures
        a == b,
{
    lemma_segment_of_text(a);
    lemma_segment_of_text(b);
}

/// A piece of a representable text is representable.
pub proof fn lemma_representable_subrange(s: Seq<char>, from: int, to: int)
    requires
        representable(s),
        0 <= from <= to <= s.len(),
    ensures
        representable(s.subrange(from, to)),
{
    let t = s.subrange(from, to);
    assert forall|i: int, j: int|
        0 <= i <= j <= t.len() && all_digits(#[trigger] t.subrange(i, j)) implies decimal_value(
        t.subrange(i, j),
    ) <= u64::MAX by {
        assert(t.subrange(i, j) =~= s.subrange(from + i, from + j));
    }
}

/// In a representable text the number fits in 64 bits, and the remainder is
/// representable in turn.
pub proof fn lemma_representable_parts(s: Seq<char>)
    requires
        representable(s),
    ensures
        segment(s).number matches Some(n) ==> n <= u64::MAX,
        segment(s).remainder matches Some(r) ==> representable(r),
{
    let (p, e) = lemma_segment_bounds(s);
    assert(all_digits(s.subrange(p, e))) by {
        assert forall|k: int| 0 <= k < e - p implies is_digit(#[trigger] s.subrange(p, e)[k]) by {
            assert(s.subrange(p, e)[k] == s[p + k]);
        }
    }
    lemma_representable_subrange(s, e, s.len() as int);
}

/// No run of digits in `s` has a superfluous leading zero: a zero that a
/// digit follows has a digit before it.
pub open spec fn plainly_written(s: Seq<char>) -> bool {
    forall|i: int|
        0 <= i < s.len() - 1 && #[trigger] s[i] == '0' && is_digit(s[i + 1]) ==> i > 0 && is_digit(
            s[i - 1],
        )
}

/// In a plainly written text the first run of digits is a plain numeral, and
/// the remainder is plainly written in turn.
pub proof fn lemma_plainly_written_parts(s: Seq<char>)
    requires
        plainly_written(s),
    ensures
        first_run_plain(s),
        segment(s).remainder matches Some(r) ==> plainly_written(r),
{
    let (p, e) = lemma_segment_bounds(s);
    let run = first_run(s);
    if run.len() >= 2 {
        assert(run[0] == s[p]);
        assert(is_digit(s[p + 1]));
        if s[p] == '0' {
            assert(p > 0 && is_digit(s[p - 1]));
        }
    }
    if run.len() > 0 {
        assert(all_digits(run)) by {
            assert forall|k: int| 0 <= k < run.len() implies is_digit(#[trigger] run[k]) by {
                assert(run[k] == s[p + k]);
            }
        }
    }
    if let Some(r) = segment(s).remainder {
        assert forall|i: int|
            0 <= i < r.len() - 1 && #[trigger] r[i] == '0' && is_digit(r[i + 1]) implies i > 0
            && is_digit(r[i - 1]) by {
            assert(r[i] == s[e + i]);
            assert(r[i + 1] == s[e + i + 1]);
            assert(is_digit(s[e + i - 1]));
            if i > 0 {
                assert(r[i - 1] == s[e + i - 1]);
            }
        }
    }
}

/// A text is representable where its number fits in 64 bits and its
/// remainder is representable.
pub proof fn lemma_representable_from_parts(s: Seq<char>)
    requires
        segment(s).number matches Some(n) ==> n <= u64::MAX,
        segment(s).remainder matches Some(r) ==> representable(r),
    ensures
        representable(s),
{
    let (p, e) = lemma_segment_bounds(s);
    let run = s.subrange(p, e);
    assert forall|i: int, j: int|
        0 <= i <= j <= s.len() && all_digits(#[trigger] s.subrange(i, j)) implies decimal_value(
        s.subrange(i, j),
    ) <= u64::MAX by {
        let piece = s.subrange(i, j);
        if i < j {
            assert(piece[0] == s[i]);
            assert(p <= i);
            if i < e {
                if e < j {
                    assert(piece[e - i] == s[e]);
                }
                let upto = run.take(j - p);
                assert(piece =~= upto.skip(i - p));
                lemma_value_of_tail(upto, i - p);
                lemma_value_of_head(run, j - p);
            } else {
                let r = s.subrange(e, s.len() as int);
                assert(piece =~= r.subrange(i - e, j - e));
            }
        }
    }
}

} // verus!
