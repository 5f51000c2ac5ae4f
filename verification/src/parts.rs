//! Segmentation as it runs: a string is cut into its parts, and parts are put
//! together again.

use crate::digits::{
    all_digits, decimal_value, digit_of, is_digit, lemma_value_of_tail, push_decimal,
};
use crate::segment::{
    first_run_plain, lemma_representable_from_parts, lemma_representable_parts, lemma_round_trip,
    lemma_segment_bounds, lemma_segment_is, lemma_segment_of_text, lemma_segment_wf,
    representable, segment, Segment,
};
use vstd::prelude::*;
use vstd::std_specs::iter::IteratorSpec;
use vstd::string::{StrSliceExecFns, StringExecFns};

verus! {

/// A run of digits denotes a number that does not fit in 64 bits.
#[derive(Debug, Clone, Copy, PartialEq, Eq)]
pub struct Overflow;

/// Whether `c` is a decimal digit.
pub fn char_is_digit(c: char) -> (r: bool)
    ensures
        r == is_digit(c),
{
    '0' <= c && c <= '9'
}

/// Whether every run of digits in `s` denotes a number that fits in 64 bits.
pub fn is_representable(s: &str) -> (r: bool)
    ensures
        r == representable(s@),
{
    let mut it = s.chars();
    let ghost mut pos: int = 0;
    let ghost mut start: int = 0;
    let mut cur: u64 = 0;
    loop
        invariant
            it.obeys_prophetic_iter_laws(),
            it.decrease() is Some,
            0 <= start <= pos <= s@.len(),
            it.remaining() == s@.skip(pos),
            start == 0 || !is_digit(s@[start - 1]),
            all_digits(s@.subrange(start, pos)),
            cur == decimal_value(s@.subrange(start, pos)),
            forall|i: int, j: int|
                0 <= i <= j <= pos && all_digits(#[trigger] s@.subrange(i, j)) ==> decimal_value(
                    s@.subrange(i, j),
                ) <= u64::MAX,
        ensures
            pos == s@.len(),
        decreases it.decrease()->0,
    {
        match it.next() {
            None => {
                break;
            },
            Some(c) => {
                assert(c == s@[pos]);
                assert(it.remaining() =~= s@.skip(pos + 1));
                let ghost run = s@.subrange(start, pos + 1);
                assert(run.drop_last() =~= s@.subrange(start, pos));
                assert(run.last() == c);
                if char_is_digit(c) {
                    let d = digit_of(c);
                    assert(all_digits(run)) by {
                        assert forall|k: int| 0 <= k < run.len() implies is_digit(
                            #[trigger] run[k],
                        ) by {
                            if k < run.len() - 1 {
                                assert(run[k] == s@.subrange(start, pos)[k]);
                            }
                        }
                    }
                    if cur > (u64::MAX - d) / 10 {
                        assert(decimal_value(run) > u64::MAX);
                        return false;
                    }
                    cur = cur * 10 + d;
                    assert forall|i: int, j: int|
                        0 <= i <= j <= pos + 1 && all_digits(
                            #[trigger] s@.subrange(i, j),
                        ) implies decimal_value(s@.subrange(i, j)) <= u64::MAX by {
                        if j == pos + 1 {
                            if i < start {
                                assert(s@.subrange(i, j)[start - 1 - i] == s@[start - 1]);
                            }
                            assert(s@.subrange(i, j) =~= run.skip(i - start));
                            lemma_value_of_tail(run, i - start);
                        }
                    }
                } else {
                    cur = 0;
                    assert forall|i: int, j: int|
                        0 <= i <= j <= pos + 1 && all_digits(
                            #[trigger] s@.subrange(i, j),
                        ) implies decimal_value(s@.subrange(i, j)) <= u64::MAX by {
                        if j == pos + 1 {
                            if i <= pos {
                                assert(s@.subrange(i, j)[pos - i] == c);
                            }
                        }
                    }
                    proof {
                        start = pos + 1;
                    }
                    assert(s@.subrange(start, pos + 1) =~= Seq::<char>::empty());
                }
                proof {
                    pos = pos + 1;
                }
            },
        }
    }
    proof {
        assert forall|i: int, j: int|
            0 <= i <= j <= s@.len() && all_digits(#[trigger] s@.subrange(i, j)) implies decimal_value(
            s@.subrange(i, j),
        ) <= u64::MAX by {}
    }
    true
}

/// The parts of a string, as [`segment`] defines them.
#[derive(Debug)]
pub struct StringParts {
    alpha: String,
    numeric: Option<u64>,
    remainder: Option<String>,
}

impl View for StringParts {
    type V = Segment;

    closed spec fn view(&self) -> Segment {
        Segment {
            prefix: self.alpha@,
            number: match self.numeric {
                Some(n) => Some(n as nat),
                None => None,
            },
            remainder: match self.remainder {
                Some(r) => Some(r@),
                None => None,
            },
        }
    }
}

impl StringParts {
    /// Parts are well formed, and every run of digits in the remainder
    /// denotes a number that fits in 64 bits.
    #[verifier::type_invariant]
    spec fn inv(&self) -> bool {
        &&& self@.wf()
        &&& self.remainder matches Some(r) ==> representable(r@)
    }

    /// Cuts a string whose numbers all fit in 64 bits into its parts.
    pub(crate) fn split_valid(s: &str) -> (parts: StringParts)
        requires
            representable(s@),
        ensures
            parts@ == segment(s@),
    {
        let n = s.unicode_len();
        let mut it = s.chars();
        let mut p: usize = 0;
        let mut first: Option<char> = None;
        loop
            invariant_except_break
                first is None,
                it.remaining() == s@.skip(p as int),
            invariant
                it.obeys_prophetic_iter_laws(),
                it.decrease() is Some,
                n == s@.len(),
                p <= n,
                forall|k: int| 0 <= k < p ==> !is_digit(#[trigger] s@[k]),
            ensures
                it.obeys_prophetic_iter_laws(),
                it.decrease() is Some,
                p <= n,
                forall|k: int| 0 <= k < p ==> !is_digit(#[trigger] s@[k]),
                first is None ==> p == n,
                first matches Some(c) ==> p < n && c == s@[p as int] && is_digit(c)
                    && it.remaining() == s@.skip(p + 1),
            decreases it.decrease()->0,
        {
            match it.next() {
                None => {
                    break;
                },
                Some(c) => {
                    assert(c == s@[p as int]);
                    assert(it.remaining() =~= s@.skip(p + 1));
                    if char_is_digit(c) {
                        first = Some(c);
                        break;
                    }
                    p = p + 1;
                },
            }
        }
        match first {
            None => {
                proof {
                    lemma_segment_is(s@, n as int, n as int);
                    lemma_segment_bounds(s@);
                    lemma_segment_wf(s@);
                    assert(s@.subrange(0, n as int) =~= s@);
                }
                StringParts { alpha: s.to_owned(), numeric: None, remainder: None }
            },
            Some(c) => {
                let mut value = digit_of(c);
                let mut e: usize = p + 1;
                let mut more = false;
                proof {
                    let run = s@.subrange(p as int, e as int);
                    assert(run.drop_last() =~= Seq::<char>::empty());
                    assert(run.last() == c);
                    assert(decimal_value(run.drop_last()) == 0);
                }
                loop
                    invariant_except_break
                        !more,
                        it.remaining() == s@.skip(e as int),
                    invariant
                        it.obeys_prophetic_iter_laws(),
                        it.decrease() is Some,
                        representable(s@),
                        n == s@.len(),
                        p < e <= n,
                        forall|k: int| p <= k < e ==> is_digit(#[trigger] s@[k]),
                        value == decimal_value(s@.subrange(p as int, e as int)),
                    ensures
                        p < e <= n,
                        forall|k: int| p <= k < e ==> is_digit(#[trigger] s@[k]),
                        value == decimal_value(s@.subrange(p as int, e as int)),
                        !more ==> e == n,
                        more ==> e < n && !is_digit(s@[e as int]),
                    decreases it.decrease()->0,
                {
                    match it.next() {
                        None => {
                            break;
                        },
                        Some(c) => {
                            assert(c == s@[e as int]);
                            assert(it.remaining() =~= s@.skip(e + 1));
                            if !char_is_digit(c) {
                                more = true;
                                break;
                            }
                            let d = digit_of(c);
                            proof {
                                let run = s@.subrange(p as int, e + 1);
                                assert(run.drop_last() =~= s@.subrange(p as int, e as int));
                                assert(run.last() == c);
                                assert(all_digits(run)) by {
                                    assert forall|k: int| 0 <= k < run.len() implies is_digit(
                                        #[trigger] run[k],
                                    ) by {
                                        assert(run[k] == s@[p + k]);
                                    }
                                }
                                assert(decimal_value(run) <= u64::MAX);
                            }
                            value = value * 10 + d;
                            e = e + 1;
                        },
                    }
                }
                proof {
                    lemma_segment_is(s@, p as int, e as int);
                    lemma_segment_bounds(s@);
                    lemma_segment_wf(s@);
                    lemma_representable_parts(s@);
                }
                let alpha = s.substring_char(0, p).to_owned();
                let remainder = if more {
                    Some(s.substring_char(e, n).to_owned())
                } else {
                    None
                };
                StringParts { alpha, numeric: Some(value), remainder }
            },
        }
    }

    /// Cuts `s` into its parts. Fails exactly when a run of digits in `s`
    /// denotes a number that does not fit in 64 bits, wherever in `s` the run
    /// stands. The parts put together again are `s`, unless the first run of
    /// digits of `s` has a superfluous leading zero.
    pub fn split(s: &str) -> (res: Result<StringParts, Overflow>)
        ensures
            res is Ok <==> representable(s@),
            res matches Ok(parts) ==> parts@ == segment(s@),
            res matches Ok(parts) ==> (parts@.text() == s@ <==> first_run_plain(s@)),
    {
        if is_representable(s) {
            proof {
                lemma_round_trip(s@);
            }
            Ok(StringParts::split_valid(s))
        } else {
            Err(Overflow)
        }
    }

    /// The parts put together again: the string that they were cut from,
    /// with the number written in decimal without leading zeros. Cutting the
    /// result gives these parts back.
    pub fn join(&self) -> (text: String)
        ensures
            text@ == self@.text(),
            representable(text@),
            segment(text@) == self@,
    {
        let mut text = self.alpha.clone();
        if let Some(n) = self.numeric {
            push_decimal(&mut text, n);
        }
        if let Some(r) = &self.remainder {
            text.append(r.as_str());
        }
        proof {
            use_type_invariant(self);
            assert(text@ =~= self@.text());
            lemma_segment_of_text(self@);
            lemma_representable_from_parts(text@);
        }
        text
    }

    /// The characters before the first digit.
    pub fn alpha(&self) -> (prefix: &str)
        ensures
            prefix@ == self@.prefix,
    {
        self.alpha.as_str()
    }

    /// What the first run of digits denotes, where there is one.
    pub fn numeric(&self) -> (number: Option<u64>)
        ensures
            number is Some == self@.number is Some,
            number matches Some(n) ==> self@.number == Some(n as nat),
    {
        self.numeric
    }

    /// What follows the first run of digits, where anything does. Every run
    /// of digits in it denotes a number that fits in 64 bits.
    pub fn remainder(&self) -> (rest: Option<&str>)
        ensures
            rest is Some == self@.remainder is Some,
            rest matches Some(r) ==> self@.remainder == Some(r@) && representable(r@),
    {
        proof {
            use_type_invariant(self);
        }
        match &self.remainder {
            Some(r) => Some(r.as_str()),
            None => None,
        }
    }
}

} // verus!
