//! Decimal digits: what a run of digit characters denotes, and how a number is
//! written out again.

use vstd::prelude::*;
use vstd::string::StringExecFns;

verus! {

/// `c` is one of the ten characters `'0'` to `'9'`. No other character counts
/// as a digit, whatever Unicode says of it.
pub open spec fn is_digit(c: char) -> bool {
    '0' <= c && c <= '9'
}

/// The number that the digit character `c` stands for.
pub open spec fn digit_value(c: char) -> nat
    recommends
        is_digit(c),
{
    (c as int - '0' as int) as nat
}

/// The character that stands for the single digit `d`.
pub open spec fn digit_char(d: nat) -> char
    recommends
        d < 10,
{
    (d + '0' as nat) as char
}

/// Every character of `s` is a digit.
pub open spec fn all_digits(s: Seq<char>) -> bool {
    forall|k: int| 0 <= k < s.len() ==> is_digit(#[trigger] s[k])
}

/// The number that `s` denotes when read in base ten, most significant digit
/// first. The empty sequence denotes zero.
pub open spec fn decimal_value(s: Seq<char>) -> nat
    recommends
        all_digits(s),
    decreases s.len(),
{
    if s.len() == 0 {
        0
    } else {
        10 * decimal_value(s.drop_last()) + digit_value(s.last())
    }
}

/// `n` written in base ten, without a superfluous leading zero.
pub open spec fn decimal_text(n: nat) -> Seq<char>
    decreases n,
{
    if n < 10 {
        seq![digit_char(n)]
    } else {
        decimal_text(n / 10).push(digit_char(n % 10))
    }
}

/// `s` is the way a number is normally written: at least one digit, and no
/// leading zero unless the zero is the whole of it.
pub open spec fn is_plain_numeral(s: Seq<char>) -> bool {
    &&& s.len() >= 1
    &&& all_digits(s)
    &&& (s.len() == 1 || s[0] != '0')
}

/// A digit character and its value determine each other.
pub proof fn lemma_digit_char_value(d: nat)
    requires
        d < 10,
    ensures
        is_digit(digit_char(d)),
        digit_value(digit_char(d)) == d,
        (digit_char(d) == '0') == (d == 0),
{
}

/// A digit character is recovered from its value.
pub proof fn lemma_digit_value_char(c: char)
    requires
        is_digit(c),
    ensures
        digit_value(c) < 10,
        digit_char(digit_value(c)) == c,
{
}

/// The decimal text of a number is a plain numeral.
pub proof fn lemma_decimal_text_plain(n: nat)
    ensures
        is_plain_numeral(decimal_text(n)),
        (decimal_text(n).len() == 1) == (n < 10),
    decreases n,
{
    if n < 10 {
        lemma_digit_char_value(n);
    } else {
        lemma_decimal_text_plain(n / 10);
        lemma_digit_char_value(n % 10);
        let head = decimal_text(n / 10);
        assert(decimal_text(n)[0] == head[0]);
        if head.len() == 1 {
            lemma_digit_char_value(n / 10);
        }
    }
}

/// Reading back the decimal text of a number gives the number.
pub proof fn lemma_value_of_text(n: nat)
    ensures
        decimal_value(decimal_text(n)) == n,
    decreases n,
{
    let t = decimal_text(n);
    if n < 10 {
        lemma_digit_char_value(n);
        assert(t.drop_last() =~= Seq::<char>::empty());
        assert(decimal_value(t.drop_last()) == 0);
    } else {
        lemma_value_of_text(n / 10);
        lemma_digit_char_value(n % 10);
        assert(t.drop_last() =~= decimal_text(n / 10));
    }
}

/// A plain numeral is the decimal text of the number it denotes.
pub proof fn lemma_text_of_value(s: Seq<char>)
    requires
        is_plain_numeral(s),
    ensures
        decimal_text(decimal_value(s)) == s,
        (s.len() == 1) == (decimal_value(s) < 10),
    decreases s.len(),
{
    let n = decimal_value(s);
    lemma_digit_value_char(s.last());
    if s.len() == 1 {
        assert(s.drop_last() =~= Seq::<char>::empty());
        assert(decimal_value(s.drop_last()) == 0);
        assert(decimal_text(n) =~= s);
    } else {
        let head = s.drop_last();
        assert(head[0] == s[0]);
        lemma_text_of_value(head);
        lemma_leading_digit_positive(head);
        assert(n / 10 == decimal_value(head));
        assert(n % 10 == digit_value(s.last()));
        assert(decimal_text(n) =~= s);
    }
}

/// A run of digits that does not start with a zero denotes a positive number.
pub proof fn lemma_leading_digit_positive(s: Seq<char>)
    requires
        s.len() >= 1,
        all_digits(s),
        s[0] != '0',
    ensures
        decimal_value(s) >= 1,
    decreases s.len(),
{
    if s.len() == 1 {
        assert(s.last() == s[0]);
    } else {
        assert(s.drop_last()[0] == s[0]);
        lemma_leading_digit_positive(s.drop_last());
    }
}

/// Dropping digits from the front of a run never makes the number larger.
pub proof fn lemma_value_of_tail(s: Seq<char>, k: int)
    requires
        0 <= k <= s.len(),
    ensures
        decimal_value(s.skip(k)) <= decimal_value(s),
    decreases s.len(),
{
    if k == s.len() {
        assert(s.skip(k) =~= Seq::<char>::empty());
    } else {
        assert(s.skip(k).drop_last() =~= s.drop_last().skip(k));
        assert(s.skip(k).last() == s.last());
        lemma_value_of_tail(s.drop_last(), k);
    }
}

/// Dropping digits from the end of a run never makes the number larger.
pub proof fn lemma_value_of_head(s: Seq<char>, k: int)
    requires
        0 <= k <= s.len(),
    ensures
        decimal_value(s.take(k)) <= decimal_value(s),
    decreases s.len(),
{
    if k == s.len() {
        assert(s.take(k) =~= s);
    } else {
        assert(s.drop_last().take(k) =~= s.take(k));
        lemma_value_of_head(s.drop_last(), k);
    }
}

/// The value of the digit character `c`.
pub fn digit_of(c: char) -> (d: u64)
    requires
        is_digit(c),
    ensures
        d == digit_value(c),
{
    (c as u32 - '0' as u32) as u64
}

/// The one-character text of the digit `d`.
fn digit_text(d: u64) -> (t: &'static str)
    requires
        d < 10,
    ensures
        t@ == seq![digit_char(d as nat)],
{
    proof {
        reveal_strlit("0");
        reveal_strlit("1");
        reveal_strlit("2");
        reveal_strlit("3");
        reveal_strlit("4");
        reveal_strlit("5");
        reveal_strlit("6");
        reveal_strlit("7");
        reveal_strlit("8");
        reveal_strlit("9");
    }
    let t = if d == 0 {
        "0"
    } else if d == 1 {
        "1"
    } else if d == 2 {
        "2"
    } else if d == 3 {
        "3"
    } else if d == 4 {
        "4"
    } else if d == 5 {
        "5"
    } else if d == 6 {
        "6"
    } else if d == 7 {
        "7"
    } else if d == 8 {
        "8"
    } else {
        "9"
    };
    assert(t@ =~= seq![digit_char(d as nat)]);
    t
}

/// Appends the decimal text of `n` to `out`.
pub fn push_decimal(out: &mut String, n: u64)
    ensures
        final(out)@ == old(out)@ + decimal_text(n as nat),
    decreases n,
{
    if n >= 10 {
        push_decimal(out, n / 10);
    }
    let ghost mid = out@;
    out.append(digit_text(n % 10));
    assert(out@ =~= old(out)@ + decimal_text(n as nat)) by {
        if n >= 10 {
            assert(mid == old(out)@ + decimal_text((n / 10) as nat));
        }
    }
}

} // verus!
