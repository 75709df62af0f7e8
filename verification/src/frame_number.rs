//! Frame numbers, as written in file names: a run of decimal digits whose leading zeros are
//! ignored, read as a `u64`.
use vstd::prelude::*;

use crate::text::is_ascii_digit;

verus! {

/// `s` with its leading `'0'` characters removed.
pub open spec fn strip_leading_zeros(s: Seq<char>) -> Seq<char>
    decreases s.len(),
{
    if s.len() > 0 && s[0] == '0' {
        strip_leading_zeros(s.drop_first())
    } else {
        s
    }
}

/// Every character of `s` is an ASCII decimal digit.
pub open spec fn all_digits(s: Seq<char>) -> bool {
    forall|i: int| 0 <= i < s.len() ==> is_ascii_digit(#[trigger] s[i])
}

/// Value of one decimal digit.
pub open spec fn digit_value(c: char) -> nat {
    ((c as u32) - ('0' as u32)) as nat
}

/// The number that the decimal digits `s` write (most significant first).
pub open spec fn decimal_value(s: Seq<char>) -> nat
    decreases s.len(),
{
    if s.len() == 0 {
        0
    } else {
        decimal_value(s.drop_last()) * 10 + digit_value(s.last())
    }
}

/// What reading `s` as an unsigned 64 bit integer gives: an optional `'+'` followed by at
/// least one decimal digit, and a value that fits.
pub open spec fn parse_u64(s: Seq<char>) -> Option<u64> {
    let digits = if s.len() > 0 && s[0] == '+' {
        s.drop_first()
    } else {
        s
    };
    parse_digits(digits)
}

/// What reading the plain digit run `digits` (no sign) as a `u64` gives.
pub open spec fn parse_digits(digits: Seq<char>) -> Option<u64> {
    if digits.len() == 0 || !all_digits(digits) || decimal_value(digits) > u64::MAX {
        None
    } else {
        Some(decimal_value(digits) as u64)
    }
}

/// The frame number that the digit run `digits` of a file name stands for.  Leading zeros are
/// ignored: a run of zeros alone stands for frame 0, and otherwise what follows the zeros is
/// read as a `u64`.
pub open spec fn frame_number(digits: Seq<char>) -> Option<u64> {
    let rest = strip_leading_zeros(digits);
    if digits.len() > 0 && rest.len() == 0 {
        Some(0)
    } else {
        parse_u64(rest)
    }
}

/// Leading zeros do not change the frame number a non-empty digit run stands for, and a run
/// of zeros alone stands for frame 0.
pub proof fn lemma_leading_zeros_ignored(zeros: nat, digits: Seq<char>)
    ensures
        digits.len() > 0 ==> frame_number(Seq::new(zeros, |i: int| '0') + digits) == frame_number(
            digits,
        ),
        zeros > 0 ==> frame_number(Seq::new(zeros, |i: int| '0')) == Some(0u64),
    decreases zeros,
{
    lemma_strip_zeros_prefix(zeros, digits);
    lemma_strip_zeros_prefix(zeros, Seq::empty());
    assert(Seq::new(zeros, |i: int| '0') + Seq::<char>::empty() =~= Seq::new(zeros, |i: int| '0'));
    if digits.len() > 0 && zeros > 0 {
        assert((Seq::new(zeros, |i: int| '0') + digits).len() > 0);
    }
}

/// Stripping a run of zeros put in front of a text strips them along with those of the text.
proof fn lemma_strip_zeros_prefix(zeros: nat, digits: Seq<char>)
    ensures
        strip_leading_zeros(Seq::new(zeros, |i: int| '0') + digits) == strip_leading_zeros(digits),
    decreases zeros,
{
    if zeros > 0 {
        let s = Seq::new(zeros, |i: int| '0') + digits;
        assert(s.drop_first() =~= Seq::new((zeros - 1) as nat, |i: int| '0') + digits);
        lemma_strip_zeros_prefix((zeros - 1) as nat, digits);
    } else {
        assert(Seq::new(zeros, |i: int| '0') + digits =~= digits);
    }
}

/// A digit run's value is at least the value of any of its prefixes.
proof fn lemma_decimal_value_prefix(s: Seq<char>, i: int)
    requires
        0 <= i <= s.len(),
        all_digits(s),
    ensures
        decimal_value(s.take(i)) <= decimal_value(s),
    decreases s.len() - i,
{
    if i < s.len() {
        lemma_decimal_value_prefix(s, i + 1);
        assert(s.take(i + 1).drop_last() == s.take(i));
    } else {
        assert(s.take(i) == s);
    }
}

/// Stripping the leading zeros of `s.skip(i)`, when `s.take(i)` is all zeros, gives the
/// same as stripping them from `s`.
proof fn lemma_strip_prefix(s: Seq<char>, i: int)
    requires
        0 <= i <= s.len(),
        forall|k: int| 0 <= k < i ==> s[k] == '0',
    ensures
        strip_leading_zeros(s) == strip_leading_zeros(s.skip(i)),
    decreases i,
{
    if i > 0 {
        assert(s.skip(1).skip(i - 1) == s.skip(i));
        lemma_strip_prefix(s.skip(1), i - 1);
        assert(s.drop_first() == s.skip(1));
    } else {
        assert(s.skip(0) == s);
    }
}

/// Reads the frame number in the digit run `digits`: leading zeros are ignored, so a run of
/// zeros alone is frame 0; otherwise what follows the zeros is read as a `u64` (an optional
/// `'+'`, then decimal digits).  `None` when that is not such a number, or it does not fit.
pub fn parse_frame_number(digits: &str) -> (res: Option<u64>)
    ensures
        res == frame_number(digits@),
{
    let n = digits.unicode_len();
    let mut i: usize = 0;
    while i < n && digits.get_char(i) == '0'
        invariant
            n == digits@.len(),
            i <= n,
            forall|k: int| 0 <= k < i ==> digits@[k] == '0',
        decreases n - i,
    {
        i = i + 1;
    }
    proof {
        lemma_strip_prefix(digits@, i as int);
        assert(strip_leading_zeros(digits@.skip(i as int)) == digits@.skip(i as int));
    }
    let ghost rest = digits@.skip(i as int);
    if i == n && n > 0 {
        assert(rest.len() == 0);
        return Some(0);
    }
    if i < n && digits.get_char(i) == '+' {
        i = i + 1;
    }
    let ghost start = i;
    let ghost d = digits@.skip(i as int);
    assert(d == if rest.len() > 0 && rest[0] == '+' { rest.drop_first() } else { rest });
    if i == n {
        return None;
    }
    let mut value: u64 = 0;
    while i < n
        invariant
            n == digits@.len(),
            start <= i <= n,
            d == digits@.skip(start as int),
            d.len() > 0,
            frame_number(digits@) == parse_digits(d),
            all_digits(d.take(i - start)),
            value == decimal_value(d.take(i - start)),
        decreases n - i,
    {
        let c = digits.get_char(i);
        if !('0' <= c && c <= '9') {
            assert(d[i - start] == c);
            return None;
        }
        let digit: u64 = ((c as u32) - ('0' as u32)) as u64;
        let ghost k = i - start;
        assert(d.take(k + 1).drop_last() == d.take(k));
        assert(d.take(k + 1).last() == c);
        assert(all_digits(d.take(k + 1)));
        if value > (u64::MAX - digit) / 10 {
            proof {
                assert(value * 10 + digit > u64::MAX) by (nonlinear_arith)
                    requires
                        value > (u64::MAX - digit) / 10,
                        digit <= 9,
                ;
                if all_digits(d) {
                    lemma_decimal_value_prefix(d, k + 1);
                }
            }
            return None;
        }
        assert(value * 10 + digit <= u64::MAX) by (nonlinear_arith)
            requires
                value <= (u64::MAX - digit) / 10,
                digit <= 9,
        ;
        value = value * 10 + digit;
        i = i + 1;
    }
    assert(d.take(n - start) == d);
    Some(value)
}

} // verus!
