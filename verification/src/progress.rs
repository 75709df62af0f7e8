//! Progress reporting: how wide the frame counter column is.
use vstd::prelude::*;

verus! {

/// The number of decimal digits of `n` (zero is written with one digit).
pub open spec fn digit_count(n: nat) -> nat
    decreases n,
{
    if n < 10 {
        1
    } else {
        1 + digit_count(n / 10)
    }
}

/// `10` to the power `k`.
pub open spec fn pow10(k: nat) -> nat
    decreases k,
{
    if k == 0 {
        1
    } else {
        10 * pow10((k - 1) as nat)
    }
}

/// A number below `10^k` (with `k` at least one) has at most `k` digits.
proof fn lemma_digit_count_below(n: nat, k: nat)
    requires
        k >= 1,
        n < pow10(k),
    ensures
        digit_count(n) <= k,
    decreases k,
{
    if n >= 10 {
        assert(k >= 2) by {
            if k == 1 {
                assert(pow10(1) == 10 * pow10(0));
            }
        }
        assert(pow10(k) == 10 * pow10((k - 1) as nat));
        assert(n / 10 < pow10((k - 1) as nat));
        lemma_digit_count_below(n / 10, (k - 1) as nat);
    }
}

/// A number has exactly `d` decimal digits when it lies in `[10^(d-1), 10^d)` (or is below
/// ten, for one digit).
pub proof fn lemma_digit_count_range(n: nat)
    ensures
        digit_count(n) >= 1,
        n < pow10(digit_count(n)),
        digit_count(n) >= 2 ==> pow10((digit_count(n) - 1) as nat) <= n,
    decreases n,
{
    if n >= 10 {
        lemma_digit_count_range(n / 10);
        let d = digit_count(n / 10);
        assert(digit_count(n) == 1 + d);
        assert(pow10(d + 1) == 10 * pow10(d));
        assert(pow10(((1 + d) - 1) as nat) == pow10(d));
        if d >= 2 {
            assert(pow10(d) == 10 * pow10((d - 1) as nat));
        } else {
            assert(pow10(d) == 10 * pow10(0));
        }
    } else {
        assert(pow10(1) == 10 * pow10(0));
    }
}

/// The width of the frame counter column for `total` frames: the whole part of the base 10
/// logarithm of `total` (one less than its number of digits), and 0 when there are no frames.
pub open spec fn counter_width_of(total: nat) -> nat {
    if total == 0 {
        0
    } else {
        (digit_count(total) - 1) as nat
    }
}

/// For at least one frame, the counter width `w` is the whole part of the base 10 logarithm
/// of the total: `10^w <= total < 10^(w+1)`.
pub proof fn lemma_counter_width_is_floor_log10(total: nat)
    requires
        total >= 1,
    ensures
        pow10(counter_width_of(total)) <= total < pow10(counter_width_of(total) + 1),
{
    lemma_digit_count_range(total);
    if digit_count(total) == 1 {
        assert(pow10(0) == 1);
    }
}

/// The width of the frame counter column for `total` frames.
pub fn counter_width(total: u64) -> (res: usize)
    ensures
        res == counter_width_of(total as nat),
{
    proof {
        assert(pow10(20) == 100000000000000000000nat) by {
            reveal_with_fuel(pow10, 21);
        }
        lemma_digit_count_below(total as nat, 20);
    }
    if total == 0 {
        return 0;
    }
    let mut d: usize = 0;
    let mut m: u64 = total;
    while m >= 10
        invariant
            d + digit_count(m as nat) == digit_count(total as nat),
            digit_count(total as nat) <= 20,
        decreases m,
    {
        assert(digit_count(m as nat) == 1 + digit_count((m / 10) as nat));
        m = m / 10;
        d = d + 1;
    }
    d
}

} // verus!
