//! Decimal rendering of unsigned integers, used by the report formatters.

use vstd::prelude::*;

verus! {

/// The character for a single decimal digit.
pub open spec fn digit_char(d: int) -> char {
    if d == 0 {
        '0'
    } else if d == 1 {
        '1'
    } else if d == 2 {
        '2'
    } else if d == 3 {
        '3'
    } else if d == 4 {
        '4'
    } else if d == 5 {
        '5'
    } else if d == 6 {
        '6'
    } else if d == 7 {
        '7'
    } else if d == 8 {
        '8'
    } else {
        '9'
    }
}

/// The usual decimal rendering of `n`, most significant digit first and
/// without leading zeroes (except for `n == 0` itself).
pub open spec fn dec_str(n: nat) -> Seq<char>
    decreases n,
{
    if n < 10 {
        seq![digit_char(n as int)]
    } else {
        dec_str(n / 10).push(digit_char((n % 10) as int))
    }
}

/// Exactly two decimal digits, for the fractional part of a rounded value.
pub open spec fn two_digit_str(f: int) -> Seq<char> {
    seq![digit_char(f / 10), digit_char(f % 10)]
}

/// The single-character string for the decimal digit `d`.
pub fn digit_str(d: u64) -> (r: &'static str)
    requires
        d < 10,
    ensures
        r@ == seq![digit_char(d as int)],
{
    proof {
        reveal_strlit("0");
        reveal_strlit("1");
        reveal_strlit("2");
        reveal_strlit("3");
        reveal_strlit("4");
        reveal_strlit("5");
        reveal_strlit("6");
        reveal_strlit("7");
        reveal_strlit("8");
        reveal_strlit("9");
    }
    let r = if d == 0 {
        "0"
    } else if d == 1 {
        "1"
    } else if d == 2 {
        "2"
    } else if d == 3 {
        "3"
    } else if d == 4 {
        "4"
    } else if d == 5 {
        "5"
    } else if d == 6 {
        "6"
    } else if d == 7 {
        "7"
    } else if d == 8 {
        "8"
    } else {
        "9"
    };
    proof {
        assert(r@ =~= seq![digit_char(d as int)]);
    }
    r
}

/// Renders `n` in decimal.
pub fn u64_to_string(n: u64) -> (s: String)
    ensures
        s@ == dec_str(n as nat),
    decreases n,
{
    if n < 10 {
        String::from_str(digit_str(n))
    } else {
        let mut s = u64_to_string(n / 10);
        s.append(digit_str(n % 10));
        s
    }
}

/// Renders `n` in decimal.
pub fn usize_to_string(n: usize) -> (s: String)
    ensures
        s@ == dec_str(n as nat),
{
    u64_to_string(n as u64)
}

/// `num / den` rounded to the nearest integer, ties going to the even
/// neighbour (the rounding rule of decimal display).
pub open spec fn round_half_even(num: int, den: int) -> int {
    let q = num / den;
    let r = num % den;
    if 2 * r > den {
        q + 1
    } else if 2 * r == den {
        if q % 2 == 0 {
            q
        } else {
            q + 1
        }
    } else {
        q
    }
}

/// The quotient `num / den` rendered with exactly two decimal places,
/// rounded half to even.
pub open spec fn spec_two_decimal(num: int, den: int) -> Seq<char> {
    let h = round_half_even(100 * num, den);
    dec_str((h / 100) as nat) + "."@ + two_digit_str(h % 100)
}

/// Renders `num / den` with two decimal places, rounding half to even.
pub fn two_decimal_string(num: u64, den: u64) -> (s: String)
    requires
        den >= 1024,
    ensures
        s@ == spec_two_decimal(num as int, den as int),
{
    let n128: u128 = (num as u128) * 100;
    let d128: u128 = den as u128;
    let q: u128 = n128 / d128;
    let r: u128 = n128 % d128;
    let h128: u128 = if 2 * r > d128 {
        q + 1
    } else if 2 * r == d128 {
        if q % 2 == 0 {
            q
        } else {
            q + 1
        }
    } else {
        q
    };
    proof {
        assert(h128 == round_half_even(100 * num as int, den as int));
        assert((100 * num as int) / (den as int) <= (100 * num as int) / 1024) by {
            vstd::arithmetic::div_mod::lemma_div_is_ordered_by_denominator(
                100 * num as int,
                1024,
                den as int,
            );
        }
        assert((100 * num as int) / 1024 <= (1024 * num as int) / 1024) by {
            vstd::arithmetic::div_mod::lemma_div_is_ordered(
                100 * num as int,
                1024 * num as int,
                1024,
            );
        }
        assert((1024 * num as int) / 1024 == num as int) by {
            vstd::arithmetic::div_mod::lemma_div_by_multiple(num as int, 1024);
        }
        assert(q + 1 <= u64::MAX as int + 1);
        if q + 1 > u64::MAX {
            // Rounding up past u64::MAX would need q == u64::MAX, which needs
            // num == u64::MAX; the quotient is then strictly below num.
            assert(num == u64::MAX);
            assert((100 * num as int) / 1024 < num as int) by (nonlinear_arith)
                requires
                    num >= 1,
            ;
            assert(false);
        }
    }
    let h: u64 = h128 as u64;
    let mut s = u64_to_string(h / 100);
    s.append(".");
    let frac = two_digit_string(h % 100);
    s.append(frac.as_str());
    s
}

/// Renders `f` as exactly two decimal digits.
pub fn two_digit_string(f: u64) -> (s: String)
    requires
        f < 100,
    ensures
        s@ == two_digit_str(f as int),
{
    let mut s = String::from_str(digit_str(f / 10));
    s.append(digit_str(f % 10));
    proof {
        assert(s@ =~= two_digit_str(f as int));
    }
    s
}

} // verus!
