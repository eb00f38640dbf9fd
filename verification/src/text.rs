//! Decimal rendering of the integers that appear in rendered call trees:
//! plain unsigned and signed values, fixed-width fractions, and the
//! microsecond-to-millisecond display used for accumulated durations.

use vstd::prelude::*;
use vstd::string::StringExecFns;

verus! {

/// The character for one decimal digit.
pub open spec fn digit_char(d: nat) -> char {
    if d == 0 {
        '0'
    } else if d == 1 {
        '1'
    } else if d == 2 {
        '2'
    } else if d == 3 {
        '3'
    } else if d == 4 {
        '4'
    } else if d == 5 {
        '5'
    } else if d == 6 {
        '6'
    } else if d == 7 {
        '7'
    } else if d == 8 {
        '8'
    } else {
        '9'
    }
}

/// The decimal digits of `n`, most significant first, no leading zeros
/// (a single `'0'` for zero).
pub open spec fn dec_digits(n: nat) -> Seq<char>
    decreases n,
{
    if n < 10 {
        seq![digit_char(n)]
    } else {
        dec_digits(n / 10) + seq![digit_char(n % 10)]
    }
}

/// The decimal digits of `n` padded with leading zeros to exactly
/// `width` characters.
pub open spec fn fixed_dec_digits(n: nat, width: nat) -> Seq<char>
    decreases width,
{
    if width <= 1 {
        seq![digit_char(n % 10)]
    } else {
        fixed_dec_digits(n / 10, (width - 1) as nat) + seq![digit_char(n % 10)]
    }
}

/// The decimal rendering of a signed value: a leading `'-'` for a
/// negative one, then the digits of its magnitude.
pub open spec fn signed_dec_digits(n: int) -> Seq<char> {
    if n < 0 {
        seq!['-'] + dec_digits((-n) as nat)
    } else {
        dec_digits(n as nat)
    }
}

/// The display form of a duration held in microsecond-like units: the
/// value divided by 1 000 000, with exactly six fractional digits.
pub open spec fn duration_display(v: int) -> Seq<char> {
    let m = if v < 0 { (-v) as nat } else { v as nat };
    let sign: Seq<char> = if v < 0 { seq!['-'] } else { Seq::empty() };
    sign + dec_digits(m / 1000000) + seq!['.'] + fixed_dec_digits(m % 1000000, 6)
}

/// A one-character string for the digit `d`.
fn digit_str(d: u64) -> (r: &'static str)
    requires
        d < 10,
    ensures
        r@ == seq![digit_char(d as nat)],
{
    proof {
        reveal_strlit("0");
        reveal_strlit("1");
        reveal_strlit("2");
        reveal_strlit("3");
        reveal_strlit("4");
        reveal_strlit("5");
        reveal_strlit("6");
        reveal_strlit("7");
        reveal_strlit("8");
        reveal_strlit("9");
    }
    if d == 0 {
        "0"
    } else if d == 1 {
        "1"
    } else if d == 2 {
        "2"
    } else if d == 3 {
        "3"
    } else if d == 4 {
        "4"
    } else if d == 5 {
        "5"
    } else if d == 6 {
        "6"
    } else if d == 7 {
        "7"
    } else if d == 8 {
        "8"
    } else {
        "9"
    }
}

/// Renders `n` in decimal.
pub fn u64_to_dec(n: u64) -> (r: String)
    ensures
        r@ == dec_digits(n as nat),
    decreases n,
{
    if n < 10 {
        digit_str(n).to_owned()
    } else {
        let mut prefix = u64_to_dec(n / 10);
        prefix.append(digit_str(n % 10));
        prefix
    }
}

/// Renders `n` in decimal, zero-padded on the left to `width` digits.
pub fn u64_to_fixed_dec(n: u64, width: u64) -> (r: String)
    ensures
        r@ == fixed_dec_digits(n as nat, width as nat),
    decreases width,
{
    if width <= 1 {
        digit_str(n % 10).to_owned()
    } else {
        let mut prefix = u64_to_fixed_dec(n / 10, width - 1);
        prefix.append(digit_str(n % 10));
        prefix
    }
}

/// Renders `n` in decimal.
pub fn u128_to_dec(n: u128) -> (r: String)
    ensures
        r@ == dec_digits(n as nat),
    decreases n,
{
    if n < 10 {
        digit_str((n % 10) as u64).to_owned()
    } else {
        let mut prefix = u128_to_dec(n / 10);
        prefix.append(digit_str((n % 10) as u64));
        prefix
    }
}

/// Renders a signed value in decimal.
pub fn i64_to_dec(n: i64) -> (r: String)
    ensures
        r@ == signed_dec_digits(n as int),
{
    proof {
        reveal_strlit("-");
    }
    if n < 0 {
        let m: u64 = (-(n as i128)) as u64;
        let mut r = String::from_str("-");
        r.append(u64_to_dec(m).as_str());
        r
    } else {
        u64_to_dec(n as u64)
    }
}

/// Renders a duration held in microsecond-like units as a decimal number
/// of milliseconds with six fractional digits.
pub fn duration_to_display(v: i64) -> (r: String)
    ensures
        r@ == duration_display(v as int),
{
    proof {
        reveal_strlit("-");
        reveal_strlit(".");
    }
    let m: u64 = if v < 0 {
        (-(v as i128)) as u64
    } else {
        v as u64
    };
    let mut r = if v < 0 {
        String::from_str("-")
    } else {
        String::new()
    };
    r.append(u64_to_dec(m / 1000000).as_str());
    r.append(".");
    r.append(u64_to_fixed_dec(m % 1000000, 6).as_str());
    r
}

/// Renders a wide duration value the same way as `duration_to_display`.
pub fn i128_duration_to_display(v: i128) -> (r: String)
    requires
        v > i128::MIN,
    ensures
        r@ == duration_display(v as int),
{
    proof {
        reveal_strlit("-");
        reveal_strlit(".");
    }
    let m: u128 = if v < 0 {
        (-v) as u128
    } else {
        v as u128
    };
    let mut r = if v < 0 {
        String::from_str("-")
    } else {
        String::new()
    };
    r.append(u128_to_dec(m / 1000000).as_str());
    r.append(".");
    r.append(u64_to_fixed_dec((m % 1000000) as u64, 6).as_str());
    r
}

} // verus!
