//! Decimal notation: what the digits of a number are, and how to write them.

use vstd::prelude::*;
use vstd::string::StringExecFns;

verus! {

/// The character that stands for the digit `d`, for `d` below ten.
pub open spec fn digit_glyph(d: nat) -> char {
    (d + 48) as char
}

/// Whether `c` is one of the ten digits `0` to `9`.
pub open spec fn is_digit(c: char) -> bool {
    '0' <= c <= '9'
}

/// The number that the digit `c` stands for.
pub open spec fn digit_value(c: char) -> nat
    recommends
        is_digit(c),
{
    (c as int - 48) as nat
}

/// Ten to the power `e`.
pub open spec fn pow10(e: nat) -> nat
    decreases e,
{
    if e == 0 {
        1
    } else {
        10 * pow10((e - 1) as nat)
    }
}

/// The decimal notation of `n`: no sign, no leading zero, `"0"` for zero.
pub open spec fn decimal(n: nat) -> Seq<char>
    decreases n,
{
    if n < 10 {
        seq![digit_glyph(n)]
    } else {
        decimal(n / 10).push(digit_glyph(n % 10))
    }
}

/// The last `width` decimal digits of `n`, with zeros in front where `n` has fewer.
pub open spec fn padded_decimal(n: nat, width: nat) -> Seq<char>
    decreases width,
{
    if width == 0 {
        Seq::empty()
    } else {
        padded_decimal(n / 10, (width - 1) as nat).push(digit_glyph(n % 10))
    }
}

/// How many digits the decimal notation of `n` has.
pub open spec fn digit_count(n: nat) -> nat
    decreases n,
{
    if n < 10 {
        1
    } else {
        digit_count(n / 10) + 1
    }
}

/// Powers of ten are positive and grow with the exponent.
pub proof fn lemma_pow10_grows(a: nat, b: nat)
    requires
        a <= b,
    ensures
        0 < pow10(a) <= pow10(b),
    decreases b,
{
    if b == 0 {
    } else if a == b {
        lemma_pow10_grows((a - 1) as nat, (b - 1) as nat);
    } else {
        lemma_pow10_grows(a, (b - 1) as nat);
    }
}

/// `digit_count(n)` is the one width `w` with `10^(w-1) <= n < 10^w`, but for
/// zero, which has one digit.
pub proof fn lemma_digit_count_bounds(n: nat)
    ensures
        digit_count(n) >= 1,
        n < pow10(digit_count(n)),
        n > 0 ==> pow10((digit_count(n) - 1) as nat) <= n,
    decreases n,
{
    reveal_with_fuel(pow10, 2);
    if n < 10 {
    } else {
        lemma_digit_count_bounds(n / 10);
    }
}

/// The decimal notation has `digit_count` characters, all of them digits.
pub proof fn lemma_decimal_digits(n: nat)
    ensures
        decimal(n).len() == digit_count(n),
        forall|i: int| 0 <= i < decimal(n).len() ==> is_digit(#[trigger] decimal(n)[i]),
    decreases n,
{
    if n < 10 {
    } else {
        lemma_decimal_digits(n / 10);
    }
}

/// Padded to its own digit count, a number reads as its decimal notation.
pub proof fn lemma_padded_is_decimal(n: nat)
    ensures
        padded_decimal(n, digit_count(n)) == decimal(n),
    decreases n,
{
    reveal_with_fuel(padded_decimal, 2);
    if n < 10 {
        assert(padded_decimal(n, 1) =~= seq![digit_glyph(n)]);
    } else {
        lemma_padded_is_decimal(n / 10);
    }
}

/// The first of `width` padded digits is `n / 10^(width-1)`; the rest are the
/// padded digits of the remainder.
pub proof fn lemma_padded_front(n: nat, width: nat)
    requires
        width >= 1,
        n < pow10(width),
    ensures
        n / pow10((width - 1) as nat) < 10,
        n % pow10((width - 1) as nat) < pow10((width - 1) as nat),
        padded_decimal(n, width) == seq![digit_glyph(n / pow10((width - 1) as nat))]
            + padded_decimal(n % pow10((width - 1) as nat), (width - 1) as nat),
    decreases width,
{
    let p = pow10((width - 1) as nat);
    lemma_pow10_grows(0, (width - 1) as nat);
    reveal_with_fuel(pow10, 2);
    reveal_with_fuel(padded_decimal, 2);
    if width == 1 {
        assert(padded_decimal(n % 1, 0) =~= Seq::<char>::empty());
        assert(padded_decimal(n, 1) =~= seq![digit_glyph(n)]);
    } else {
        let q = pow10((width - 2) as nat);
        assert(p == 10 * q);
        lemma_pow10_grows(0, (width - 2) as nat);
        lemma_padded_front(n / 10, (width - 1) as nat);
        lemma_div_mod_by_ten_power(n, q);
        assert(padded_decimal(n, width) =~= seq![digit_glyph(n / p)] + padded_decimal(
            n % p,
            (width - 1) as nat,
        ));
    }
}

/// Dividing by `10 * q` is dividing by ten and then by `q`; the remainders
/// agree in their last digit.
proof fn lemma_div_mod_by_ten_power(n: nat, q: nat)
    by (nonlinear_arith)
    requires
        q > 0,
    ensures
        (n / 10) / q == n / (10 * q),
        (n % (10 * q)) / 10 == (n / 10) % q,
        (n % (10 * q)) % 10 == n % 10,
        n % (10 * q) < 10 * q,
{
}

/// Dividing by a positive number splits a number into a multiple of it and
/// a remainder below it.
pub proof fn lemma_split_at_scale(n: nat, scale: nat)
    by (nonlinear_arith)
    requires
        scale > 0,
    ensures
        (n / scale) * scale <= n,
        n - (n / scale) * scale == n % scale,
        n % scale < scale,
{
}

/// The character for a digit below ten.
pub fn digit_char(d: u32) -> (c: char)
    requires
        d < 10,
    ensures
        c == digit_glyph(d as nat),
{
    match d {
        0 => '0',
        1 => '1',
        2 => '2',
        3 => '3',
        4 => '4',
        5 => '5',
        6 => '6',
        7 => '7',
        8 => '8',
        _ => '9',
    }
}

/// The one-character text for a digit below ten.
fn digit_text(d: u64) -> (s: &'static str)
    requires
        d < 10,
    ensures
        s@ == seq![digit_glyph(d as nat)],
{
    proof {
        reveal_strlit("0");
        reveal_strlit("1");
        reveal_strlit("2");
        reveal_strlit("3");
        reveal_strlit("4");
        reveal_strlit("5");
        reveal_strlit("6");
        reveal_strlit("7");
        reveal_strlit("8");
        reveal_strlit("9");
    }
    let s = match d {
        0 => "0",
        1 => "1",
        2 => "2",
        3 => "3",
        4 => "4",
        5 => "5",
        6 => "6",
        7 => "7",
        8 => "8",
        _ => "9",
    };
    assert(s@ =~= seq![digit_glyph(d as nat)]);
    s
}

/// The decimal notation of `value` as a string.
pub fn decimal_string(value: u64) -> (s: String)
    ensures
        s@ == decimal(value as nat),
    decreases value,
{
    if value < 10 {
        String::from_str(digit_text(value))
    } else {
        let mut s = decimal_string(value / 10);
        s.append(digit_text(value % 10));
        assert(s@ =~= decimal(value as nat));
        s
    }
}

/// Ten to the power `exponent`, for the powers that fit in 32 bits.
pub fn power_of_ten(exponent: u32) -> (power: u32)
    requires
        exponent <= 9,
    ensures
        power == pow10(exponent as nat),
{
    let mut power: u32 = 1;
    let mut done: u32 = 0;
    while done < exponent
        invariant
            done <= exponent <= 9,
            power == pow10(done as nat),
            power <= 1_000_000_000,
        decreases exponent - done,
    {
        proof {
            reveal_with_fuel(pow10, 11);
            if done < 9 {
                lemma_pow10_grows((done + 1) as nat, 9);
            }
        }
        power = power * 10;
        done = done + 1;
    }
    power
}

/// The base 10 logarithm of a positive number, rounded down: one less than
/// the number of its digits.
pub fn ilog10(value: u32) -> (log: u32)
    requires
        value > 0,
    ensures
        log + 1 == digit_count(value as nat),
        log <= 9,
        pow10(log as nat) <= value < pow10((log + 1) as nat),
{
    proof {
        lemma_digit_count_bounds(value as nat);
        if digit_count(value as nat) > 10 {
            reveal_with_fuel(pow10, 11);
            lemma_pow10_grows(10, (digit_count(value as nat) - 1) as nat);
        }
    }
    let mut log: u32 = 0;
    let mut rest: u32 = value;
    while rest >= 10
        invariant
            rest > 0,
            log + digit_count(rest as nat) == digit_count(value as nat),
            digit_count(value as nat) <= 10,
        decreases rest,
    {
        rest = rest / 10;
        log = log + 1;
    }
    log
}

/// How many digits the decimal notation of `value` has.
pub fn decimal_width(value: u32) -> (width: usize)
    ensures
        width == digit_count(value as nat),
        1 <= width <= 10,
{
    if value == 0 {
        1
    } else {
        let log = ilog10(value);
        log as usize + 1
    }
}

} // verus!
