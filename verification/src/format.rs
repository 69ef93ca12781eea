//! Numbers as text: sizes with a unit, shares in percent.

use crate::double::{Double, lemma_exact_integer, less, nearest, product_of, quotient_of};
use crate::index::whole;
use crate::text::{copied, decimal, decimal_text, digit, digit_char, joined_pair};
use vstd::arithmetic::power::{lemma_pow0, lemma_pow1, lemma_pow_adds, pow};
use vstd::arithmetic::power2::{lemma2_to64, lemma_pow2_adds, lemma_pow2_strictly_increases, lemma_pow2_unfold, pow2};
use vstd::prelude::*;
use vstd::string::StringExecFns;

verus! {

/// The number that some decimal digits stand for, the last digit first.
pub open spec fn value_of(digits: Seq<u8>) -> nat
    decreases digits.len(),
{
    if digits.len() == 0 {
        0
    } else {
        digits[0] as nat + 10 * value_of(digits.drop_first())
    }
}

/// The digits of a number, the last one first: there is one, and the first digit of a number
/// with several is not zero.
spec fn are_digits(digits: Seq<u8>) -> bool {
    &&& digits.len() > 0
    &&& digits.len() > 1 ==> digits.last() != 0
    &&& forall|i: int| 0 <= i < digits.len() ==> #[trigger] digits[i] < 10
}

/// The digits as a text.
spec fn digits_text(digits: Seq<u8>) -> Seq<char> {
    Seq::new(digits.len(), |i: int| digit(digits[digits.len() - 1 - i] as nat))
}

proof fn lemma_first_digit(digits: Seq<u8>)
    requires
        are_digits(digits),
    ensures
        digits.len() > 1 ==> value_of(digits) >= 10,
        digits.last() != 0 ==> value_of(digits) > 0,
    decreases digits.len(),
{
    let rest = digits.drop_first();
    if digits.len() > 1 {
        assert(rest.last() == digits.last());
        assert forall|i: int| 0 <= i < rest.len() implies #[trigger] rest[i] < 10 by {
            assert(rest[i] == digits[i + 1]);
        }
        lemma_first_digit(rest);
    } else {
        assert(value_of(rest) == 0);
    }
}

proof fn lemma_digits_are_decimal(digits: Seq<u8>)
    requires
        are_digits(digits),
    ensures
        digits_text(digits) == decimal(value_of(digits)),
    decreases digits.len(),
{
    let rest = digits.drop_first();
    if digits.len() == 1 {
        assert(value_of(rest) == 0);
        assert(digits_text(digits) =~= decimal(value_of(digits)));
    } else {
        assert(rest.last() == digits.last());
        assert forall|i: int| 0 <= i < rest.len() implies #[trigger] rest[i] < 10 by {
            assert(rest[i] == digits[i + 1]);
        }
        lemma_first_digit(digits);
        lemma_digits_are_decimal(rest);
        assert(value_of(digits) / 10 == value_of(rest));
        assert(value_of(digits) % 10 == digits[0]);
        assert(digits_text(digits) =~= digits_text(rest).push(digit(digits[0] as nat)));
    }
}

/// The digits of twice a number and a carry.
spec fn doubled(digits: Seq<u8>, carry: u8) -> Seq<u8>
    decreases digits.len(),
{
    if digits.len() == 0 {
        if carry > 0 {
            seq![carry]
        } else {
            seq![]
        }
    } else {
        let n = 2 * digits[0] + carry;
        seq![(n % 10) as u8] + doubled(digits.drop_first(), (n / 10) as u8)
    }
}

proof fn lemma_doubled(digits: Seq<u8>, carry: u8)
    requires
        forall|i: int| 0 <= i < digits.len() ==> #[trigger] digits[i] < 10,
        carry <= 1,
    ensures
        value_of(doubled(digits, carry)) == 2 * value_of(digits) + carry,
        forall|i: int|
            0 <= i < doubled(digits, carry).len() ==> #[trigger] doubled(digits, carry)[i] < 10,
        doubled(digits, carry).len() >= digits.len(),
        digits.len() > 0 && digits.last() != 0 ==> doubled(digits, carry).last() != 0,
        doubled(digits, carry).len() > digits.len() ==> doubled(digits, carry).last() != 0,
    decreases digits.len(),
{
    let out = doubled(digits, carry);
    if digits.len() == 0 {
        if carry > 0 {
            assert(out.drop_first() =~= seq![]);
            assert(value_of(out.drop_first()) == 0);
        }
    } else {
        let n = 2 * digits[0] + carry;
        let rest = digits.drop_first();
        let next = (n / 10) as u8;
        assert forall|i: int| 0 <= i < rest.len() implies #[trigger] rest[i] < 10 by {
            assert(rest[i] == digits[i + 1]);
        }
        lemma_doubled(rest, next);
        let back = doubled(rest, next);
        assert(out.drop_first() =~= back);
        assert(out[0] == n % 10);
        assert(value_of(out) == n % 10 + 10 * value_of(back));
        assert(value_of(out) == 2 * value_of(digits) + carry);
        assert forall|i: int| 0 <= i < out.len() implies #[trigger] out[i] < 10 by {
            if i > 0 {
                assert(out[i] == back[i - 1]);
            }
        }
        if rest.len() > 0 {
            assert(rest.last() == digits.last());
        }
        if back.len() > 0 {
            assert(out.last() == back.last());
        }
    }
}

/// The digits of twice a number.
fn double_digits(digits: &Vec<u8>) -> (r: Vec<u8>)
    requires
        are_digits(digits@),
    ensures
        are_digits(r@),
        value_of(r@) == 2 * value_of(digits@),
{
    let mut out: Vec<u8> = Vec::new();
    let mut carry: u8 = 0;
    let mut i: usize = 0;
    assert(digits@.skip(0) =~= digits@);
    assert(out@ + doubled(digits@, 0) =~= doubled(digits@, 0));
    while i < digits.len()
        invariant
            are_digits(digits@),
            i <= digits@.len(),
            carry <= 1,
            out@ + doubled(digits@.skip(i as int), carry) == doubled(digits@, 0),
        decreases digits@.len() - i,
    {
        let n: u8 = 2 * digits[i] + carry;
        let ghost before = out@;
        let ghost rest = digits@.skip(i as int);
        proof {
            assert(rest[0] == digits@[i as int]);
            assert(rest.drop_first() =~= digits@.skip(i + 1));
        }
        out.push(n % 10);
        carry = n / 10;
        i = i + 1;
        assert(out@ + doubled(digits@.skip(i as int), carry) =~= before + doubled(
            rest,
            (n - 2 * rest[0]) as u8,
        ));
    }
    let ghost before = out@;
    if carry > 0 {
        out.push(carry);
    }
    proof {
        assert(digits@.skip(i as int) =~= seq![]);
        assert(out@ =~= before + doubled(digits@.skip(i as int), carry));
        lemma_doubled(digits@, 0);
    }
    out
}

/// The digits of a number.
fn digits_of(n: u64) -> (r: Vec<u8>)
    ensures
        are_digits(r@),
        value_of(r@) == n,
{
    let mut out: Vec<u8> = Vec::new();
    let mut rest: u64 = n;
    let ghost mut place: nat = 1;
    proof {
        lemma_pow0(10);
    }
    while rest >= 10
        invariant
            forall|i: int| 0 <= i < out@.len() ==> #[trigger] out@[i] < 10,
            out@.len() > 0 ==> rest > 0,
            n == value_of(out@) + place * rest,
            place == pow(10, out@.len()),
            place > 0,
        decreases rest,
    {
        let d: u8 = (rest % 10) as u8;
        proof {
            lemma_pushed_digit(out@, d);
            let p = place as int;
            let q = (rest / 10) as int;
            assert(p * rest == p * d + (10 * p) * q) by (nonlinear_arith)
                requires
                    rest == 10 * q + d,
            ;
            place = 10 * place;
        }
        out.push(d);
        rest = rest / 10;
    }
    proof {
        lemma_pushed_digit(out@, rest as u8);
    }
    out.push(rest as u8);
    out
}

proof fn lemma_pushed_digit(digits: Seq<u8>, d: u8)
    ensures
        value_of(digits.push(d)) == value_of(digits) + pow(10, digits.len()) * d,
        pow(10, digits.len() + 1) == 10 * pow(10, digits.len()),
    decreases digits.len(),
{
    lemma_pow0(10);
    lemma_pow1(10);
    lemma_pow_adds(10, 1, digits.len());
    let all = digits.push(d);
    if digits.len() == 0 {
        assert(all.drop_first() =~= seq![]);
        assert(value_of(all.drop_first()) == 0);
        assert(1 * d == d);
    } else {
        let rest = digits.drop_first();
        lemma_pushed_digit(rest, d);
        assert(all.drop_first() =~= rest.push(d));
        let p = pow(10, rest.len());
        lemma_pow_adds(10, 1, rest.len());
        assert(10 * (p * d) == (10 * p) * d) by (nonlinear_arith);
    }
}

/// The text of a number that is shifted to the left.
fn shifted_text(significand: u64, shift: u32) -> (r: String)
    ensures
        r@ == decimal(significand as nat * pow2(shift as nat)),
{
    let mut digits = digits_of(significand);
    let mut i: u32 = 0;
    proof {
        lemma2_to64();
        assert(significand as nat * 1 == significand);
    }
    while i < shift
        invariant
            i <= shift,
            are_digits(digits@),
            value_of(digits@) == significand * pow2(i as nat),
        decreases shift - i,
    {
        proof {
            lemma_pow2_unfold((i + 1) as nat);
            let p = pow2(i as nat) as int;
            assert(significand * (2 * p) == 2 * (significand * p)) by (nonlinear_arith);
        }
        digits = double_digits(&digits);
        i = i + 1;
    }
    let mut out = String::new();
    let mut k: usize = digits.len();
    assert(out@ =~= seq![]);
    while k > 0
        invariant
            k <= digits@.len(),
            are_digits(digits@),
            out@ == digits_text(digits@).take(digits@.len() - k),
        decreases k,
    {
        let ghost before = out@;
        k = k - 1;
        out.push(digit_char(digits[k]));
        assert(out@ =~= digits_text(digits@).take(digits@.len() - k));
    }
    proof {
        assert(out@ =~= digits_text(digits@));
        lemma_digits_are_decimal(digits@);
    }
    out
}

/// The number of tenths nearest to the magnitude of a number, the even one of two.
pub open spec fn tenths(x: Double) -> nat {
    if x.exponent >= 0 {
        x.significand as nat * pow2(x.exponent as nat) * 10
    } else {
        nearest(x.significand as nat * 10, pow2((-x.exponent) as nat))
    }
}

/// The magnitude of a number with one decimal.
pub open spec fn one_decimal(x: Double) -> Seq<char> {
    decimal(tenths(x) / 10) + seq!['.', digit(tenths(x) % 10)]
}

/// The integer nearest to a quotient, the even one of two.
fn nearest_quotient(n: u128, d: u128) -> (r: u128)
    requires
        0 < d <= 0x1000_0000_0000_0000_0000_0000,
        n <= 0x1000_0000_0000_0000_0000_0000,
    ensures
        r == nearest(n as nat, d as nat),
        r <= n + 1,
{
    let q: u128 = n / d;
    let rest: u128 = n % d;
    proof {
        assert(n / d <= n) by (nonlinear_arith)
            requires
                d > 0,
        ;
    }
    if rest * 2 > d || (rest * 2 == d && q % 2 == 1) {
        q + 1
    } else {
        q
    }
}

/// The magnitude of a number with one decimal.
pub fn one_decimal_text(x: Double) -> (r: String)
    requires
        x.wf(),
        x.exponent >= -10_000,
    ensures
        r@ == one_decimal(x),
{
    if x.exponent >= 0 {
        let mut out = shifted_text(x.significand, x.exponent as u32);
        let ghost n = x.significand as nat * pow2(x.exponent as nat);
        let ghost front = out@;
        out.append(".0");
        proof {
            reveal_strlit(".0");
            assert(tenths(x) == n * 10);
            assert(tenths(x) / 10 == n);
            assert(tenths(x) % 10 == 0);
            assert(".0"@ =~= seq!['.', digit(0)]);
            assert(out@ =~= front + seq!['.', digit(0)]);
        }
        out
    } else {
        let t: u128 = if x.exponent <= -60 {
            proof {
                lemma_small_rounds_to_zero(x);
            }
            0
        } else {
            let d: u128 = power_of_two((-x.exponent) as u32);
            nearest_quotient(x.significand as u128 * 10, d)
        };
        let mut out = decimal_text(t / 10);
        let ghost front = out@;
        out.push('.');
        out.push(digit_char((t % 10) as u8));
        assert(out@ =~= front + seq!['.', digit((t % 10) as nat)]);
        out
    }
}

fn power_of_two(n: u32) -> (r: u128)
    requires
        n < 64,
    ensures
        r == pow2(n as nat),
        0 < r <= 0x8000_0000_0000_0000,
{
    let mut r: u128 = 1;
    let mut i: u32 = 0;
    proof {
        lemma2_to64();
    }
    while i < n
        invariant
            i <= n < 64,
            r == pow2(i as nat),
            0 < r <= 0x8000_0000_0000_0000,
        decreases n - i,
    {
        proof {
            lemma_pow2_unfold((i + 1) as nat);
            lemma2_to64();
            lemma_pow2_unfold(64);
            if i + 1 < 63 {
                lemma_pow2_strictly_increases((i + 1) as nat, 63);
            }
        }
        r = r * 2;
        i = i + 1;
    }
    r
}

proof fn lemma_small_rounds_to_zero(x: Double)
    requires
        x.wf(),
        x.exponent <= -60,
    ensures
        tenths(x) == 0,
{
    let n = x.significand as nat * 10;
    let d = pow2((-x.exponent) as nat);
    lemma2_to64();
    lemma_pow2_adds(30, 30);
    assert(pow2(60) == 0x1000_0000_0000_0000);
    if -x.exponent > 60 {
        lemma_pow2_strictly_increases(60, (-x.exponent) as nat);
    }
    assert(n * 2 < d);
    assert(n / d == 0) by (nonlinear_arith)
        requires
            0 <= n < d,
    ;
    assert(n % d == n) by (nonlinear_arith)
        requires
            0 <= n < d,
    ;
}

/// The greatest exponent of a number of 64 bits.
pub const GREATEST_EXPONENT: i32 = 971;

/// A number of 64 bits, which can be shown as a percentage.
pub open spec fn showable(x: Double) -> bool {
    x.wf() && -2000 <= x.exponent <= GREATEST_EXPONENT
}

/// A number in percent.
pub open spec fn hundredfold(x: Double) -> Double {
    product_of(x, whole(100))
}

fn hundred_times(x: Double) -> (r: Double)
    requires
        showable(x),
    ensures
        r == hundredfold(x),
        r.wf(),
        -9000 <= r.exponent <= 2000,
{
    let hundred = Double::from_u64(100);
    proof {
        lemma_hundred();
    }
    x.times(hundred)
}

/// The sign of a number, if it is negative.
pub open spec fn minus_sign(x: Double) -> Seq<char> {
    if x.negative {
        "-"@
    } else {
        ""@
    }
}

fn minus_sign_text(x: Double) -> (r: String)
    ensures
        r@ == minus_sign(x),
{
    if x.negative {
        copied("-")
    } else {
        copied("")
    }
}

/// The magnitude of a number with one decimal; one beyond the numbers of 64 bits is
/// infinite.
pub open spec fn magnitude(x: Double) -> Seq<char> {
    if x.exponent > GREATEST_EXPONENT {
        "inf"@
    } else {
        one_decimal(x)
    }
}

fn magnitude_text(x: Double) -> (r: String)
    requires
        x.wf(),
        x.exponent >= -10_000,
    ensures
        r@ == magnitude(x),
{
    if x.exponent > GREATEST_EXPONENT {
        copied("inf")
    } else {
        one_decimal_text(x)
    }
}

pub proof fn lemma_hundred()
    ensures
        whole(100) == (Double { negative: false, significand: 0x19_0000_0000_0000, exponent: -46i32 }),
{
    lemma2_to64();
    lemma_pow2_adds(23, 23);
    assert(pow2(46) == 0x4000_0000_0000);
    lemma_exact_integer(100, 46);
}

/// A share in percent with one decimal.
pub open spec fn percent(x: Double) -> Seq<char> {
    minus_sign(x) + magnitude(hundredfold(x)) + "%"@
}

/// A share in percent with one decimal.
pub fn percent_text(x: Double) -> (r: String)
    requires
        showable(x),
    ensures
        r@ == percent(x),
{
    let mut out = minus_sign_text(x);
    out.append(magnitude_text(hundred_times(x)).as_str());
    out.append("%");
    out
}

/// The change of a share in percentage points, with a sign and one decimal.
pub open spec fn share_change(x: Double) -> Seq<char> {
    (if x.negative { "-"@ } else { "+"@ }) + magnitude(hundredfold(x)) + "pp"@
}

/// The change of a share in percentage points.
pub fn format_share_delta(delta: Double) -> (r: String)
    requires
        showable(delta),
    ensures
        r@ == share_change(delta),
{
    let mut out = if delta.negative {
        copied("-")
    } else {
        copied("+")
    };
    out.append(magnitude_text(hundred_times(delta)).as_str());
    out.append("pp");
    out
}

/// The integer nearest to the magnitude of a number, the even one of two.
pub open spec fn units(x: Double) -> nat {
    if x.exponent >= 0 {
        x.significand as nat * pow2(x.exponent as nat)
    } else {
        nearest(x.significand as nat, pow2((-x.exponent) as nat))
    }
}

/// A share in percent, as an integer.
pub open spec fn whole_percent(x: Double) -> Seq<char> {
    let scaled = hundredfold(x);
    minus_sign(x) + (if scaled.exponent > GREATEST_EXPONENT {
        "inf"@
    } else {
        decimal(units(scaled))
    }) + "%"@
}

/// A share in percent, as an integer.
pub fn whole_percent_text(x: Double) -> (r: String)
    requires
        showable(x),
    ensures
        r@ == whole_percent(x),
{
    let scaled = hundred_times(x);
    let number = if scaled.exponent > GREATEST_EXPONENT {
        copied("inf")
    } else if scaled.exponent >= 0 {
        shifted_text(scaled.significand, scaled.exponent as u32)
    } else {
        let n: u128 = if scaled.exponent <= -60 {
            proof {
                lemma_small_has_no_units(scaled);
            }
            0
        } else {
            nearest_quotient(
                scaled.significand as u128,
                power_of_two((-scaled.exponent) as u32),
            )
        };
        decimal_text(n)
    };
    let mut out = minus_sign_text(x);
    out.append(number.as_str());
    out.append("%");
    out
}

proof fn lemma_small_has_no_units(x: Double)
    requires
        x.wf(),
        x.exponent <= -60,
    ensures
        units(x) == 0,
{
    let n = x.significand as nat;
    let d = pow2((-x.exponent) as nat);
    lemma2_to64();
    lemma_pow2_adds(30, 30);
    if -x.exponent > 60 {
        lemma_pow2_strictly_increases(60, (-x.exponent) as nat);
    }
    assert(n / d == 0) by (nonlinear_arith)
        requires
            0 <= n < d,
    ;
    assert(n % d == n) by (nonlinear_arith)
        requires
            0 <= n < d,
    ;
}

/// The units of sizes, each 1024 times the one before.
pub open spec fn unit_name(unit: nat) -> Seq<char> {
    if unit == 0 {
        "B"@
    } else if unit == 1 {
        "KiB"@
    } else if unit == 2 {
        "MiB"@
    } else if unit == 3 {
        "GiB"@
    } else if unit == 4 {
        "TiB"@
    } else {
        "PiB"@
    }
}

fn unit_text(unit: u8) -> (r: &'static str)
    ensures
        r@ == unit_name(unit as nat),
{
    match unit {
        0 => "B",
        1 => "KiB",
        2 => "MiB",
        3 => "GiB",
        4 => "TiB",
        _ => "PiB",
    }
}

/// The greatest unit.
pub const LAST_UNIT: u8 = 5;

/// A number in the greatest unit in which it is at least one, as far as there are units.
pub open spec fn in_unit_from(value: Double, unit: nat) -> (Double, nat)
    decreases LAST_UNIT - unit,
{
    if unit < LAST_UNIT && !less(value, whole(1024)) {
        in_unit_from(quotient_of(value, whole(1024)), unit + 1)
    } else {
        (value, unit)
    }
}

/// A size with its unit.
pub open spec fn size_text(size: u64) -> Seq<char> {
    let (value, unit) = in_unit_from(whole(size as nat), 0);
    if unit == 0 {
        decimal(size as nat) + " B"@
    } else {
        one_decimal(value) + " "@ + unit_name(unit)
    }
}

pub proof fn lemma_thousand()
    ensures
        whole(1024) == (Double { negative: false, significand: 0x10_0000_0000_0000, exponent: -42i32 }),
{
    lemma2_to64();
    lemma_pow2_adds(21, 21);
    lemma_exact_integer(1024, 42);
}

/// A size with its unit.
pub fn format_size(size: u64) -> (r: String)
    ensures
        r@ == size_text(size),
{
    let step = Double::from_u64(1024);
    let mut value = Double::from_u64(size);
    let mut unit: u8 = 0;
    proof {
        lemma_thousand();
    }
    while unit < LAST_UNIT && !value.less_than(step)
        invariant
            step == whole(1024),
            step == (Double { negative: false, significand: 0x10_0000_0000_0000, exponent: -42i32 }),
            unit <= LAST_UNIT,
            value.wf(),
            -60 - 20 * unit <= value.exponent <= 20,
            in_unit_from(whole(size as nat), 0) == in_unit_from(value, unit as nat),
        decreases LAST_UNIT - unit,
    {
        value = value.divided_by(step);
        unit = unit + 1;
    }
    if unit == 0 {
        let mut out = decimal_text(size as u128);
        out.append(" B");
        out
    } else {
        let mut out = one_decimal_text(value);
        out.append(" ");
        out.append(unit_text(unit));
        out
    }
}

/// A change of size with its sign and its unit.
pub open spec fn signed_size(delta: i64) -> Seq<char> {
    if delta >= 0 {
        "+"@ + size_text(delta as u64)
    } else {
        "-"@ + size_text((-delta) as u64)
    }
}

/// A change of size with its sign and its unit.
pub fn format_signed_size(delta: i64) -> (r: String)
    ensures
        r@ == signed_size(delta),
{
    if delta >= 0 {
        joined_pair("+", format_size(delta as u64).as_str())
    } else {
        let magnitude: u64 = (-(delta as i128)) as u64;
        joined_pair("-", format_size(magnitude).as_str())
    }
}

} // verus!
