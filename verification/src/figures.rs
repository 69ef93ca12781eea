//! What the figures on the screen say of the numbers that they show.

use crate::double::{Double, SIGNIFICAND_LIMIT, distance, law_dividing_by_a_power_of_two, law_integer_is_nearest, law_less_compares_values, law_multiple_is_nearest, lemma_exact_integer, lemma_integers_in_order, lemma_nearest_error, lemma_normal_form, lemma_scaled_distance, lemma_steps_of_integer, lemma_unscaled_distance, less, limited, negation, steps};
use crate::format::{LAST_UNIT, hundredfold, in_unit_from, lemma_hundred, lemma_thousand, magnitude, percent, share_change, signed_size, size_text, tenths, unit_name, units, whole_percent};
use crate::index::{whole, zero};
use crate::text::{decimal, digit};
use vstd::arithmetic::power2::{lemma2_to64, lemma_pow2_adds, lemma_pow2_pos, lemma_pow2_strictly_increases, pow2};
use vstd::prelude::*;

verus! {

/// A number of tenths, with one decimal.
pub open spec fn tenths_text(t: nat) -> Seq<char> {
    decimal(t / 10) + seq!['.', digit(t % 10)]
}

/// A number divided by a power of 1024.
spec fn divided(x: Double, unit: nat) -> Double {
    Double { exponent: (x.exponent - 10 * unit) as i32, ..x }
}

proof fn lemma_divided_steps(size: nat, unit: nat)
    requires
        0 < size < SIGNIFICAND_LIMIT,
        unit <= 5,
    ensures
        limited(divided(whole(size), unit)),
        steps(divided(whole(size), unit)) * pow2(10 * unit) == size * pow2(2000),
        whole(size).significand > 0,
        -52 <= whole(size).exponent <= 0,
{
    lemma_steps_of_integer(size);
    let k = lemma_normal_form(size);
    lemma_exact_integer(size, k);
    let x = whole(size);
    let y = divided(x, unit);
    let j = (y.exponent + 2000) as nat;
    lemma_pow2_adds(j, 10 * unit);
    let s = x.significand as int;
    let p = pow2(j) as int;
    let q = pow2(10 * unit) as int;
    assert((s * p) * q == s * (p * q)) by (nonlinear_arith);
}

/// Whether a size is at least 1024 in a unit.
proof fn lemma_unit_is_passed(size: nat, unit: nat)
    requires
        0 < size < SIGNIFICAND_LIMIT,
        unit <= 5,
    ensures
        less(divided(whole(size), unit), whole(1024)) <==> size < pow2(10 * (unit + 1)),
{
    lemma_divided_steps(size, unit);
    lemma_thousand();
    lemma_steps_of_integer(1024);
    let value = divided(whole(size), unit);
    law_less_compares_values(value, whole(1024));
    let a = steps(value) as int;
    let q = pow2(10 * unit) as int;
    let z = pow2(2000) as int;
    lemma_pow2_pos(10 * unit);
    lemma_pow2_pos(2000);
    lemma_pow2_adds(10 * unit, 10);
    lemma2_to64();
    assert(pow2(10 * (unit + 1)) == q * 1024);
    assert(a < 1024 * z <==> size < q * 1024) by (nonlinear_arith)
        requires
            a * q == size * z,
            q > 0,
            z > 0,
    ;
}

proof fn lemma_unit_is_reached(size: nat, from: nat, unit: nat)
    requires
        0 < size < SIGNIFICAND_LIMIT,
        from <= unit <= 5,
        unit > 0 ==> size >= pow2(10 * unit),
        unit < 5 ==> size < pow2(10 * (unit + 1)),
    ensures
        in_unit_from(divided(whole(size), from), from) == (divided(whole(size), unit), unit),
    decreases unit - from,
{
    lemma_unit_is_passed(size, from);
    if from < unit {
        if from + 1 < unit {
            lemma_pow2_strictly_increases(10 * (from + 1), 10 * unit);
        }
        let value = divided(whole(size), from);
        lemma_divided_steps(size, from);
        lemma_thousand();
        law_dividing_by_a_power_of_two(value, whole(1024));
        lemma_unit_is_reached(size, from + 1, unit);
    }
}

/// A size is shown in the greatest unit in which it is at least one, each unit being 1024
/// times the one before, with the number of tenths that is nearest to it.
pub proof fn law_sizes_are_shown_to_a_tenth(size: u64, unit: nat)
    requires
        size < SIGNIFICAND_LIMIT,
        1 <= unit <= LAST_UNIT,
        size >= pow2(10 * unit),
        unit < LAST_UNIT ==> size < pow2(10 * (unit + 1)),
    ensures
        exists|t: nat|
            #![trigger tenths_text(t)]
            size_text(size) == tenths_text(t) + " "@ + unit_name(unit) && 2 * distance(
                10 * size,
                (t * pow2(10 * unit)) as int,
            ) <= pow2(10 * unit),
{
    let n = size as nat;
    lemma_pow2_pos(10 * unit);
    lemma_unit_is_reached(n, 0, unit);
    let x = whole(n);
    assert(divided(x, 0) == x);
    let value = divided(x, unit);
    let k = lemma_normal_form(n);
    lemma_exact_integer(n, k);
    let t = tenths(value);
    let e = (k + 10 * unit) as nat;
    assert(value.exponent == -(e as int));
    lemma_pow2_pos(e);
    lemma_pow2_pos(k);
    lemma_pow2_adds(k, 10 * unit);
    let top = value.significand as nat * 10;
    lemma_nearest_error(top, pow2(e));
    let c = pow2(k) as int;
    let q = pow2(10 * unit) as int;
    assert(value.significand == n * c);
    assert(top == (10 * n) * c) by (nonlinear_arith)
        requires
            top == (n * c) * 10,
    ;
    assert(t * (c * q) == (t * q) * c) by (nonlinear_arith);
    assert(c * q == q * c) by (nonlinear_arith);
    lemma_unscaled_distance(10 * n as int, t * q, c, q);
    assert(size_text(size) == tenths_text(t) + " "@ + unit_name(unit));
}

/// A size below 1024 is shown as it is, in bytes.
pub proof fn law_small_sizes_are_shown_exactly(size: u64)
    requires
        size < 1024,
    ensures
        size_text(size) == decimal(size as nat) + " B"@,
{
    let n = size as nat;
    lemma2_to64();
    if n > 0 {
        lemma_unit_is_reached(n, 0, 0);
        assert(divided(whole(n), 0) == whole(n));
    } else {
        lemma_thousand();
        lemma_steps_of_integer(0);
        assert(less(whole(0), whole(1024)));
    }
}

/// A change of size is shown as its sign and its magnitude: a rise and a fall by the same
/// amount differ in the sign alone.
pub proof fn law_signed_sizes(delta: i64)
    requires
        delta > 0,
    ensures
        signed_size(delta) == seq!['+'] + size_text(delta as u64),
        signed_size((-delta) as i64) == seq!['-'] + size_text(delta as u64),
        signed_size(0) == seq!['+'] + size_text(0),
{
    reveal_strlit("+");
    reveal_strlit("-");
    assert("+"@ =~= seq!['+']);
    assert("-"@ =~= seq!['-']);
}

/// The tenths are those nearest to a number that is a hundred times another, rounded.
pub open spec fn are_tenths_of_percent(t: nat, x: Double) -> bool {
    exists|y: Double| #[trigger]
        limited_hundredfold(y, x) && 2 * distance(
            (10 * steps(y)) as int,
            (t * pow2(2000)) as int,
        ) <= pow2(2000)
}

/// The number is a hundred times another, rounded: the distance is at most half of the last
/// bit of the significand.
pub open spec fn limited_hundredfold(y: Double, x: Double) -> bool {
    &&& y.wf() && !y.negative && y.exponent >= -2000
    &&& x.significand == 0 <==> y.significand == 0
    &&& 2 * distance(steps(y) as int, (100 * steps(x)) as int) <= pow2((y.exponent + 2000) as nat)
}

proof fn lemma_hundredfold(x: Double)
    requires
        limited(x),
        x.exponent >= -1900,
    ensures
        limited_hundredfold(hundredfold(x), x),
        hundredfold(x).exponent <= 300,
{
    lemma_hundred();
    if x.significand > 0 {
        law_multiple_is_nearest(x, 100);
    } else {
        assert(0 * pow2((x.exponent + 2000) as nat) == 0);
        lemma_pow2_pos(2000);
        assert((x.significand * whole(100).significand) as nat == 0);
    }
}

proof fn lemma_tenths(y: Double)
    requires
        y.wf(),
        y.exponent >= -2000,
    ensures
        2 * distance((10 * steps(y)) as int, (tenths(y) * pow2(2000)) as int) <= pow2(2000),
{
    let s = y.significand as nat;
    let t = tenths(y);
    let z = pow2(2000) as int;
    lemma_pow2_pos(2000);
    if y.exponent >= 0 {
        let e = y.exponent as nat;
        lemma_pow2_adds(e, 2000);
        let p = pow2(e) as int;
        assert(10 * (s * (p * z)) == ((s * p) * 10) * z) by (nonlinear_arith);
    } else {
        let e = (-y.exponent) as nat;
        let j = (y.exponent + 2000) as nat;
        lemma_pow2_adds(e, j);
        lemma_pow2_pos(e);
        let p = pow2(e) as int;
        let q = pow2(j) as int;
        lemma_nearest_error(s * 10, pow2(e));
        lemma_scaled_distance((s * 10) as int, t * p, q, p);
        assert((s * 10) * q == 10 * (s * q)) by (nonlinear_arith);
        assert((t * p) * q == t * (p * q)) by (nonlinear_arith);
    }
}

/// A share is shown in percent, with the number of tenths that is nearest.
pub proof fn law_percentages_are_shown_to_a_tenth(x: Double)
    requires
        limited(x),
        x.exponent >= -1900,
    ensures
        exists|t: nat|
            #![trigger tenths_text(t)]
            percent(x) == tenths_text(t) + "%"@ && are_tenths_of_percent(t, x),
{
    reveal_strlit("");
    let y = hundredfold(x);
    lemma_hundredfold(x);
    lemma_tenths(y);
    let t = tenths(y);
    assert(are_tenths_of_percent(t, x));
    assert(""@ + tenths_text(t) =~= tenths_text(t));
    assert(percent(x) == tenths_text(t) + "%"@);
}

/// A change of share is shown like the share of its magnitude, with its sign in front: a
/// rise and a fall by the same amount differ in the sign alone.
pub proof fn law_share_changes(x: Double)
    requires
        limited(x),
        x.exponent >= -1900,
        x.significand > 0,
    ensures
        share_change(x) == seq!['+'] + percent(x).drop_last() + "pp"@,
        share_change(negation(x)) == seq!['-'] + percent(x).drop_last() + "pp"@,
        percent(negation(x)) == seq!['-'] + percent(x),
        share_change(zero()) == seq!['+'] + percent(zero()).drop_last() + "pp"@,
{
    reveal_strlit("");
    reveal_strlit("+");
    reveal_strlit("-");
    reveal_strlit("%");
    assert("+"@ =~= seq!['+']);
    assert("-"@ =~= seq!['-']);
    lemma_hundred();
    let y = hundredfold(x);
    let z = hundredfold(negation(x));
    assert(y.significand == z.significand && y.exponent == z.exponent);
    let m = magnitude(y);
    assert(magnitude(z) == m);
    assert(percent(x) =~= m + "%"@);
    assert(percent(x).drop_last() =~= m);
    assert(share_change(x) == seq!['+'] + m + "pp"@);
    assert(percent(negation(x)) =~= seq!['-'] + (m + "%"@));
    let n = magnitude(hundredfold(zero()));
    assert(percent(zero()) =~= n + "%"@);
    assert(percent(zero()).drop_last() =~= n);
}

/// A share in whole percent is shown as the integer that is nearest.
pub proof fn law_whole_percentages(x: Double)
    requires
        limited(x),
        x.exponent >= -1900,
    ensures
        exists|n: nat, y: Double|
            #![trigger decimal(n), limited_hundredfold(y, x)]
            whole_percent(x) == decimal(n) + "%"@ && limited_hundredfold(y, x) && 2 * distance(
                steps(y) as int,
                (n * pow2(2000)) as int,
            ) <= pow2(2000),
{
    reveal_strlit("");
    let y = hundredfold(x);
    lemma_hundredfold(x);
    let n = units(y);
    let s = y.significand as nat;
    let z = pow2(2000) as int;
    lemma_pow2_pos(2000);
    if y.exponent >= 0 {
        let e = y.exponent as nat;
        lemma_pow2_adds(e, 2000);
        let p = pow2(e) as int;
        assert(s * (p * z) == (s * p) * z) by (nonlinear_arith);
    } else {
        let e = (-y.exponent) as nat;
        let j = (y.exponent + 2000) as nat;
        lemma_pow2_adds(e, j);
        lemma_pow2_pos(e);
        let p = pow2(e) as int;
        let q = pow2(j) as int;
        lemma_nearest_error(s, pow2(e));
        lemma_scaled_distance(s as int, n * p, q, p);
        assert((n * p) * q == n * (p * q)) by (nonlinear_arith);
    }
    assert(""@ + decimal(n) =~= decimal(n));
    assert(whole_percent(x) == decimal(n) + "%"@);
}

proof fn lemma_great_size(size: u64, unit: nat)
    requires
        size >= SIGNIFICAND_LIMIT,
        unit <= 5,
    ensures
        limited(divided(whole(size as nat), unit)),
        whole(size as nat).significand > 0,
        steps(divided(whole(size as nat), unit)) * pow2(10 * unit) == steps(whole(size as nat)),
        unit < 5 ==> !less(divided(whole(size as nat), unit), whole(1024)),
{
    let x = whole(size as nat);
    law_integer_is_nearest(size);
    let y = divided(x, unit);
    let j = (y.exponent + 2000) as nat;
    lemma_pow2_adds(j, 10 * unit);
    let s = x.significand as int;
    let p = pow2(j) as int;
    let q = pow2(10 * unit) as int;
    assert((s * p) * q == s * (p * q)) by (nonlinear_arith);
    if unit < 5 {
        let least = (SIGNIFICAND_LIMIT - 1) as u64;
        lemma_integers_in_order(least, size);
        law_integer_is_nearest(least);
        law_less_compares_values(x, whole(least as nat));
        lemma_thousand();
        lemma_steps_of_integer(1024);
        law_less_compares_values(y, whole(1024));
        lemma2_to64();
        lemma_pow2_pos(10 * unit);
        lemma_pow2_pos(2000);
        lemma_pow2_adds(20, 20);
        if unit < 4 {
            lemma_pow2_strictly_increases(10 * unit, 40);
        }
        let z = pow2(2000) as int;
        let a = steps(y) as int;
        assert(a >= 1024 * z) by (nonlinear_arith)
            requires
                a * q >= 0x1f_ffff_ffff_ffff * z,
                0 < q <= 0x100_0000_0000,
                z > 0,
        ;
    }
}

proof fn lemma_last_unit_is_reached(size: u64, from: nat)
    requires
        size >= SIGNIFICAND_LIMIT,
        from <= 5,
    ensures
        in_unit_from(divided(whole(size as nat), from), from) == (
            divided(whole(size as nat), 5),
            5nat,
        ),
    decreases 5 - from,
{
    lemma_great_size(size, from);
    law_integer_is_nearest(size);
    if from < 5 {
        lemma_thousand();
        law_dividing_by_a_power_of_two(divided(whole(size as nat), from), whole(1024));
        lemma_last_unit_is_reached(size, from + 1);
    }
}

/// A size that does not fit in a significand is shown in the greatest unit, with the number
/// of tenths that is nearest to the number for the size.
pub proof fn law_great_sizes_are_shown_to_a_tenth(size: u64)
    requires
        size >= SIGNIFICAND_LIMIT,
    ensures
        exists|t: nat|
            #![trigger tenths_text(t)]
            size_text(size) == tenths_text(t) + " "@ + unit_name(LAST_UNIT as nat) && 2 * distance(
                (10 * steps(whole(size as nat))) as int,
                (t * pow2(2050)) as int,
            ) <= pow2(2050),
{
    let x = whole(size as nat);
    lemma_great_size(size, 5);
    lemma_last_unit_is_reached(size, 0);
    assert(divided(x, 0) == x);
    let value = divided(x, 5);
    lemma_tenths(value);
    let t = tenths(value);
    lemma_pow2_adds(2000, 50);
    lemma_pow2_pos(50);
    let z = pow2(2000) as int;
    let q = pow2(50) as int;
    let a = steps(value) as int;
    lemma_scaled_distance(10 * a, t * z, q, z);
    assert((10 * a) * q == 10 * (a * q)) by (nonlinear_arith);
    assert((t * z) * q == t * (z * q)) by (nonlinear_arith);
    assert(size_text(size) == tenths_text(t) + " "@ + unit_name(5));
}

} // verus!
