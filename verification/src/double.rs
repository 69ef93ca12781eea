//! Binary floating-point arithmetic on integers: sums, differences, products and
//! quotients with a 53-bit significand, rounded to nearest with ties to even.

use vstd::prelude::*;
use vstd::arithmetic::power2::{pow2, lemma_pow2_adds, lemma_pow2_pos, lemma_pow2_unfold, lemma_pow2_strictly_increases, lemma2_to64};
use vstd::arithmetic::div_mod::{lemma_div_denominator, lemma_fundamental_div_mod, lemma_fundamental_div_mod_converse, lemma_mod_bound};

verus! {

/// The least significand of a normalised number, two to the 52nd.
pub const LEAST_SIGNIFICAND: u64 = 0x10_0000_0000_0000;

/// The first integer above every significand, two to the 53rd.
pub const SIGNIFICAND_LIMIT: u64 = 0x20_0000_0000_0000;

/// The number `(-1)^negative * significand * 2^exponent`.
#[derive(Clone, Copy, Debug, PartialEq, Eq, Structural)]
pub struct Double {
    pub negative: bool,
    pub significand: u64,
    pub exponent: i32,
}

/// The integer nearest to `n / d`, the even one of two that are equally near.
pub open spec fn nearest(n: nat, d: nat) -> nat {
    let q = n / d;
    let r = n % d;
    if 2 * r > d || (2 * r == d && q % 2 == 1) {
        q + 1
    } else {
        q
    }
}

/// `n / d` lies between `2^(52 + k)` and `2^(53 + k)`.
pub open spec fn in_binade(n: nat, d: nat, k: int) -> bool {
    if k >= 0 {
        LEAST_SIGNIFICAND * (d * pow2(k as nat)) <= n < SIGNIFICAND_LIMIT * (d * pow2(k as nat))
    } else {
        LEAST_SIGNIFICAND * d <= n * pow2((-k) as nat) < SIGNIFICAND_LIMIT * d
    }
}

/// The place of the last bit of a 53-bit significand for `n / d`.
pub open spec fn binade(n: nat, d: nat) -> int {
    choose|k: int| in_binade(n, d, k)
}

/// `(n / d) * 2^e`, rounded to a significand and an exponent.
pub open spec fn rounded(n: nat, d: nat, e: int) -> (nat, int) {
    if n == 0 {
        (0, 0)
    } else {
        let k = binade(n, d);
        let m = if k >= 0 {
            nearest(n, d * pow2(k as nat))
        } else {
            nearest(n * pow2((-k) as nat), d)
        };
        if m == SIGNIFICAND_LIMIT {
            (LEAST_SIGNIFICAND as nat, k + 1 + e)
        } else {
            (m, k + e)
        }
    }
}

/// The number that `(n / d) * 2^e` rounds to, with a sign.
pub open spec fn double_of(negative: bool, n: nat, d: nat, e: int) -> Double {
    let (m, x) = rounded(n, d, e);
    Double { negative: negative && m > 0, significand: m as u64, exponent: x as i32 }
}

proof fn lemma_scale(n: nat, d: nat, k: int)
    requires
        d > 0,
    ensures
        in_binade(n, d, k) <==> {
            let a = if k >= 0 { 0nat } else { (-k) as nat };
            let b = if k >= 0 { k as nat } else { 0nat };
            LEAST_SIGNIFICAND * (d * pow2(b)) <= n * pow2(a) < SIGNIFICAND_LIMIT * (d * pow2(b))
        },
{
    lemma2_to64();
    if k >= 0 {
        assert(n * pow2(0) == n);
    } else {
        assert(d * pow2(0) == d);
    }
}

/// No number lies in two binades.
proof fn lemma_binade_order(n: nat, d: nat, k: int, l: int)
    requires
        d > 0,
        in_binade(n, d, k),
        in_binade(n, d, l),
    ensures
        l <= k,
{
    lemma_scale(n, d, k);
    lemma_scale(n, d, l);
    let a = if k >= 0 { 0nat } else { (-k) as nat };
    let b = if k >= 0 { k as nat } else { 0nat };
    let a2 = if l >= 0 { 0nat } else { (-l) as nat };
    let b2 = if l >= 0 { l as nat } else { 0nat };
    let (pa, pb, pa2, pb2) = (pow2(a) as int, pow2(b) as int, pow2(a2) as int, pow2(b2) as int);
    lemma_pow2_pos(a);
    lemma_pow2_pos(b);
    lemma_pow2_pos(a2);
    lemma_pow2_pos(b2);
    let w = LEAST_SIGNIFICAND as int;
    assert(SIGNIFICAND_LIMIT == 2 * w);
    assert(w * (d * pb2) * pa <= n * pa2 * pa) by (nonlinear_arith)
        requires
            w * (d * pb2) <= n * pa2,
            pa > 0,
    ;
    assert(n * pa * pa2 < 2 * w * (d * pb) * pa2) by (nonlinear_arith)
        requires
            n * pa < 2 * w * (d * pb),
            pa2 > 0,
    ;
    assert((w * d) * (pb2 * pa) < (w * d) * (2 * (pb * pa2))) by (nonlinear_arith)
        requires
            w * (d * pb2) * pa <= n * pa2 * pa,
            n * pa * pa2 < 2 * w * (d * pb) * pa2,
    ;
    assert(pb2 * pa < 2 * (pb * pa2)) by (nonlinear_arith)
        requires
            (w * d) * (pb2 * pa) < (w * d) * (2 * (pb * pa2)),
            w * d > 0,
    ;
    lemma_pow2_adds(b2, a);
    lemma_pow2_adds(b, a2);
    lemma_pow2_unfold((b + a2 + 1) as nat);
    assert(pow2((b2 + a) as nat) < pow2((b + a2 + 1) as nat));
    if b2 + a >= b + a2 + 1 {
        if b2 + a > b + a2 + 1 {
            lemma_pow2_strictly_increases((b + a2 + 1) as nat, (b2 + a) as nat);
        }
        assert(false);
    }
}

proof fn lemma_binade(n: nat, d: nat, k: int)
    requires
        d > 0,
        in_binade(n, d, k),
    ensures
        binade(n, d) == k,
{
    let l = binade(n, d);
    assert(in_binade(n, d, l));
    lemma_binade_order(n, d, k, l);
    lemma_binade_order(n, d, l, k);
}

/// What rounding does to a number whose integer part is known to be long enough.
proof fn lemma_nearest_by_low_bits(n: nat, d: nat, s: nat, p: nat, q: nat, low: nat)
    requires
        d > 0,
        p > 0,
        p % 2 == 0,
        s == n / d,
        q == s / p,
        low == s % p,
    ensures
        ({
            let up = 2 * low > p || (2 * low == p && (n % d != 0 || q % 2 == 1));
            nearest(n, d * p) == if up {
                q + 1
            } else {
                q
            }
        }),
{
    let c = n % d;
    lemma_fundamental_div_mod(n as int, d as int);
    lemma_fundamental_div_mod(s as int, p as int);
    lemma_mod_bound(n as int, d as int);
    lemma_mod_bound(s as int, p as int);
    let r = d * low + c;
    assert(d * p > 0) by (nonlinear_arith)
        requires
            d > 0,
            p > 0,
    ;
    assert(n == q * (d * p) + r) by (nonlinear_arith)
        requires
            n == d * s + c,
            s == p * q + low,
            r == d * low + c,
    ;
    assert(0 <= r < d * p) by (nonlinear_arith)
        requires
            r == d * low + c,
            0 <= low < p,
            0 <= c < d,
    ;
    lemma_fundamental_div_mod_converse(n as int, (d * p) as int, q as int, r as int);
    if 2 * low > p {
        assert(2 * r > d * p) by (nonlinear_arith)
            requires
                r == d * low + c,
                2 * low > p,
                c >= 0,
                d > 0,
        ;
    } else if 2 * low < p {
        assert(2 * r < d * p) by (nonlinear_arith)
            requires
                r == d * low + c,
                2 * low <= p - 2,
                0 <= c < d,
        ;
    } else {
        assert(2 * r == d * p + 2 * c) by (nonlinear_arith)
            requires
                r == d * low + c,
                2 * low == p,
        ;
    }
}

/// Rounds the quotient `n / d`, of which the integer part and whether something
/// was left over are given, and scales it by `2^e`.
fn round_quotient(
    negative: bool,
    s: u128,
    inexact: bool,
    e: i32,
    Ghost(n): Ghost<nat>,
    Ghost(d): Ghost<nat>,
) -> (r: Double)
    requires
        d > 0,
        s == n / d,
        inexact == (n % d != 0),
        s >= SIGNIFICAND_LIMIT * 2 || !inexact,
        -100_000 <= e <= 100_000,
    ensures
        r == double_of(negative, n, d, e as int),
        r.wf(),
        s > 0 ==> r.significand > 0,
        s > 0 ==> binade(n, d) + e <= r.exponent <= binade(n, d) + e + 1,
        s > 0 ==> in_binade(n, d, binade(n, d)),
        s > 0 ==> -52 <= binade(n, d) <= 75,
        s >= SIGNIFICAND_LIMIT ==> binade(n, d) >= 1,
        0 < s < SIGNIFICAND_LIMIT ==> binade(n, d) <= 0,
{
    proof {
        lemma_fundamental_div_mod(n as int, d as int);
        lemma_mod_bound(n as int, d as int);
    }
    if s == 0 {
        proof {
            assert(n == 0) by (nonlinear_arith)
                requires
                    n == d * (n / d) + n % d,
                    n / d == 0,
                    n % d == 0,
            ;
        }
        return Double { negative: false, significand: 0, exponent: 0 };
    }
    let mut m: u128 = s;
    let mut k: i32 = 0;
    if s >= SIGNIFICAND_LIMIT as u128 {
        let mut p: u128 = 1;
        proof {
            lemma2_to64();
            assert(s as int / 1 == s);
        }
        while m >= SIGNIFICAND_LIMIT as u128
            invariant
                0 <= k <= 75,
                p == pow2(k as nat),
                p > 0,
                m == s as int / p as int,
                m >= LEAST_SIGNIFICAND,
                k == 0 ==> m >= SIGNIFICAND_LIMIT,
                k == 75 ==> m < SIGNIFICAND_LIMIT,
                p <= 0x800_0000_0000_0000_0000,
            decreases m,
        {
            proof {
                lemma_pow2_unfold((k + 1) as nat);
                lemma_div_denominator(s as int, p as int, 2);
                lemma2_to64();
                if k < 74 {
                    lemma_pow2_up_to_74(k as nat);
                } else {
                    lemma_pow2_up_to_74(74);
                    assert(s as int / 0x400_0000_0000_0000_0000 < 2 * SIGNIFICAND_LIMIT);
                }
            }
            m = m / 2;
            p = p * 2;
            k = k + 1;
        }
        let low: u128 = s % p;
        let ghost q = m as nat;
        let half: u128 = p / 2;
        proof {
            lemma_pow2_unfold(k as nat);
            lemma_nearest_by_low_bits(n, d, s as nat, p as nat, q, low as nat);
            // `n / d` lies in the binade of its integer part.
            lemma_fundamental_div_mod(s as int, p as int);
            lemma_mod_bound(s as int, p as int);
            let w = LEAST_SIGNIFICAND as int;
            assert(w * (d * p) <= n) by (nonlinear_arith)
                requires
                    n == d * s + n % d,
                    s == p * q + low,
                    q >= w,
                    p > 0,
                    d > 0,
                    low >= 0,
                    n % d >= 0,
            ;
            assert(n < 2 * w * (d * p)) by (nonlinear_arith)
                requires
                    n == d * s + n % d,
                    n % d < d,
                    s == p * q + low,
                    low <= p - 1,
                    q <= 2 * w - 1,
                    p > 0,
                    d > 0,
            ;
            lemma_binade(n, d, k as int);
        }
        if low > half || (low == half && (inexact || m % 2 == 1)) {
            m = m + 1;
        }
    } else {
        let ghost mut j: nat = 0;
        proof {
            lemma2_to64();
            assert(s * 1 == s);
        }
        while m < LEAST_SIGNIFICAND as u128
            invariant
                0 < m < SIGNIFICAND_LIMIT,
                j == -k,
                0 <= j <= 52,
                m == s * pow2(j),
                s >= 1,
                j == 52 ==> m >= LEAST_SIGNIFICAND,
            decreases SIGNIFICAND_LIMIT - m,
        {
            proof {
                lemma_pow2_unfold(j + 1);
                lemma2_to64();
                assert(s * (2 * pow2(j)) == 2 * (s * pow2(j))) by (nonlinear_arith);
                if j == 51 {
                    lemma_pow2_is_52();
                }
                assert(s * pow2(j + 1) >= pow2(j + 1)) by (nonlinear_arith)
                    requires
                        s >= 1,
                        pow2(j + 1) >= 0,
                ;
            }
            m = m * 2;
            k = k - 1;
            proof {
                j = j + 1;
            }
        }
        proof {
            let pj = pow2(j);
            assert(n == d * s);
            assert(n * pj == m * d) by (nonlinear_arith)
                requires
                    n == d * s,
                    m == s * pj,
            ;
            lemma_pow2_pos(j);
            let w = LEAST_SIGNIFICAND as int;
            assert(w * d <= m * d < 2 * w * d) by (nonlinear_arith)
                requires
                    w <= m < 2 * w,
                    d > 0,
            ;
            if k == 0 {
                assert(pow2(0) == 1) by {
                    lemma2_to64();
                }
                assert(n * 1 == n);
                assert(d * 1 == d);
            }
            assert(in_binade(n, d, k as int));
            lemma_binade(n, d, k as int);
            lemma_fundamental_div_mod_converse((n * pj) as int, d as int, m as int, 0);
            assert(nearest(n * pj, d) == m);
            if k == 0 {
                assert(n * pj == n);
            }
        }
    }
    if m == SIGNIFICAND_LIMIT as u128 {
        Double { negative, significand: LEAST_SIGNIFICAND, exponent: k + 1 + e }
    } else {
        Double { negative, significand: m as u64, exponent: k + e }
    }
}

proof fn lemma_pow2_is_52()
    ensures
        pow2(52) == LEAST_SIGNIFICAND,
        pow2(53) == SIGNIFICAND_LIMIT,
        pow2(54) == 2 * SIGNIFICAND_LIMIT,
{
    lemma2_to64();
    lemma_pow2_adds(32, 20);
    lemma_pow2_unfold(53);
    lemma_pow2_unfold(54);
}

proof fn lemma_pow2_up_to_74(k: nat)
    requires
        k <= 74,
    ensures
        pow2(k) <= 0x400_0000_0000_0000_0000,
        pow2(74) == 0x400_0000_0000_0000_0000,
{
    lemma2_to64();
    lemma_pow2_adds(64, 10);
    if k < 74 {
        lemma_pow2_strictly_increases(k, 74);
    }
}


proof fn lemma_nearest_scale(x: nat, y: nat, c: nat)
    requires
        y > 0,
        c > 0,
    ensures
        nearest(x * c, y * c) == nearest(x, y),
{
    let q = x / y;
    let r = x % y;
    lemma_fundamental_div_mod(x as int, y as int);
    lemma_mod_bound(x as int, y as int);
    assert(x * c == q * (y * c) + r * c) by (nonlinear_arith)
        requires
            x == y * q + r,
    ;
    assert(0 <= r * c < y * c) by (nonlinear_arith)
        requires
            0 <= r < y,
            c > 0,
    ;
    lemma_fundamental_div_mod_converse((x * c) as int, (y * c) as int, q as int, (r * c) as int);
    assert(2 * (r * c) > y * c <==> 2 * r > y) by (nonlinear_arith)
        requires
            c > 0,
    ;
    assert(2 * (r * c) == y * c <==> 2 * r == y) by (nonlinear_arith)
        requires
            c > 0,
    ;
}

/// The significand of `n / d` read off at place `k`.
spec fn at_place(n: nat, d: nat, k: int) -> nat {
    if k >= 0 {
        nearest(n, d * pow2(k as nat))
    } else {
        nearest(n * pow2((-k) as nat), d)
    }
}

/// Doubling the numerator `j` times moves every binade up by `j`.
proof fn lemma_shift(n: nat, d: nat, k: int, j: nat)
    requires
        d > 0,
        in_binade(n * pow2(j), d, k + j),
    ensures
        in_binade(n, d, k),
        at_place(n * pow2(j), d, k + j) == at_place(n, d, k),
{
    let w = LEAST_SIGNIFICAND as int;
    let pj = pow2(j);
    lemma_pow2_pos(j);
    if k >= 0 {
        let pk = pow2(k as nat);
        lemma_pow2_pos(k as nat);
        lemma_pow2_adds(k as nat, j);
        let y = d * pk;
        assert(d * pow2((k + j) as nat) == y * pj) by (nonlinear_arith)
            requires
                y == d * pk,
                pow2((k + j) as nat) == pk * pj,
        ;
        assert(y > 0) by (nonlinear_arith)
            requires
                y == d * pk,
                d > 0,
                pk > 0,
        ;
        assert(w * y <= n < 2 * w * y) by (nonlinear_arith)
            requires
                w * (y * pj) <= n * pj < 2 * w * (y * pj),
                pj > 0,
        ;
        lemma_nearest_scale(n, y, pj);
    } else if k + j >= 0 {
        let a = (-k) as nat;
        let b = (k + j) as nat;
        let pa = pow2(a);
        let pb = pow2(b);
        lemma_pow2_pos(a);
        lemma_pow2_pos(b);
        lemma_pow2_adds(a, b);
        assert(pj == pa * pb);
        assert(n * pj == (n * pa) * pb) by (nonlinear_arith)
            requires
                pj == pa * pb,
        ;
        assert(w * d <= n * pa < 2 * w * d) by (nonlinear_arith)
            requires
                w * (d * pb) <= (n * pa) * pb < 2 * w * (d * pb),
                pb > 0,
        ;
        lemma_nearest_scale(n * pa, d, pb);
    } else {
        let a = (-(k + j)) as nat;
        let pa = pow2(a);
        lemma_pow2_adds(j, a);
        assert((n * pj) * pa == n * pow2((-k) as nat)) by (nonlinear_arith)
            requires
                pow2((-k) as nat) == pj * pa,
        ;
    }
}

/// Rounding does not depend on how the fraction is written.
proof fn lemma_rounded_shift(n: nat, d: nat, e: int, j: nat)
    requires
        d > 0,
        n > 0,
        in_binade(n * pow2(j), d, binade(n * pow2(j), d)),
    ensures
        rounded(n * pow2(j), d, e - j) == rounded(n, d, e),
        binade(n, d) == binade(n * pow2(j), d) - j,
{
    let k = binade(n * pow2(j), d) - j;
    lemma_shift(n, d, k, j);
    lemma_binade(n, d, k);
    lemma_pow2_pos(j);
    assert(n * pow2(j) > 0) by (nonlinear_arith)
        requires
            n > 0,
            pow2(j) > 0,
    ;
}

/// A number far smaller than the last bit of another leaves it unchanged.
proof fn lemma_negligible(h: nat, l: nat, g: nat, e: int)
    requires
        LEAST_SIGNIFICAND <= h < SIGNIFICAND_LIMIT,
        l < SIGNIFICAND_LIMIT,
        g >= 54,
    ensures
        rounded(h * pow2(g) + l, 1, e) == (h, g + e),
        g >= 55 ==> h * pow2(g) > l && rounded((h * pow2(g) - l) as nat, 1, e) == (h, g + e),
{
    let p = pow2(g);
    let w = LEAST_SIGNIFICAND as int;
    lemma_pow2_is_52();
    if g > 54 {
        lemma_pow2_strictly_increases(54, g);
    }
    lemma_pow2_unfold(g);
    assert(p >= 4 * w);
    // the sum
    let n = h * p + l;
    assert(w * p <= n < 2 * w * p) by (nonlinear_arith)
        requires
            n == h * p + l,
            w <= h <= 2 * w - 1,
            0 <= l < p,
    ;
    assert(1 * p == p);
    assert(in_binade(n, 1, g as int));
    lemma_binade(n, 1, g as int);
    lemma_fundamental_div_mod_converse(n as int, p as int, h as int, l as int);
    assert(nearest(n, 1 * p) == h);
    // the difference
    if g >= 55 {
        let o = pow2((g - 1) as nat);
        assert(p == 2 * o);
        if g > 55 {
            lemma_pow2_strictly_increases(55, g);
        }
        lemma_pow2_unfold(55);
        assert(p >= 8 * w);
        assert(h * p >= p) by (nonlinear_arith)
            requires
                h >= 1,
                p >= 0,
        ;
        let n = (h * p - l) as nat;
        if l == 0 {
        } else if h > w {
            assert(w * p <= n < 2 * w * p) by (nonlinear_arith)
                requires
                    n == h * p - l,
                    w + 1 <= h <= 2 * w - 1,
                    0 < l < p,
            ;
            assert(in_binade(n, 1, g as int));
            lemma_binade(n, 1, g as int);
            assert(n == (h - 1) * p + (p - l)) by (nonlinear_arith)
                requires
                    n == h * p - l,
            ;
            lemma_fundamental_div_mod_converse(n as int, p as int, h - 1, p - l);
            assert(nearest(n, 1 * p) == h);
        } else {
            assert(n == (2 * w - 1) * o + (o - l)) by (nonlinear_arith)
                requires
                    n == h * p - l,
                    h == w,
                    p == 2 * o,
            ;
            assert(1 * o == o);
            assert(w * o <= n < 2 * w * o) by (nonlinear_arith)
                requires
                    n == (2 * w - 1) * o + (o - l),
                    0 < l < o,
                    w >= 2,
            ;
            assert(in_binade(n, 1, g - 1));
            lemma_binade(n, 1, g - 1);
            lemma_fundamental_div_mod_converse(n as int, o as int, 2 * w - 1, o - l);
            assert(nearest(n, 1 * o) == 2 * w);
        }
    }
}

/// The exact sum of two numbers, as an integer at the place of the smaller exponent.
pub open spec fn exact_sum(a: Double, b: Double) -> int {
    let m = if a.exponent <= b.exponent { a.exponent as int } else { b.exponent as int };
    let x = a.significand * pow2((a.exponent - m) as nat);
    let y = b.significand * pow2((b.exponent - m) as nat);
    (if a.negative { -x } else { x }) + (if b.negative { -y } else { y })
}

/// The rounded sum.
pub open spec fn sum_of(a: Double, b: Double) -> Double {
    let m = if a.exponent <= b.exponent { a.exponent as int } else { b.exponent as int };
    let t = exact_sum(a, b);
    double_of(t < 0, if t < 0 { (-t) as nat } else { t as nat }, 1, m)
}

/// The same number with the other sign.
pub open spec fn negation(a: Double) -> Double {
    Double { negative: !a.negative && a.significand > 0, ..a }
}

/// The rounded product.
pub open spec fn product_of(a: Double, b: Double) -> Double {
    double_of(
        a.negative != b.negative,
        (a.significand * b.significand) as nat,
        1,
        a.exponent + b.exponent,
    )
}

/// The rounded quotient.
pub open spec fn quotient_of(a: Double, b: Double) -> Double {
    double_of(
        a.negative != b.negative,
        a.significand as nat,
        b.significand as nat,
        a.exponent - b.exponent,
    )
}

/// The absolute value of `a` is less than that of `b`.
pub open spec fn magnitude_less(a: Double, b: Double) -> bool {
    ||| a.significand == 0 && b.significand > 0
    ||| a.significand > 0 && b.significand > 0 && (a.exponent < b.exponent || (a.exponent
        == b.exponent && a.significand < b.significand))
}

/// `a` is less than `b`.
pub open spec fn less(a: Double, b: Double) -> bool {
    if a.negative != b.negative {
        a.negative
    } else if a.negative {
        magnitude_less(b, a)
    } else {
        magnitude_less(a, b)
    }
}

/// The exponent leaves room for any arithmetic below.
pub open spec fn moderate(a: Double) -> bool {
    -10_000 <= a.exponent <= 10_000
}

impl Double {
    /// Zero is written in one way, and any other number with a full significand.
    pub open spec fn wf(self) -> bool {
        if self.significand == 0 {
            !self.negative && self.exponent == 0
        } else {
            LEAST_SIGNIFICAND <= self.significand < SIGNIFICAND_LIMIT
        }
    }

    /// Zero.
    pub fn zero() -> (r: Double)
        ensures
            r == (Double { negative: false, significand: 0, exponent: 0 }),
            r.wf(),
    {
        Double { negative: false, significand: 0, exponent: 0 }
    }

    /// One.
    pub fn one() -> (r: Double)
        ensures
            r == (Double { negative: false, significand: LEAST_SIGNIFICAND, exponent: -52i32 }),
            r.wf(),
    {
        Double { negative: false, significand: LEAST_SIGNIFICAND, exponent: -52 }
    }

    /// The number nearest to an integer.
    pub fn from_u64(x: u64) -> (r: Double)
        ensures
            r == double_of(false, x as nat, 1, 0),
            r.wf(),
            x > 0 <==> r.significand > 0,
            -52 <= r.exponent <= 12,
            !r.negative,
    {
        let r = round_quotient(false, x as u128, false, 0, Ghost(x as nat), Ghost(1));
        proof {
            if x > 0 {
                let k = binade(x as nat, 1);
                if k >= 12 {
                    lemma_pow2_is_52();
                    lemma2_to64();
                    assert(pow2(12) == 4096);
                    if k > 12 {
                        lemma_pow2_strictly_increases(12, k as nat);
                    }
                    assert(1 * pow2(k as nat) == pow2(k as nat));
                }
            }
        }
        r
    }

    /// The product.
    pub fn times(self, other: Double) -> (r: Double)
        requires
            self.wf(),
            other.wf(),
            moderate(self),
            moderate(other),
        ensures
            r == product_of(self, other),
            r.wf(),
            self.significand > 0 && other.significand > 0 ==> self.exponent + other.exponent + 52
                <= r.exponent <= self.exponent + other.exponent + 54 && r.significand > 0,
            self.significand == 0 || other.significand == 0 ==> r.significand == 0,
    {
        proof {
            assert(self.significand * other.significand <= (SIGNIFICAND_LIMIT - 1) * (
            SIGNIFICAND_LIMIT - 1)) by (nonlinear_arith)
                requires
                    0 <= self.significand <= SIGNIFICAND_LIMIT - 1,
                    0 <= other.significand <= SIGNIFICAND_LIMIT - 1,
            ;
        }
        let s: u128 = self.significand as u128 * other.significand as u128;
        let ghost n = (self.significand * other.significand) as nat;
        let r = round_quotient(
            self.negative != other.negative,
            s,
            false,
            self.exponent + other.exponent,
            Ghost(n),
            Ghost(1),
        );
        proof {
            if self.significand == 0 || other.significand == 0 {
                assert(n == 0) by (nonlinear_arith)
                    requires
                        n == self.significand * other.significand,
                        self.significand == 0 || other.significand == 0,
                ;
            }
            if self.significand > 0 && other.significand > 0 {
                let w = LEAST_SIGNIFICAND as int;
                assert(n >= w * w) by (nonlinear_arith)
                    requires
                        n == self.significand * other.significand,
                        self.significand >= w,
                        other.significand >= w,
                        w > 0,
                ;
                let k = binade(n, 1);
                lemma_pow2_is_52();
                assert(1 * pow2(k as nat) == pow2(k as nat));
                if k < 52 {
                    lemma_pow2_strictly_increases(k as nat, 52);
                    lemma_pow2_unfold(52);
                    if k < 51 {
                        lemma_pow2_strictly_increases(k as nat, 51);
                    }
                }
                if k > 53 {
                    lemma_pow2_strictly_increases(53, k as nat);
                    lemma_pow2_unfold(54);
                    if k > 54 {
                        lemma_pow2_strictly_increases(54, k as nat);
                    }
                }
            }
        }
        r
    }

    /// The quotient.
    pub fn divided_by(self, other: Double) -> (r: Double)
        requires
            self.wf(),
            other.wf(),
            moderate(self),
            moderate(other),
            other.significand > 0,
        ensures
            r == quotient_of(self, other),
            r.wf(),
            self.significand > 0 ==> self.exponent - other.exponent - 53 <= r.exponent
                <= self.exponent - other.exponent - 51 && r.significand > 0,
            self.significand == 0 ==> r.significand == 0,
            self.negative == other.negative ==> !r.negative,
    {
        let scaled: u128 = self.significand as u128 * 0x80_0000_0000_0000;
        let d: u128 = other.significand as u128;
        let ghost n = (self.significand * 0x80_0000_0000_0000) as nat;
        proof {
            if self.significand > 0 {
                lemma_fundamental_div_mod(n as int, d as int);
                lemma_mod_bound(n as int, d as int);
                assert(n / (d as nat) >= SIGNIFICAND_LIMIT * 2) by (nonlinear_arith)
                    requires
                        n == d as nat * (n / (d as nat)) + n % (d as nat),
                        n % (d as nat) < d,
                        n >= LEAST_SIGNIFICAND * 0x80_0000_0000_0000,
                        0 < d < SIGNIFICAND_LIMIT,
                ;
            } else {
                assert(n == 0);
                lemma_fundamental_div_mod_converse(0, d as int, 0, 0);
            }
        }
        let q: u128 = scaled / d;
        let r: u128 = scaled % d;
        let out = round_quotient(
            self.negative != other.negative,
            q,
            r != 0,
            self.exponent - other.exponent - 55,
            Ghost(n),
            Ghost(d as nat),
        );
        proof {
            lemma_pow2_is_52();
            lemma_pow2_unfold(55);
            if self.significand > 0 {
                assert(n == self.significand as nat * pow2(55));
                lemma_rounded_shift(
                    self.significand as nat,
                    d as nat,
                    self.exponent - other.exponent,
                    55,
                );
                let k = binade(n, d as nat);
                lemma_pow2_is_52();
                let w = LEAST_SIGNIFICAND as int;
                if k > 3 {
                    let pk = pow2(k as nat);
                    lemma2_to64();
                    assert(pow2(4) == 16);
                    if k > 4 {
                        lemma_pow2_strictly_increases(4, k as nat);
                    }
                    assert(w * (d * pk) >= w * (w * 16)) by (nonlinear_arith)
                        requires
                            d >= w,
                            pk >= 16,
                            w > 0,
                    ;
                }
                if k < 2 {
                    let pk = pow2(k as nat);
                    lemma2_to64();
                    assert(k == 1);
                    assert(2 * w * (d * 2) <= 2 * w * ((2 * w - 1) * 2)) by (nonlinear_arith)
                        requires
                            d <= 2 * w - 1,
                            w > 0,
                    ;
                }
            }
        }
        out
    }

    /// The sum.
    pub fn plus(self, other: Double) -> (r: Double)
        requires
            self.wf(),
            other.wf(),
            moderate(self),
            moderate(other),
        ensures
            r == sum_of(self, other),
            r.wf(),
            r.significand > 0 ==> r.exponent <= self.exponent + 2 || r.exponent <= other.exponent
                + 2,
            r.significand > 0 ==> r.exponent >= self.exponent - 52 || r.exponent >= other.exponent
                - 52,
            !self.negative && !other.negative ==> !r.negative,
            !self.negative && !other.negative && self.significand > 0 ==> r.significand > 0
                && r.exponent >= self.exponent,
            !self.negative && !other.negative && other.significand > 0 ==> r.significand > 0
                && r.exponent >= other.exponent,
            !self.negative && !other.negative && self.significand > 0 && self.exponent
                >= other.exponent + 54 ==> r == self,
    {
        if self.exponent >= other.exponent {
            add_ordered(self, other)
        } else {
            proof {
                assert(exact_sum(self, other) == exact_sum(other, self));
            }
            add_ordered(other, self)
        }
    }

    /// The same number with the other sign.
    pub fn negated(self) -> (r: Double)
        requires
            self.wf(),
        ensures
            r == negation(self),
            r.wf(),
    {
        Double { negative: !self.negative && self.significand > 0, ..self }
    }

    /// The difference.
    pub fn minus(self, other: Double) -> (r: Double)
        requires
            self.wf(),
            other.wf(),
            moderate(self),
            moderate(other),
        ensures
            r == sum_of(self, negation(other)),
            r.wf(),
            r.significand > 0 ==> r.exponent <= self.exponent + 2 || r.exponent <= other.exponent
                + 2,
            r.significand > 0 ==> r.exponent >= self.exponent - 52 || r.exponent >= other.exponent
                - 52,
    {
        self.plus(other.negated())
    }

    /// Whether this number is the smaller one.
    pub fn less_than(self, other: Double) -> (r: bool)
        ensures
            r == less(self, other),
    {
        if self.negative != other.negative {
            self.negative
        } else if self.negative {
            other.magnitude_less_than(self)
        } else {
            self.magnitude_less_than(other)
        }
    }

    /// Whether this number is the smaller one, signs aside.
    pub fn magnitude_less_than(self, other: Double) -> (r: bool)
        ensures
            r == magnitude_less(self, other),
    {
        (self.significand == 0 && other.significand > 0) || (self.significand > 0
            && other.significand > 0 && (self.exponent < other.exponent || (self.exponent
            == other.exponent && self.significand < other.significand)))
    }
}

/// The sum of two numbers of which the first has the greater exponent.
fn add_ordered(hi: Double, lo: Double) -> (r: Double)
    requires
        hi.wf(),
        lo.wf(),
        moderate(hi),
        moderate(lo),
        hi.exponent >= lo.exponent,
    ensures
        r == sum_of(hi, lo),
        r.wf(),
        r.significand > 0 ==> r.exponent <= hi.exponent + 2,
        r.significand > 0 ==> r.exponent >= lo.exponent - 52,
        !hi.negative && !lo.negative ==> !r.negative,
        !hi.negative && !lo.negative && hi.significand > 0 ==> r.significand > 0 && r.exponent
            >= hi.exponent,
        !hi.negative && !lo.negative && lo.significand > 0 ==> r.significand > 0 && r.exponent
            >= lo.exponent,
        !hi.negative && !lo.negative && hi.significand > 0 && hi.exponent >= lo.exponent + 54
            ==> r == hi,
{
    let gap: i32 = hi.exponent - lo.exponent;
    let ghost g = gap as nat;
    let ghost m = lo.exponent as int;
    let ghost t = exact_sum(hi, lo);
    proof {
        lemma2_to64();
        assert(lo.significand * pow2(0) == lo.significand);
        assert(pow2((lo.exponent - m) as nat) == 1);
    }
    if gap >= 55 || (gap >= 54 && hi.negative == lo.negative) {
        if hi.significand == 0 {
            proof {
                assert(hi.significand * pow2(g) == 0) by (nonlinear_arith)
                    requires
                        hi.significand == 0,
                ;
                lemma_self_rounding(lo);
            }
            return lo;
        }
        proof {
            lemma_negligible(hi.significand as nat, lo.significand as nat, g, m);
        }
        return hi;
    }
    let mut s: u128 = hi.significand as u128;
    let mut i: i32 = 0;
    proof {
        assert(hi.significand * 1 == hi.significand);
    }
    while i < gap
        invariant
            0 <= i <= gap <= 54,
            s == hi.significand * pow2(i as nat),
            hi.significand < SIGNIFICAND_LIMIT,
            s <= 0x80_0000_0000_0000 * SIGNIFICAND_LIMIT,
        decreases gap - i,
    {
        proof {
            lemma_pow2_unfold((i + 1) as nat);
            lemma_pow2_is_52();
            if i + 1 < 54 {
                lemma_pow2_strictly_increases((i + 1) as nat, 54);
            }
            assert(hi.significand * (2 * pow2(i as nat)) == 2 * (hi.significand * pow2(i as nat)))
                by (nonlinear_arith);
            assert(hi.significand * pow2((i + 1) as nat) <= SIGNIFICAND_LIMIT * 0x40_0000_0000_0000)
                by (nonlinear_arith)
                requires
                    0 <= hi.significand < SIGNIFICAND_LIMIT,
                    0 <= pow2((i + 1) as nat) <= 0x40_0000_0000_0000,
            ;
        }
        s = s * 2;
        i = i + 1;
    }
    let l: u128 = lo.significand as u128;
    let ghost top = s;
    let negative: bool;
    if hi.negative == lo.negative {
        negative = hi.negative;
        s = s + l;
    } else if s >= l {
        negative = hi.negative && s > l;
        s = s - l;
    } else {
        negative = lo.negative;
        s = l - s;
    }
    if s == 0 {
        proof {
            assert(t == 0);
            lemma_pow2_pos(g);
            if hi.significand > 0 {
                assert(hi.significand * pow2(g) > 0) by (nonlinear_arith)
                    requires
                        hi.significand > 0,
                        pow2(g) > 0,
                ;
            }
        }
        return Double { negative: false, significand: 0, exponent: 0 };
    }
    let r = round_quotient(negative, s, false, lo.exponent, Ghost(s as nat), Ghost(1));
    proof {
        assert((t < 0) == negative);
        let k = binade(s as nat, 1);
        let pg = pow2(g);
        lemma_pow2_pos(g);
        if k > g + 1 {
            lemma_pow2_unfold((g + 1) as nat);
            lemma_pow2_unfold((g + 2) as nat);
            if k > g + 2 {
                lemma_pow2_strictly_increases((g + 2) as nat, k as nat);
            }
            assert(1 * pow2(k as nat) == pow2(k as nat));
            let w = LEAST_SIGNIFICAND as int;
            assert(top < 2 * w * pg) by (nonlinear_arith)
                requires
                    top == hi.significand * pg,
                    hi.significand < 2 * w,
                    pg > 0,
            ;
            assert(s < w * (4 * pg)) by (nonlinear_arith)
                requires
                    s <= top + l,
                    top < 2 * w * pg,
                    l < 2 * w,
                    pg > 0,
            ;
            assert(w * pow2(k as nat) >= w * (4 * pg)) by (nonlinear_arith)
                requires
                    pow2(k as nat) >= 4 * pg,
                    w > 0,
            ;
            assert(false);
        }
        if !hi.negative && !lo.negative {
            if hi.significand > 0 {
                assert(LEAST_SIGNIFICAND * pg <= hi.significand * pg) by (nonlinear_arith)
                    requires
                        LEAST_SIGNIFICAND <= hi.significand,
                        pg > 0,
                ;
                lemma_binade_at_least(s as nat, g, k);
            } else if lo.significand > 0 {
                assert(hi.significand * pg == 0) by (nonlinear_arith)
                    requires
                        hi.significand == 0,
                ;
                lemma2_to64();
                lemma_binade_at_least(s as nat, 0, k);
            }
        }
    }
    r
}

/// A number with many bits lies in a high binade.
proof fn lemma_binade_at_least(n: nat, j: nat, k: int)
    requires
        LEAST_SIGNIFICAND * pow2(j) <= n,
        in_binade(n, 1, k),
    ensures
        k >= j,
{
    let w = LEAST_SIGNIFICAND as int;
    lemma_pow2_pos(j);
    if k < 0 {
        let p = pow2((-k) as nat) as int;
        lemma2_to64();
        if -k > 1 {
            lemma_pow2_strictly_increases(1, (-k) as nat);
        }
        assert(p >= 2);
        assert(n >= w) by (nonlinear_arith)
            requires
                n >= w * pow2(j),
                pow2(j) >= 1,
                w > 0,
        ;
        assert(n * p >= 2 * w) by (nonlinear_arith)
            requires
                n >= w,
                p >= 2,
                w > 0,
        ;
    } else if k < j {
        lemma_pow2_unfold((k + 1) as nat);
        if k + 1 < j {
            lemma_pow2_strictly_increases((k + 1) as nat, j);
        }
        let p = pow2(k as nat) as int;
        assert(1 * p == p);
        assert(w * pow2(j) >= (2 * w) * p) by (nonlinear_arith)
            requires
                pow2(j) >= 2 * p,
                w > 0,
        ;
    }
}

/// A normalised number rounds to itself.
proof fn lemma_self_rounding(a: Double)
    requires
        a.wf(),
    ensures
        rounded(a.significand as nat, 1, a.exponent as int) == (
            a.significand as nat,
            a.exponent as int,
        ),
{
    if a.significand > 0 {
        let n = a.significand as nat;
        lemma2_to64();
        assert(1 * pow2(0) == 1);
        assert(in_binade(n, 1, 0));
        lemma_binade(n, 1, 0);
        assert(nearest(n, 1) == n);
    }
}

/// An integer that fits in a significand is represented exactly.
pub proof fn lemma_exact_integer(n: nat, k: nat)
    requires
        LEAST_SIGNIFICAND <= n * pow2(k) < SIGNIFICAND_LIMIT,
        k <= 100_000,
    ensures
        double_of(false, n, 1, 0) == (Double {
            negative: false,
            significand: (n * pow2(k)) as u64,
            exponent: (-k) as i32,
        }),
{
    lemma2_to64();
    let m = n * pow2(k);
    assert(nearest(m, 1) == m);
    if k == 0 {
        assert(n * 1 == n);
        assert(1nat * pow2(0) == 1);
        assert(in_binade(n, 1, 0));
        lemma_binade(n, 1, 0);
    } else {
        assert(in_binade(n, 1, -(k as int)));
        lemma_binade(n, 1, -(k as int));
    }
    if n == 0 {
        assert(0 * pow2(k) == 0);
    }
}

/// The integer one.
pub proof fn lemma_whole_one()
    ensures
        double_of(false, 1, 1, 0) == (Double {
            negative: false,
            significand: LEAST_SIGNIFICAND,
            exponent: -52i32,
        }),
{
    lemma_pow2_is_52();
    assert(1 * pow2(52) == LEAST_SIGNIFICAND);
    lemma_exact_integer(1, 52);
}

/// Every integer that is not too great fills a significand when it is doubled often
/// enough.
pub proof fn lemma_normal_form(n: nat) -> (k: nat)
    requires
        0 < n < SIGNIFICAND_LIMIT,
    ensures
        k <= 52,
        LEAST_SIGNIFICAND <= n * pow2(k) < SIGNIFICAND_LIMIT,
{
    lemma2_to64();
    lemma_pow2_adds(26, 26);
    assert(pow2(52) == LEAST_SIGNIFICAND);
    assert(n * pow2(52) >= LEAST_SIGNIFICAND) by (nonlinear_arith)
        requires
            n >= 1,
            pow2(52) == LEAST_SIGNIFICAND,
    ;
    lemma_normal_from(n, 52)
}

proof fn lemma_normal_from(n: nat, k: nat) -> (r: nat)
    requires
        0 < n < SIGNIFICAND_LIMIT,
        k <= 52,
        LEAST_SIGNIFICAND <= n * pow2(k),
    ensures
        r <= 52,
        LEAST_SIGNIFICAND <= n * pow2(r) < SIGNIFICAND_LIMIT,
    decreases k,
{
    if n * pow2(k) < SIGNIFICAND_LIMIT {
        k
    } else {
        lemma2_to64();
        if k == 0 {
            assert(n * pow2(0) == n) by (nonlinear_arith)
                requires
                    pow2(0) == 1,
            ;
        }
        lemma_pow2_unfold(k);
        let p = pow2((k - 1) as nat);
        assert(n * (2 * p) == 2 * (n * p)) by (nonlinear_arith);
        lemma_normal_from(n, (k - 1) as nat)
    }
}

/// An integer less than the limit and one make the next integer.
pub proof fn lemma_successor(n: nat)
    requires
        0 < n < SIGNIFICAND_LIMIT,
    ensures
        sum_of(
            double_of(false, (n - 1) as nat, 1, 0),
            Double { negative: false, significand: LEAST_SIGNIFICAND, exponent: -52i32 },
        ) == double_of(false, n, 1, 0),
{
    let one = Double { negative: false, significand: LEAST_SIGNIFICAND, exponent: -52i32 };
    let before = double_of(false, (n - 1) as nat, 1, 0);
    lemma2_to64();
    lemma_pow2_adds(26, 26);
    let w = LEAST_SIGNIFICAND as nat;
    assert(pow2(52) == w);
    if n == 1 {
        assert(before == (Double { negative: false, significand: 0, exponent: 0 }));
        assert(0 * pow2(52) == 0);
        assert(w * pow2(0) == w) by (nonlinear_arith)
            requires
                pow2(0) == 1,
        ;
        assert(exact_sum(before, one) == w);
        lemma_self_rounding(one);
        assert(1 * pow2(52) == w);
        lemma_exact_integer(1, 52);
    } else {
        let k = lemma_normal_form((n - 1) as nat);
        lemma_exact_integer((n - 1) as nat, k);
        let s = (n - 1) * pow2(k);
        lemma_pow2_adds(k, (52 - k) as nat);
        let p = pow2(k) as int;
        let q = pow2((52 - k) as nat) as int;
        assert(p * q == w);
        assert((n - 1) * p * q == (n - 1) * (p * q)) by (nonlinear_arith);
        assert(before.exponent == -k);
        assert(before.significand * pow2((before.exponent + 52) as nat) == (n - 1) * w);
        assert(w * pow2(0) == w) by (nonlinear_arith)
            requires
                pow2(0) == 1,
        ;
        assert(exact_sum(before, one) == (n - 1) * w + w);
        assert((n - 1) * w + w == n * w) by (nonlinear_arith);
        lemma_rounds_shifted(n);
    }
}

proof fn lemma_rounds_shifted(n: nat)
    requires
        0 < n < SIGNIFICAND_LIMIT,
    ensures
        rounded(n * LEAST_SIGNIFICAND as nat, 1, -52) == rounded(n, 1, 0),
{
    lemma2_to64();
    lemma_pow2_adds(26, 26);
    let w = LEAST_SIGNIFICAND as nat;
    assert(pow2(52) == w);
    let k = lemma_normal_form(n);
    let top = n * w;
    let j = (52 - k) as nat;
    lemma_pow2_adds(k, j);
    let p = pow2(k) as int;
    let q = pow2(j) as int;
    lemma_pow2_pos(j);
    assert(n * (p * q) == (n * p) * q) by (nonlinear_arith);
    assert(top == (n * p) * q);
    assert(1 * pow2(j) == pow2(j));
    assert(LEAST_SIGNIFICAND * q <= (n * p) * q && (n * p) * q < SIGNIFICAND_LIMIT * q)
        by (nonlinear_arith)
        requires
            LEAST_SIGNIFICAND <= n * p,
            n * p < SIGNIFICAND_LIMIT,
            q > 0,
    ;
    assert(in_binade(top, 1, j as int));
    lemma_binade(top, 1, j as int);
    lemma_rounded_shift(n, 1, 0, 52);
}

/// A number that is not zero, divided by itself, gives one.
pub proof fn lemma_ratio_of_equals(a: Double)
    requires
        a.wf(),
        a.significand > 0,
    ensures
        quotient_of(a, a) == (Double {
            negative: false,
            significand: LEAST_SIGNIFICAND,
            exponent: -52i32,
        }),
{
    let s = a.significand as nat;
    lemma2_to64();
    lemma_pow2_adds(26, 26);
    let w = LEAST_SIGNIFICAND as nat;
    assert(pow2(52) == w);
    assert(s * w == w * s) by (nonlinear_arith);
    assert(w * s < SIGNIFICAND_LIMIT * s) by (nonlinear_arith)
        requires
            w < SIGNIFICAND_LIMIT,
            s > 0,
    ;
    assert(in_binade(s, s, -52));
    lemma_binade(s, s, -52);
    assert((s * w) / s == w && (s * w) % s == 0) by {
        lemma_fundamental_div_mod_converse((s * w) as int, s as int, w as int, 0);
    }
    assert(nearest(s * pow2(52), s) == w);
}

proof fn lemma_nearest_monotone(a: nat, b: nat, d: nat)
    requires
        a <= b,
        d > 0,
    ensures
        nearest(a, d) <= nearest(b, d),
{
    lemma_fundamental_div_mod(a as int, d as int);
    lemma_fundamental_div_mod(b as int, d as int);
    lemma_mod_bound(a as int, d as int);
    lemma_mod_bound(b as int, d as int);
    let p = (a / d) as int;
    let q = (b / d) as int;
    if p > q {
        assert(d * p >= d * q + d) by (nonlinear_arith)
            requires
                p >= q + 1,
                d > 0,
        ;
    }
    if p == q {
        assert(a % d <= b % d);
    }
}

proof fn lemma_binades_in_order(a: nat, b: nat, j: int, k: int)
    requires
        a <= b,
        in_binade(a, 1, j),
        in_binade(b, 1, k),
    ensures
        j <= k,
{
    if k < j {
        let w = LEAST_SIGNIFICAND as int;
        if j >= 0 {
            lemma_pow2_pos(j as nat);
            assert(1 * pow2(j as nat) == pow2(j as nat));
            lemma_binade_at_least(b, j as nat, k);
        } else {
            let p = pow2((-j) as nat) as int;
            let q = pow2((-k) as nat) as int;
            lemma_pow2_pos((-j) as nat);
            lemma_pow2_unfold((-j + 1) as nat);
            if -j + 1 < -k {
                lemma_pow2_strictly_increases((-j + 1) as nat, (-k) as nat);
            }
            assert(q >= 2 * p);
            assert(b * q >= 2 * w) by (nonlinear_arith)
                requires
                    b >= a,
                    q >= 2 * p,
                    a * p >= w,
                    p > 0,
                    a >= 0,
            ;
        }
    }
}

/// Every number that is not too great lies in a binade.
proof fn lemma_has_binade(n: nat) -> (k: int)
    requires
        0 < n < pow2(5000),
    ensures
        in_binade(n, 1, k),
        -52 <= k < 5000,
        binade(n, 1) == k,
{
    lemma2_to64();
    if n < SIGNIFICAND_LIMIT {
        let j = lemma_normal_form(n);
        if j == 0 {
            assert(n * pow2(0) == n) by (nonlinear_arith)
                requires
                    pow2(0) == 1,
            ;
            assert(1nat * pow2(0) == 1);
            assert(in_binade(n, 1, 0));
        } else {
            assert(in_binade(n, 1, -(j as int)));
        }
        lemma_binade(n, 1, -(j as int));
        -(j as int)
    } else {
        let k = lemma_high_binade(n, 1);
        lemma_binade(n, 1, k);
        if k >= 5000 {
            if k > 5000 {
                lemma_pow2_strictly_increases(5000, k as nat);
            }
            assert(1 * pow2(k as nat) == pow2(k as nat));
            assert(LEAST_SIGNIFICAND * pow2(k as nat) >= pow2(k as nat)) by (nonlinear_arith);
        }
        k
    }
}

proof fn lemma_high_binade(n: nat, k: nat) -> (r: int)
    requires
        1 <= k,
        LEAST_SIGNIFICAND * pow2(k) <= n,
    ensures
        in_binade(n, 1, r),
        1 <= r,
    decreases n - pow2(k),
{
    assert(1 * pow2(k) == pow2(k));
    if n < SIGNIFICAND_LIMIT * pow2(k) {
        k as int
    } else {
        lemma_pow2_pos(k);
        lemma_pow2_unfold(k + 1);
        lemma_high_binade(n, k + 1)
    }
}

/// Rounding gives a normalised number.
proof fn lemma_rounding_is_normal(n: nat, e: int)
    requires
        n < pow2(5000),
        -3000 <= e <= 3000,
    ensures
        double_of(false, n, 1, e).wf(),
        moderate(double_of(false, n, 1, e)),
        !double_of(false, n, 1, e).negative,
        n > 0 <==> double_of(false, n, 1, e).significand > 0,
{
    if n > 0 {
        let k = lemma_has_binade(n);
        lemma_significand_range(n, k);
    }
}

/// Rounding keeps the order.
proof fn lemma_rounding_in_order(a: nat, b: nat, e: int)
    requires
        a <= b < pow2(5000),
        -3000 <= e <= 3000,
    ensures
        !less(double_of(false, b, 1, e), double_of(false, a, 1, e)),
{
    if a > 0 {
        let j = lemma_has_binade(a);
        let k = lemma_has_binade(b);
        lemma_binades_in_order(a, b, j, k);
        lemma_significand_range(a, j);
        lemma_significand_range(b, k);
        if j == k {
            lemma_pow2_pos((if j >= 0 { j } else { -j }) as nat);
            if k >= 0 {
                lemma_nearest_monotone(a, b, 1 * pow2(k as nat));
            } else {
                let p = pow2((-k) as nat);
                assert(a * p <= b * p) by (nonlinear_arith)
                    requires
                        a <= b,
                        p > 0,
                ;
                lemma_nearest_monotone(a * p, b * p, 1);
            }
        }
    }
}

proof fn lemma_word_is_small(n: u64)
    ensures
        n < pow2(5000),
{
    lemma2_to64();
    lemma_pow2_strictly_increases(64, 5000);
}

/// Rounding keeps the order of integers.
pub proof fn lemma_integers_in_order(a: u64, b: u64)
    requires
        a <= b,
    ensures
        !less(double_of(false, b as nat, 1, 0), double_of(false, a as nat, 1, 0)),
{
    lemma_word_is_small(b);
    lemma_rounding_in_order(a as nat, b as nat, 0);
}

proof fn lemma_significand_range(n: nat, k: int)
    requires
        in_binade(n, 1, k),
    ensures
        LEAST_SIGNIFICAND <= at_place(n, 1, k) <= SIGNIFICAND_LIMIT,
{
    if k >= 0 {
        let d = 1 * pow2(k as nat);
        lemma_pow2_pos(k as nat);
        lemma_nearest_between(n, d, LEAST_SIGNIFICAND as nat, SIGNIFICAND_LIMIT as nat);
    } else {
        lemma_nearest_between(
            n * pow2((-k) as nat),
            1,
            LEAST_SIGNIFICAND as nat,
            SIGNIFICAND_LIMIT as nat,
        );
    }
}

proof fn lemma_nearest_between(n: nat, d: nat, low: nat, high: nat)
    requires
        d > 0,
        low * d <= n < high * d,
    ensures
        low <= nearest(n, d) <= high,
{
    lemma_fundamental_div_mod(n as int, d as int);
    lemma_mod_bound(n as int, d as int);
    let q = (n / d) as int;
    assert(q >= low) by (nonlinear_arith)
        requires
            n == d * q + n % d,
            n % d < d,
            n >= low * d,
            d > 0,
    ;
    assert(q < high) by (nonlinear_arith)
        requires
            n == d * q + n % d,
            n % d >= 0,
            n < high * d,
            d > 0,
    ;
}

/// A number divided by one that is not smaller gives one at most.
pub proof fn lemma_ratio_at_most_one(a: Double, b: Double)
    requires
        a.wf(),
        b.wf(),
        moderate(a),
        moderate(b),
        b.significand > 0,
        !a.negative,
        !b.negative,
        !less(b, a),
    ensures
        ({
            let one = Double { negative: false, significand: LEAST_SIGNIFICAND, exponent: -52i32 };
            !less(one, quotient_of(a, b)) && !quotient_of(a, b).negative
        }),
{
    lemma_ratios_in_order(a, b, b);
    lemma_ratio_of_equals(b);
}

/// The number nearest to an integer is normalised.
pub proof fn lemma_whole_is_normal(n: u64)
    ensures
        double_of(false, n as nat, 1, 0).wf(),
        moderate(double_of(false, n as nat, 1, 0)),
        !double_of(false, n as nat, 1, 0).negative,
        n > 0 <==> double_of(false, n as nat, 1, 0).significand > 0,
{
    lemma_word_is_small(n);
    lemma_rounding_is_normal(n as nat, 0);
}

/// A number that is not negative, counted in the smallest steps that a share has.
pub open spec fn steps(x: Double) -> nat {
    (x.significand * pow2((x.exponent + 2000) as nat)) as nat
}

/// A number that is not negative, with a limited exponent.
pub open spec fn limited(x: Double) -> bool {
    x.wf() && !x.negative && -2000 <= x.exponent <= 100
}

proof fn lemma_steps_are_few(x: Double)
    requires
        limited(x),
    ensures
        2 * steps(x) < pow2(5000),
{
    let j = (x.exponent + 2000) as nat;
    let p = pow2(j) as int;
    lemma_pow2_is_52();
    lemma_pow2_pos(j);
    lemma_pow2_adds(j, 54);
    lemma_pow2_unfold(54);
    if j + 54 < 5000 {
        lemma_pow2_strictly_increases(j + 54, 5000);
    }
    assert(2 * (x.significand * p) < p * pow2(54)) by (nonlinear_arith)
        requires
            x.significand < SIGNIFICAND_LIMIT,
            pow2(54) == 2 * SIGNIFICAND_LIMIT,
            p > 0,
    ;
}

/// Less is fewer steps.
pub proof fn lemma_steps_in_order(a: Double, b: Double)
    requires
        limited(a),
        limited(b),
        !less(b, a),
    ensures
        steps(a) <= steps(b),
{
    let j = (a.exponent + 2000) as nat;
    let k = (b.exponent + 2000) as nat;
    let p = pow2(j) as int;
    let q = pow2(k) as int;
    lemma_pow2_pos(j);
    lemma_pow2_pos(k);
    if a.significand == 0 {
        assert(0 * p == 0);
    } else if a.exponent == b.exponent {
        assert(a.significand * p <= b.significand * p) by (nonlinear_arith)
            requires
                a.significand <= b.significand,
                p > 0,
        ;
    } else {
        lemma_pow2_unfold(j + 1);
        if j + 1 < k {
            lemma_pow2_strictly_increases(j + 1, k);
        }
        assert(a.significand * p <= b.significand * q) by (nonlinear_arith)
            requires
                a.significand < 2 * LEAST_SIGNIFICAND,
                b.significand >= LEAST_SIGNIFICAND,
                q >= 2 * p,
                p > 0,
        ;
    }
}

/// The rounded sum of two numbers is that of their steps.
proof fn lemma_sum_of_steps(a: Double, b: Double)
    requires
        limited(a),
        limited(b),
    ensures
        sum_of(a, b) == double_of(false, steps(a) + steps(b), 1, -2000),
        steps(a) + steps(b) < pow2(5000),
{
    lemma_steps_are_few(a);
    lemma_steps_are_few(b);
    let m = if a.exponent <= b.exponent { a.exponent as int } else { b.exponent as int };
    let x = a.significand * pow2((a.exponent - m) as nat);
    let y = b.significand * pow2((b.exponent - m) as nat);
    let j = (m + 2000) as nat;
    let p = pow2(j) as int;
    lemma_pow2_pos(j);
    lemma_pow2_pos((a.exponent - m) as nat);
    lemma_pow2_pos((b.exponent - m) as nat);
    lemma_pow2_adds((a.exponent - m) as nat, j);
    lemma_pow2_adds((b.exponent - m) as nat, j);
    let u = pow2((a.exponent - m) as nat) as int;
    let v = pow2((b.exponent - m) as nat) as int;
    assert(a.significand * (u * p) == (a.significand * u) * p) by (nonlinear_arith);
    assert(b.significand * (v * p) == (b.significand * v) * p) by (nonlinear_arith);
    assert(steps(a) == x * p);
    assert(steps(b) == y * p);
    assert(x >= 0 && y >= 0) by (nonlinear_arith)
        requires
            x == a.significand * u,
            y == b.significand * v,
            u > 0,
            v > 0,
    ;
    let t = (x + y) as nat;
    assert(exact_sum(a, b) == t);
    assert(t * p == x * p + y * p) by (nonlinear_arith)
        requires
            t == x + y,
    ;
    if t > 0 {
        assert(t * p > 0) by (nonlinear_arith)
            requires
                t > 0,
                p > 0,
        ;
        let k = lemma_has_binade((t * p) as nat);
        lemma_rounded_shift(t, 1, m, j);
    } else {
        assert(0 * p == 0);
    }
}

/// Sums of numbers keep the order of the sums of their steps.
pub proof fn lemma_sums_in_order(a: Double, b: Double, c: Double, d: Double)
    requires
        limited(a),
        limited(b),
        limited(c),
        limited(d),
        steps(a) + steps(b) <= steps(c) + steps(d),
    ensures
        !less(sum_of(c, d), sum_of(a, b)),
{
    lemma_sum_of_steps(a, b);
    lemma_sum_of_steps(c, d);
    lemma_rounding_in_order(steps(a) + steps(b), steps(c) + steps(d), -2000);
}

/// The sum of two numbers that are not negative is a number that is not negative.
pub proof fn lemma_sum_is_normal(a: Double, b: Double)
    requires
        limited(a),
        limited(b),
    ensures
        sum_of(a, b).wf(),
        moderate(sum_of(a, b)),
        !sum_of(a, b).negative,
{
    lemma_sum_of_steps(a, b);
    lemma_rounding_is_normal(steps(a) + steps(b), -2000);
}

/// How many steps an integer has.
pub proof fn lemma_steps_of_integer(n: nat)
    requires
        n < SIGNIFICAND_LIMIT,
    ensures
        limited(double_of(false, n, 1, 0)),
        steps(double_of(false, n, 1, 0)) == n * pow2(2000),
{
    if n == 0 {
        assert(0 * pow2(2000) == 0);
    } else {
        let k = lemma_normal_form(n);
        lemma_exact_integer(n, k);
        lemma_pow2_adds(k, (2000 - k) as nat);
        let p = pow2(k) as int;
        let q = pow2((2000 - k) as nat) as int;
        assert((n * p) * q == n * (p * q)) by (nonlinear_arith);
    }
}

/// Where the quotient of two significands lies.
proof fn lemma_ratio_place(n: nat, d: nat)
    requires
        LEAST_SIGNIFICAND <= n < SIGNIFICAND_LIMIT,
        LEAST_SIGNIFICAND <= d < SIGNIFICAND_LIMIT,
    ensures
        binade(n, d) == if n >= d { -52 } else { -53int },
        LEAST_SIGNIFICAND <= at_place(n, d, binade(n, d)) <= SIGNIFICAND_LIMIT,
        pow2(52) == LEAST_SIGNIFICAND,
        pow2(53) == SIGNIFICAND_LIMIT,
{
    lemma_pow2_is_52();
    let w = LEAST_SIGNIFICAND as nat;
    let p = pow2(52);
    let q = pow2(53);
    if n >= d {
        assert(w * d <= n * p && n * p < 2 * (w * d)) by (nonlinear_arith)
            requires
                p == w,
                n >= d,
                n < 2 * w,
                d >= w,
        ;
        assert(in_binade(n, d, -52));
        lemma_binade(n, d, -52);
        lemma_nearest_between(n * p, d, w, 2 * w);
    } else {
        assert(w * d <= n * q && n * q < 2 * (w * d)) by (nonlinear_arith)
            requires
                q == 2 * w,
                w <= n,
                n < d,
                d < 2 * w,
        ;
        assert(in_binade(n, d, -53));
        lemma_binade(n, d, -53);
        lemma_nearest_between(n * q, d, w, 2 * w);
    }
}

/// Dividing by the same number keeps the order.
pub proof fn lemma_ratios_in_order(a: Double, b: Double, c: Double)
    requires
        a.wf(),
        b.wf(),
        c.wf(),
        moderate(a),
        moderate(b),
        moderate(c),
        !a.negative,
        !b.negative,
        !c.negative,
        c.significand > 0,
        !less(b, a),
    ensures
        !less(quotient_of(b, c), quotient_of(a, c)),
        !quotient_of(a, c).negative,
{
    let m = a.significand as nat;
    let n = b.significand as nat;
    let d = c.significand as nat;
    if m > 0 {
        lemma_ratio_place(m, d);
        lemma_ratio_place(n, d);
        let j = binade(m, d);
        let k = binade(n, d);
        let p = pow2(52);
        let q = pow2(53);
        if j == k && a.exponent == b.exponent {
            if j == -52 {
                assert(m * p <= n * p) by (nonlinear_arith)
                    requires
                        m <= n,
                ;
                lemma_nearest_monotone(m * p, n * p, d);
            } else {
                assert(m * q <= n * q) by (nonlinear_arith)
                    requires
                        m <= n,
                ;
                lemma_nearest_monotone(m * q, n * q, d);
            }
        } else if j + a.exponent == k + b.exponent {
            assert(m * p <= n * q) by (nonlinear_arith)
                requires
                    q == 2 * p,
                    m < 2 * LEAST_SIGNIFICAND,
                    n >= LEAST_SIGNIFICAND,
            ;
            lemma_nearest_monotone(m * p, n * q, d);
        }
    }
}

/// The absolute difference of two integers.
pub open spec fn distance(a: int, b: int) -> int {
    if a < b {
        b - a
    } else {
        a - b
    }
}

/// No number with as many bits is nearer to `n / d`: the distance is at most half of the
/// last bit of the significand.
pub open spec fn is_nearest(x: Double, n: nat, d: nat) -> bool {
    let bit = pow2((3000 + x.exponent) as nat) * d;
    2 * distance((n * pow2(3000)) as int, (x.significand * bit) as int) <= bit
}

pub proof fn lemma_nearest_error(n: nat, d: nat)
    requires
        d > 0,
    ensures
        2 * distance(n as int, (nearest(n, d) * d) as int) <= d,
{
    lemma_fundamental_div_mod(n as int, d as int);
    lemma_mod_bound(n as int, d as int);
    let q = (n / d) as int;
    let r = (n % d) as int;
    assert(d * q == q * d) by (nonlinear_arith);
    assert((q + 1) * d == q * d + d) by (nonlinear_arith);
}

pub proof fn lemma_scaled_distance(a: int, b: int, c: int, bound: int)
    requires
        2 * distance(a, b) <= bound,
        c >= 0,
    ensures
        2 * distance(a * c, b * c) <= bound * c,
{
    assert(a * c - b * c == (a - b) * c) by (nonlinear_arith);
    assert(b * c - a * c == (b - a) * c) by (nonlinear_arith);
    let e = distance(a, b);
    assert(2 * (e * c) <= bound * c) by (nonlinear_arith)
        requires
            2 * e <= bound,
            c >= 0,
    ;
    if a < b {
        assert((b - a) * c >= 0) by (nonlinear_arith)
            requires
                b - a >= 0,
                c >= 0,
        ;
    } else {
        assert((a - b) * c >= 0) by (nonlinear_arith)
            requires
                a - b >= 0,
                c >= 0,
        ;
    }
}

/// A quotient is the number nearest to the exact one.
pub proof fn law_quotient_is_nearest(a: Double, b: Double)
    requires
        limited(a),
        limited(b),
        a.significand > 0,
        b.significand > 0,
        -900 <= a.exponent - b.exponent <= 900,
    ensures
        is_nearest(quotient_of(a, b), steps(a), steps(b)),
        quotient_of(a, b).wf(),
        quotient_of(a, b).significand > 0,
        !quotient_of(a, b).negative,
        a.exponent - b.exponent - 53 <= quotient_of(a, b).exponent <= a.exponent - b.exponent - 51,
{
    let n = a.significand as nat;
    let d = b.significand as nat;
    let e = a.exponent - b.exponent;
    lemma_ratio_place(n, d);
    let k = binade(n, d);
    let top = n * pow2((-k) as nat);
    let m = nearest(top, d);
    lemma_nearest_error(top, d);
    let x = quotient_of(a, b);
    let place = (3000 + k + e) as nat;
    let low = (b.exponent + 2000) as nat;
    let p = pow2(place) as int;
    let q = pow2(low) as int;
    lemma_pow2_pos(place);
    lemma_pow2_pos(low);
    lemma_pow2_adds(place, low);
    lemma_pow2_adds((-k) as nat, place + low);
    lemma_pow2_adds((a.exponent + 2000) as nat, 3000);
    let c = p * q;
    assert(c >= 0) by (nonlinear_arith)
        requires
            c == p * q,
            p > 0,
            q > 0,
    ;
    lemma_scaled_distance(top as int, (m * d) as int, c, d as int);
    let r = pow2((-k) as nat) as int;
    let s = pow2((a.exponent + 2000) as nat) as int;
    let t = pow2(3000) as int;
    assert(r * c == s * t);
    assert((n * r) * c == n * (r * c)) by (nonlinear_arith);
    assert((n * s) * t == n * (s * t)) by (nonlinear_arith);
    assert(top * c == steps(a) * pow2(3000));
    assert(d * c == p * (d * q)) by (nonlinear_arith)
        requires
            c == p * q,
    ;
    assert((m * d) * c == m * (d * c)) by (nonlinear_arith);
    let bit = p * (d * q);
    assert(2 * distance((steps(a) * pow2(3000)) as int, m * bit) <= bit);
    if m == SIGNIFICAND_LIMIT {
        lemma_pow2_unfold(place + 1);
        assert(LEAST_SIGNIFICAND * ((2 * p) * (d * q)) == (2 * LEAST_SIGNIFICAND) * (p * (d * q)))
            by (nonlinear_arith);
        assert((2 * p) * (d * q) == 2 * (p * (d * q))) by (nonlinear_arith);
        assert(bit >= 0);
    }
}

/// A number counted in the smallest steps that a share has, with its sign.
pub open spec fn signed_steps(x: Double) -> int {
    if x.negative {
        -(steps(x) as int)
    } else {
        steps(x) as int
    }
}

proof fn lemma_rounded_steps(t: nat, x: Double)
    requires
        0 < t < pow2(4000),
        x.significand == rounded(t, 1, -2000).0,
        x.exponent == rounded(t, 1, -2000).1,
        x.exponent >= -2000,
    ensures
        2 * distance(t as int, steps(x) as int) <= pow2((x.exponent + 2000) as nat),
{
    lemma_pow2_strictly_increases(4000, 5000);
    let k = lemma_has_binade(t);
    lemma_significand_range(t, k);
    if k >= 0 {
        let d = 1 * pow2(k as nat);
        lemma_pow2_pos(k as nat);
        lemma_nearest_error(t, d);
        let m = nearest(t, d);
        lemma_pow2_unfold((k + 1) as nat);
        if m == SIGNIFICAND_LIMIT {
            assert(LEAST_SIGNIFICAND * (2 * d) == (2 * LEAST_SIGNIFICAND) * d) by (nonlinear_arith);
        }
    } else {
        let up = pow2((-k) as nat);
        lemma2_to64();
        let m = nearest(t * up, 1);
        assert(m == t * up);
        if m == SIGNIFICAND_LIMIT {
            assert(k + 1 == 0);
            assert(t * 2 == SIGNIFICAND_LIMIT);
        }
    }
}

/// The difference of two numbers that are not negative is the number nearest to the exact
/// one: the distance is at most half of the last bit of the significand.
pub proof fn law_difference_is_nearest(a: Double, b: Double)
    requires
        limited(a),
        limited(b),
        a.exponent >= -1900,
        b.exponent >= -1900,
    ensures
        ({
            let x = sum_of(a, negation(b));
            &&& x.wf()
            &&& x.exponent >= -2000
            &&& a == b ==> x.significand == 0
            &&& x.significand > 0 ==> 2 * distance(signed_steps(x), steps(a) - steps(b)) <= pow2(
                (x.exponent + 2000) as nat,
            )
            &&& x.significand == 0 <==> steps(a) == steps(b)
            &&& x.significand == 0 ==> x == (Double {
                negative: false,
                significand: 0,
                exponent: 0,
            })
            &&& x.negative <==> steps(a) < steps(b)
        }),
{
    let x = sum_of(a, negation(b));
    let other = negation(b);
    lemma_steps_are_few(a);
    lemma_steps_are_few(b);
    let m = if a.exponent <= b.exponent { a.exponent as int } else { b.exponent as int };
    let j = (m + 2000) as nat;
    let p = pow2(j) as int;
    let u = pow2((a.exponent - m) as nat) as int;
    let v = pow2((b.exponent - m) as nat) as int;
    lemma_pow2_pos(j);
    lemma_pow2_adds((a.exponent - m) as nat, j);
    lemma_pow2_adds((b.exponent - m) as nat, j);
    assert(a.significand * (u * p) == (a.significand * u) * p) by (nonlinear_arith);
    assert(b.significand * (v * p) == (b.significand * v) * p) by (nonlinear_arith);
    let t = a.significand * u - b.significand * v;
    assert(exact_sum(a, other) == t) by {
        if b.significand == 0 {
            assert(0 * v == 0);
        }
    }
    assert(t * p == steps(a) - steps(b)) by (nonlinear_arith)
        requires
            t == a.significand * u - b.significand * v,
            steps(a) == (a.significand * u) * p,
            steps(b) == (b.significand * v) * p,
    ;
    let n = if t < 0 { (-t) as nat } else { t as nat };
    assert((-t) * p == -(t * p)) by (nonlinear_arith);
    let scaled = (n * p) as nat;
    if t == 0 {
        assert(0 * p == 0);
    } else {
        assert(n * p > 0) by (nonlinear_arith)
            requires
                n > 0,
                p > 0,
        ;
        assert(t > 0 ==> t * p > 0) by (nonlinear_arith)
            requires
                p > 0,
        ;
        lemma_few_steps(a);
        lemma_few_steps(b);
        lemma_pow2_strictly_increases(4000, 5000);
        let k = lemma_has_binade(scaled);
        lemma_rounded_shift(n, 1, m, j);
        lemma_significand_range(scaled, k);
        assert(rounded(scaled, 1, m - j) == rounded(n, 1, m));
        lemma_at_least_a_step(scaled, a, b, k);
        lemma_rounded_steps(scaled, x);
    }
}

proof fn lemma_few_steps(x: Double)
    requires
        limited(x),
    ensures
        steps(x) < pow2(4000),
{
    let j = (x.exponent + 2000) as nat;
    let p = pow2(j) as int;
    lemma_pow2_is_52();
    lemma_pow2_pos(j);
    lemma_pow2_adds(j, 53);
    if j + 53 < 4000 {
        lemma_pow2_strictly_increases(j + 53, 4000);
    }
    assert(x.significand * p < p * pow2(53)) by (nonlinear_arith)
        requires
            x.significand < SIGNIFICAND_LIMIT,
            pow2(53) == SIGNIFICAND_LIMIT,
            p > 0,
    ;
}

/// A difference that is not zero is at least the last bit of one of the two.
proof fn lemma_at_least_a_step(scaled: nat, a: Double, b: Double, k: int)
    requires
        limited(a),
        limited(b),
        a.exponent >= -1900,
        b.exponent >= -1900,
        scaled > 0,
        in_binade(scaled, 1, k),
        scaled == steps(a) - steps(b) || scaled == steps(b) - steps(a),
    ensures
        k >= 0,
{
    let q = pow2(100) as int;
    lemma_pow2_pos(100);
    lemma_multiple(a);
    lemma_multiple(b);
    let u = (steps(a) / pow2(100)) as int;
    let v = (steps(b) / pow2(100)) as int;
    let w = if scaled == steps(a) - steps(b) { u - v } else { v - u };
    assert(scaled == w * q) by (nonlinear_arith)
        requires
            steps(a) == u * q,
            steps(b) == v * q,
            scaled == steps(a) - steps(b) && w == u - v || scaled == steps(b) - steps(a) && w == v
                - u,
    ;
    assert(w >= 1) by (nonlinear_arith)
        requires
            scaled == w * q,
            scaled > 0,
            q > 0,
    ;
    assert(scaled >= q) by (nonlinear_arith)
        requires
            scaled == w * q,
            w >= 1,
            q > 0,
    ;
    lemma_pow2_is_52();
    lemma_pow2_strictly_increases(53, 100);
    if k < 0 {
        lemma_pow2_pos((-k) as nat);
        let r = pow2((-k) as nat) as int;
        assert(scaled * r >= scaled) by (nonlinear_arith)
            requires
                r >= 1,
                scaled >= 0,
        ;
    }
}

proof fn lemma_multiple(x: Double)
    requires
        limited(x),
        x.exponent >= -1900,
    ensures
        steps(x) == (steps(x) / pow2(100)) * pow2(100),
{
    let j = (x.exponent + 1900) as nat;
    lemma_pow2_adds(j, 100);
    lemma_pow2_pos(100);
    let p = pow2(j) as int;
    let q = pow2(100) as int;
    assert(x.significand * (p * q) == (x.significand * p) * q) by (nonlinear_arith);
    lemma_fundamental_div_mod_converse(steps(x) as int, q, x.significand * p, 0);
}

pub proof fn lemma_unscaled_distance(a: int, b: int, c: int, bound: int)
    requires
        2 * distance(a * c, b * c) <= bound * c,
        c > 0,
    ensures
        2 * distance(a, b) <= bound,
{
    let e = distance(a, b);
    assert(distance(a * c, b * c) == e * c) by {
        assert(a * c - b * c == (a - b) * c) by (nonlinear_arith);
        assert(b * c - a * c == (b - a) * c) by (nonlinear_arith);
        if a < b {
            assert((b - a) * c > 0) by (nonlinear_arith)
                requires
                    b - a > 0,
                    c > 0,
            ;
        } else {
            assert((a - b) * c >= 0) by (nonlinear_arith)
                requires
                    a - b >= 0,
                    c > 0,
            ;
        }
    }
    assert(2 * e <= bound) by (nonlinear_arith)
        requires
            2 * (e * c) <= bound * c,
            c > 0,
    ;
}

/// What is nearest to a fraction is nearest to it however the fraction is written.
pub proof fn law_nearest_to_a_fraction(x: Double, n: nat, d: nat, c: nat)
    requires
        c > 0,
    ensures
        is_nearest(x, n * c, d * c) == is_nearest(x, n, d),
{
    let p = pow2((3000 + x.exponent) as nat) as int;
    let t = pow2(3000) as int;
    let m = x.significand as int;
    let bit = p * d;
    assert(p * (d * c) == bit * c) by (nonlinear_arith)
        requires
            bit == p * d,
    ;
    assert((n * c) * t == (n * t) * c) by (nonlinear_arith);
    assert(m * (bit * c) == (m * bit) * c) by (nonlinear_arith);
    if is_nearest(x, n, d) {
        lemma_scaled_distance(n * t, m * bit, c as int, bit);
    }
    if is_nearest(x, n * c, d * c) {
        lemma_unscaled_distance(n * t, m * bit, c as int, bit);
    }
}

/// The number for a size is the one nearest to it, and is the size itself where the size
/// fits in a significand.
pub proof fn law_integer_is_nearest(n: u64)
    ensures
        ({
            let x = double_of(false, n as nat, 1, 0);
            &&& limited(x)
            &&& -52 <= x.exponent <= 12
            &&& n == 0 <==> x.significand == 0
            &&& 2 * distance((n * pow2(2000)) as int, steps(x) as int) <= pow2(
                (x.exponent + 2000) as nat,
            )
            &&& n < SIGNIFICAND_LIMIT ==> steps(x) == n * pow2(2000)
        }),
{
    let x = double_of(false, n as nat, 1, 0);
    lemma_whole_is_normal(n);
    lemma_pow2_is_52();
    lemma2_to64();
    if n < SIGNIFICAND_LIMIT {
        lemma_steps_of_integer(n as nat);
    }
    if n > 0 {
        lemma_pow2_strictly_increases(64, 5000);
        let k = lemma_has_binade(n as nat);
        lemma_significand_range(n as nat, k);
        if k > 11 {
            if k > 12 {
                lemma_pow2_strictly_increases(12, k as nat);
            }
            lemma_pow2_adds(52, 12);
            let r = pow2(k as nat) as int;
            assert(LEAST_SIGNIFICAND * (1 * r) >= LEAST_SIGNIFICAND * 0x1000) by (nonlinear_arith)
                requires
                    r >= 0x1000,
            ;
        }
        let p = pow2(2000) as int;
        lemma_pow2_pos(2000);
        let scaled = (n * p) as nat;
        assert(n * p > 0) by (nonlinear_arith)
            requires
                n > 0,
                p > 0,
        ;
        lemma_pow2_adds(64, 2000);
        lemma_pow2_strictly_increases(2064, 4000);
        assert(n * p < pow2(64) * p) by (nonlinear_arith)
            requires
                n < pow2(64),
                p > 0,
        ;
        lemma_pow2_strictly_increases(4000, 5000);
        let high = lemma_has_binade(scaled);
        assert(in_binade(scaled, 1, binade(scaled, 1)));
        lemma_rounded_shift(n as nat, 1, 0, 2000);
        lemma_rounded_steps(scaled, x);
    }
}

/// Numbers are compared by what they stand for.
pub proof fn law_less_compares_values(a: Double, b: Double)
    requires
        a.wf(),
        b.wf(),
        a.exponent >= -2000,
        b.exponent >= -2000,
    ensures
        less(a, b) <==> signed_steps(a) < signed_steps(b),
        magnitude_less(a, b) <==> steps(a) < steps(b),
{
    let x = Double { negative: false, ..a };
    let y = Double { negative: false, ..b };
    lemma_steps_compare(x, y);
    lemma_steps_compare(y, x);
    lemma_steps_of_zero(a);
    lemma_steps_of_zero(b);
}

proof fn lemma_steps_of_zero(x: Double)
    ensures
        steps(x) == 0 <==> x.significand == 0,
{
    let p = pow2((x.exponent + 2000) as nat) as int;
    lemma_pow2_pos((x.exponent + 2000) as nat);
    assert(x.significand * p == 0 <==> x.significand == 0) by (nonlinear_arith)
        requires
            p > 0,
    ;
}

proof fn lemma_steps_compare(a: Double, b: Double)
    requires
        a.wf(),
        b.wf(),
        !a.negative,
        !b.negative,
        a.exponent >= -2000,
        b.exponent >= -2000,
    ensures
        magnitude_less(a, b) ==> steps(a) < steps(b),
        !magnitude_less(a, b) ==> steps(a) >= steps(b),
{
    lemma_steps_of_zero(a);
    lemma_steps_of_zero(b);
    let j = (a.exponent + 2000) as nat;
    let k = (b.exponent + 2000) as nat;
    let p = pow2(j) as int;
    let q = pow2(k) as int;
    lemma_pow2_pos(j);
    lemma_pow2_pos(k);
    if a.significand > 0 && b.significand > 0 {
        if a.exponent == b.exponent {
            assert(a.significand < b.significand ==> a.significand * p < b.significand * p)
                by (nonlinear_arith)
                requires
                    p > 0,
            ;
            assert(a.significand >= b.significand ==> a.significand * p >= b.significand * p)
                by (nonlinear_arith)
                requires
                    p > 0,
            ;
        } else if a.exponent < b.exponent {
            lemma_pow2_unfold((j + 1) as nat);
            if j + 1 < k {
                lemma_pow2_strictly_increases(j + 1, k);
            }
            assert(a.significand * p < b.significand * q) by (nonlinear_arith)
                requires
                    0 < p,
                    2 * p <= q,
                    a.significand < SIGNIFICAND_LIMIT,
                    b.significand >= LEAST_SIGNIFICAND,
                    SIGNIFICAND_LIMIT == 2 * LEAST_SIGNIFICAND,
            ;
        } else {
            lemma_pow2_unfold((k + 1) as nat);
            if k + 1 < j {
                lemma_pow2_strictly_increases(k + 1, j);
            }
            assert(b.significand * q < a.significand * p) by (nonlinear_arith)
                requires
                    0 < q,
                    2 * q <= p,
                    b.significand < SIGNIFICAND_LIMIT,
                    a.significand >= LEAST_SIGNIFICAND,
                    SIGNIFICAND_LIMIT == 2 * LEAST_SIGNIFICAND,
            ;
        }
    }
}

/// The sum of two numbers that are not negative is the number nearest to the exact one:
/// the distance is at most half of the last bit of the significand.
pub proof fn law_sum_is_nearest(a: Double, b: Double)
    requires
        limited(a),
        limited(b),
        a.exponent >= -1900,
        b.exponent >= -1900,
    ensures
        ({
            let x = sum_of(a, b);
            &&& x.wf()
            &&& !x.negative
            &&& x.exponent >= -2000
            &&& x.significand == 0 <==> steps(a) + steps(b) == 0
            &&& x.significand > 0 ==> 2 * distance(steps(x) as int, (steps(a) + steps(b)) as int) <= pow2(
                (x.exponent + 2000) as nat,
            )
        }),
{
    let x = sum_of(a, b);
    lemma_few_steps_of_one(a);
    lemma_few_steps_of_one(b);
    let m = if a.exponent <= b.exponent { a.exponent as int } else { b.exponent as int };
    let j = (m + 2000) as nat;
    let p = pow2(j) as int;
    let u = pow2((a.exponent - m) as nat) as int;
    let v = pow2((b.exponent - m) as nat) as int;
    lemma_pow2_pos(j);
    lemma_pow2_adds((a.exponent - m) as nat, j);
    lemma_pow2_adds((b.exponent - m) as nat, j);
    lemma_pow2_pos((a.exponent - m) as nat);
    lemma_pow2_pos((b.exponent - m) as nat);
    assert(a.significand * (u * p) == (a.significand * u) * p) by (nonlinear_arith);
    assert(b.significand * (v * p) == (b.significand * v) * p) by (nonlinear_arith);
    let t = a.significand * u + b.significand * v;
    assert(exact_sum(a, b) == t);
    assert(a.significand * u >= 0 && b.significand * v >= 0) by (nonlinear_arith)
        requires
            u > 0,
            v > 0,
    ;
    assert(t * p == steps(a) + steps(b)) by (nonlinear_arith)
        requires
            t == a.significand * u + b.significand * v,
            steps(a) == (a.significand * u) * p,
            steps(b) == (b.significand * v) * p,
    ;
    if t == 0 {
        assert(0 * p == 0);
    } else {
        let n = t as nat;
        let scaled = (n * p) as nat;
        assert(n * p > 0) by (nonlinear_arith)
            requires
                n > 0,
                p > 0,
        ;
        lemma_pow2_unfold(4000);
        lemma_pow2_strictly_increases(4000, 5000);
        let k = lemma_has_binade(scaled);
        lemma_rounded_shift(n, 1, m, j);
        lemma_significand_range(scaled, k);
        assert(rounded(scaled, 1, m - j) == rounded(n, 1, m));
        lemma_sum_of_multiples(scaled, a, b, k);
        lemma_rounded_steps(scaled, x);
    }
}

proof fn lemma_few_steps_of_one(x: Double)
    requires
        limited(x),
    ensures
        steps(x) < pow2(3999),
{
    let j = (x.exponent + 2000) as nat;
    let p = pow2(j) as int;
    lemma_pow2_is_52();
    lemma_pow2_pos(j);
    lemma_pow2_adds(j, 53);
    lemma_pow2_strictly_increases(j + 53, 3999);
    assert(x.significand * p < p * pow2(53)) by (nonlinear_arith)
        requires
            x.significand < SIGNIFICAND_LIMIT,
            pow2(53) == SIGNIFICAND_LIMIT,
            p > 0,
    ;
}

/// A sum that is not zero is at least the last bit of one of the two.
proof fn lemma_sum_of_multiples(scaled: nat, a: Double, b: Double, k: int)
    requires
        limited(a),
        limited(b),
        a.exponent >= -1900,
        b.exponent >= -1900,
        scaled > 0,
        in_binade(scaled, 1, k),
        scaled == steps(a) + steps(b),
    ensures
        k >= 0,
{
    let q = pow2(100) as int;
    lemma_pow2_pos(100);
    lemma_multiple(a);
    lemma_multiple(b);
    let w = (steps(a) / pow2(100)) as int + (steps(b) / pow2(100)) as int;
    assert(scaled == w * q) by (nonlinear_arith)
        requires
            steps(a) == (steps(a) / pow2(100)) * q,
            steps(b) == (steps(b) / pow2(100)) * q,
            scaled == steps(a) + steps(b),
            w == (steps(a) / pow2(100)) as int + (steps(b) / pow2(100)) as int,
    ;
    assert(w >= 1) by (nonlinear_arith)
        requires
            scaled == w * q,
            scaled > 0,
            q > 0,
    ;
    assert(scaled >= q) by (nonlinear_arith)
        requires
            scaled == w * q,
            w >= 1,
            q > 0,
    ;
    lemma_pow2_is_52();
    lemma_pow2_strictly_increases(53, 100);
    if k < 0 {
        lemma_pow2_pos((-k) as nat);
        let r = pow2((-k) as nat) as int;
        assert(scaled * r >= scaled) by (nonlinear_arith)
            requires
                r >= 1,
                scaled >= 0,
        ;
    }
}

/// Adding a number to zero gives the number.
pub proof fn law_adding_to_nothing(x: Double)
    requires
        limited(x),
    ensures
        sum_of(Double { negative: false, significand: 0, exponent: 0 }, x) == x,
{
    let none = Double { negative: false, significand: 0, exponent: 0 };
    lemma_self_rounding(x);
    let n = x.significand as nat;
    assert(pow2(0) == 1) by {
        lemma2_to64();
    }
    if x.exponent > 0 && n > 0 {
        let j = x.exponent as nat;
        let up = n * pow2(j);
        lemma_pow2_pos(j);
        assert(n * pow2(j) > 0) by (nonlinear_arith)
            requires
                n > 0,
                pow2(j) > 0,
        ;
        lemma_pow2_is_52();
        lemma_pow2_adds(53, j);
        lemma_pow2_strictly_increases(53 + j, 5000);
        assert(n * pow2(j) < pow2(53) * pow2(j)) by (nonlinear_arith)
            requires
                n < pow2(53),
                pow2(j) > 0,
        ;
        let k = lemma_has_binade(up);
        lemma_rounded_shift(n, 1, j as int, j);
        assert(exact_sum(none, x) == up) by {
            assert(0 * pow2(0) == 0);
        }
    } else {
        let m = x.exponent as int;
        if m <= 0 {
            assert(exact_sum(none, x) == n) by {
                assert(0 * pow2((0 - m) as nat) == 0);
                assert(n * 1 == n);
            }
        }
    }
}

/// Dividing by a power of two changes the exponent alone.
pub proof fn law_dividing_by_a_power_of_two(a: Double, b: Double)
    requires
        limited(a),
        a.significand > 0,
        !b.negative,
        b.significand == LEAST_SIGNIFICAND,
        -1000 <= b.exponent <= 1000,
    ensures
        quotient_of(a, b) == (Double {
            negative: false,
            significand: a.significand,
            exponent: (a.exponent - b.exponent - 52) as i32,
        }),
{
    let n = a.significand as nat;
    let d = b.significand as nat;
    lemma_pow2_is_52();
    assert(in_binade(n, d, -52)) by {
        assert(pow2(52) == LEAST_SIGNIFICAND);
        assert(LEAST_SIGNIFICAND * d <= n * LEAST_SIGNIFICAND < SIGNIFICAND_LIMIT * d)
            by (nonlinear_arith)
            requires
                d == LEAST_SIGNIFICAND,
                LEAST_SIGNIFICAND <= n < SIGNIFICAND_LIMIT,
        ;
    }
    lemma_binade(n, d, -52);
    let top = n * pow2(52);
    lemma_fundamental_div_mod_converse(top as int, d as int, n as int, 0);
    assert(nearest(top, d) == n);
}

/// The product with an integer that fits in a significand is the number nearest to the
/// exact one: the distance is at most half of the last bit of the significand.
pub proof fn law_multiple_is_nearest(a: Double, n: nat)
    requires
        limited(a),
        a.exponent >= -1900,
        0 < n < SIGNIFICAND_LIMIT,
        a.significand > 0,
    ensures
        ({
            let x = product_of(a, double_of(false, n, 1, 0));
            &&& x.wf()
            &&& !x.negative
            &&& x.significand > 0
            &&& -2000 <= x.exponent <= 300
            &&& 2 * distance(steps(x) as int, (n * steps(a)) as int) <= pow2(
                (x.exponent + 2000) as nat,
            )
        }),
{
    let k = lemma_normal_form(n);
    lemma_exact_integer(n, k);
    let b = double_of(false, n, 1, 0);
    let x = product_of(a, b);
    let s = a.significand as nat;
    let t = s * (n * pow2(k));
    let e = a.exponent - k;
    let j = (e + 2000) as nat;
    let p = pow2(j) as int;
    lemma_pow2_pos(j);
    lemma_pow2_pos(k);
    lemma_pow2_adds(k, j);
    let scaled = n * steps(a);
    let u = pow2(k) as int;
    let v = pow2((a.exponent + 2000) as nat) as int;
    assert(u * p == v);
    assert((s * (n * u)) * p == n * (s * (u * p))) by (nonlinear_arith);
    assert(t * pow2(j) == scaled);
    lemma_few_steps_of_one(a);
    assert(t > 0) by (nonlinear_arith)
        requires
            t == s * (n * u),
            s > 0,
            n > 0,
            u > 0,
    ;
    assert(t * p > 0) by (nonlinear_arith)
        requires
            t > 0,
            p > 0,
    ;
    lemma_small_product(a, n);
    lemma_pow2_strictly_increases(2300, 4000);
    lemma_pow2_strictly_increases(4000, 5000);
    let high = lemma_has_binade(scaled);
    lemma_rounded_shift(t, 1, e, j);
    lemma_significand_range(scaled, high);
    let q = pow2(100) as int;
    lemma_pow2_pos(100);
    lemma_multiple(a);
    let w = (steps(a) / pow2(100)) as int;
    lemma_steps_of_zero(a);
    assert(scaled >= q) by (nonlinear_arith)
        requires
            scaled == n * steps(a),
            steps(a) == w * q,
            steps(a) > 0,
            n >= 1,
            q > 0,
    ;
    lemma_pow2_is_52();
    lemma_pow2_strictly_increases(53, 100);
    if high < 0 {
        lemma_pow2_pos((-high) as nat);
        let r = pow2((-high) as nat) as int;
        assert(scaled * r >= scaled) by (nonlinear_arith)
            requires
                r >= 1,
                scaled >= 0,
        ;
    }
    if high > 2290 {
        lemma_pow2_strictly_increases(2290, high as nat);
        let r = pow2(high as nat) as int;
        assert(LEAST_SIGNIFICAND * (1 * r) >= 1024 * pow2(2290)) by (nonlinear_arith)
            requires
                r >= pow2(2290),
        ;
        lemma_pow2_adds(10, 2290);
        lemma2_to64();
    }
    assert(rounded(scaled, 1, -2000) == rounded(t, 1, e));
    assert((s * b.significand) as nat == t);
    lemma_rounded_steps(scaled, x);
}

proof fn lemma_small_product(a: Double, n: nat)
    requires
        limited(a),
        n < SIGNIFICAND_LIMIT,
    ensures
        n * steps(a) < pow2(2300),
{
    let j = (a.exponent + 2000) as nat;
    let p = pow2(j) as int;
    lemma_pow2_is_52();
    lemma_pow2_pos(j);
    lemma_pow2_adds(53, 53);
    lemma_pow2_adds(106, j);
    lemma_pow2_strictly_increases(106 + j, 2300);
    let l = pow2(53) as int;
    let s = a.significand as int;
    assert(s * p < l * p && s * p >= 0) by (nonlinear_arith)
        requires
            0 <= s < l,
            p > 0,
    ;
    assert(n * (s * p) < l * (l * p)) by (nonlinear_arith)
        requires
            0 <= n < l,
            0 <= s * p < l * p,
            l > 0,
    ;
    assert(l * (l * p) == (l * l) * p) by (nonlinear_arith);
}

/// A quotient is rounded to the integer nearest to it, and to the even one of two that are
/// equally near.
pub proof fn law_nearest_integer(n: nat, d: nat)
    requires
        d > 0,
    ensures
        2 * distance(n as int, (nearest(n, d) * d) as int) <= d,
        2 * distance(n as int, (nearest(n, d) * d) as int) == d ==> nearest(n, d) % 2 == 0,
{
    lemma_fundamental_div_mod(n as int, d as int);
    lemma_mod_bound(n as int, d as int);
    let q = (n / d) as int;
    assert(d * q == q * d) by (nonlinear_arith);
    assert((q + 1) * d == q * d + d) by (nonlinear_arith);
}

} // verus!
