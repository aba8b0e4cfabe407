//! Binary rounding in integer arithmetic.
//!
//! A number here is `m * 2^e` with a significand of a fixed count of bits, which is what the
//! normal numbers of a binary format are. `least` stands for the smallest significand of the
//! format, the power of two with one bit less than the format has: [`SINGLE`] for single
//! precision.

use vstd::arithmetic::power2::{lemma_pow2_adds, lemma_pow2_pos, lemma_pow2_unfold, pow2};
use vstd::prelude::*;

verus! {

/// The smallest significand of a single-precision number.
pub const SINGLE: u64 = 0x80_0000;

/// The number `m * 2^e`.
pub struct Binary {
    pub m: nat,
    pub e: int,
}

/// `2^e` where `e` is not negative, and 1 where it is: `2^e` is `up(e) / up(-e)`.
pub open spec fn up(e: int) -> nat {
    if e >= 0 {
        pow2(e as nat)
    } else {
        1
    }
}

/// The integer nearest to `a / b`, and the even one of two that are equally near.
pub open spec fn half_even(a: nat, b: nat) -> nat {
    let q = a / b;
    let r = a % b;
    if 2 * r < b || (2 * r == b && q % 2 == 0) {
        q
    } else {
        q + 1
    }
}

/// Whether `n / d` lies between `least * 2^e` and twice that.
pub open spec fn in_binade(least: nat, n: nat, d: nat, e: int) -> bool {
    least * (d * up(e)) <= n * up(-e) < 2 * (least * (d * up(e)))
}

/// The exponent at which the integer part of `n / d` has as many bits as `least`.
pub open spec fn binade(least: nat, n: nat, d: nat) -> int {
    choose|e: int| in_binade(least, n, d, e)
}

/// The number of the format that is nearest to `n / d`, and the one with the even significand
/// of two that are equally near.
pub open spec fn rounded(least: nat, n: nat, d: nat) -> Binary {
    let e = binade(least, n, d);
    let m = half_even(n * up(-e), d * up(e));
    if m == 2 * least {
        Binary { m: least, e: e + 1 }
    } else {
        Binary { m, e }
    }
}

/// `x * 2^by`.
pub open spec fn shifted(x: Binary, by: int) -> Binary {
    Binary { m: x.m, e: x.e + by }
}

/// The quotient of two numbers, rounded to the format.
pub open spec fn quotient(least: nat, x: Binary, y: Binary) -> Binary {
    shifted(rounded(least, x.m, y.m), x.e - y.e)
}

proof fn lemma_up_pos(e: int)
    ensures
        up(e) >= 1,
{
    if e >= 0 {
        lemma_pow2_pos(e as nat);
    }
}

/// Raising the exponent by `t` multiplies by `2^t`.
proof fn lemma_up_ratio(e: int, t: nat)
    ensures
        up(e + t) * up(-e) == pow2(t) * (up(e) * up(-e - t)),
{
    if e >= 0 {
        lemma_pow2_adds(e as nat, t);
        assert(up(-e) == 1 && up(-e - t) == 1) by {
            reveal(pow2);
            vstd::arithmetic::power::lemma_pow0(2);
        }
        assert(pow2(e as nat) * pow2(t) == pow2(t) * pow2(e as nat)) by (nonlinear_arith);
        assert((e + t) as nat == (e as nat) + t);
        assert(up(e + t) == pow2(t) * up(e));
    } else if e + t >= 0 {
        lemma_pow2_adds((e + t) as nat, (-e) as nat);
        assert((e + t) as nat + (-e) as nat == t);
        assert(up(-e - t) == 1) by {
            reveal(pow2);
            vstd::arithmetic::power::lemma_pow0(2);
        }
    } else {
        lemma_pow2_adds((-e - t) as nat, t);
        assert((-e - t) as nat + t == (-e) as nat);
        assert(pow2((-e - t) as nat) * pow2(t) == pow2(t) * pow2((-e - t) as nat))
            by (nonlinear_arith);
    }
}

/// No quotient lies in two binades.
proof fn lemma_binade_below(least: nat, n: nat, d: nat, e1: int, e2: int)
    requires
        least > 0,
        d > 0,
        in_binade(least, n, d, e1),
        in_binade(least, n, d, e2),
    ensures
        e2 <= e1,
{
    if e1 < e2 {
        lemma_binade_gap(least, n, d, e1, e2);
    }
}

/// What lies below `2 * least * 2^e1` is no more than half of what `least * 2^e2` asks for.
proof fn lemma_binade_gap(least: nat, n: nat, d: nat, e1: int, e2: int)
    requires
        least > 0,
        d > 0,
        n * up(-e1) < 2 * (least * (d * up(e1))),
        e1 < e2,
    ensures
        n * up(-e2) < least * (d * up(e2)),
{
    let t = (e2 - e1) as nat;
    lemma_up_ratio(e1, t);
    lemma_up_pos(e1);
    lemma_up_pos(-e1);
    lemma_up_pos(e2);
    lemma_up_pos(-e2);
    lemma_pow2_unfold(t);
    if t >= 1 {
        lemma_pow2_pos((t - 1) as nat);
    }
    let a1 = up(e1);
    let b1 = up(-e1);
    let a2 = up(e2);
    let b2 = up(-e2);
    let p = pow2(t);
    assert(p >= 2);
    assert(a2 * b1 == p * (a1 * b2));
    assert(n * b1 * b2 < 2 * (least * (d * a1)) * b2) by (nonlinear_arith)
        requires
            n * b1 < 2 * (least * (d * a1)),
            b2 >= 1,
    ;
    assert(least * (d * a2) * b1 == least * d * (a2 * b1)) by (nonlinear_arith);
    assert(least * d * (p * (a1 * b2)) >= 2 * (least * (d * a1)) * b2) by (nonlinear_arith)
        requires
            p >= 2,
    ;
    assert(n * b1 * b2 == n * b2 * b1) by (nonlinear_arith);
    assert(n * b2 < least * (d * a2)) by (nonlinear_arith)
        requires
            n * b2 * b1 < least * (d * a2) * b1,
            b1 >= 1,
    ;
}

/// The binade of a quotient is the exponent at which it lies in one.
pub proof fn lemma_binade(least: nat, n: nat, d: nat, e: int)
    requires
        least > 0,
        d > 0,
        in_binade(least, n, d, e),
    ensures
        binade(least, n, d) == e,
{
    let c = binade(least, n, d);
    assert(in_binade(least, n, d, c));
    lemma_binade_below(least, n, d, c, e);
    lemma_binade_below(least, n, d, e, c);
}

/// A quotient that is past the binade at `c` lies in a higher one.
pub proof fn lemma_binade_above(least: nat, n: nat, d: nat, e: int, c: int)
    requires
        least > 0,
        d > 0,
        in_binade(least, n, d, e),
        n * up(-c) >= 2 * (least * (d * up(c))),
    ensures
        e > c,
{
    if e < c {
        lemma_binade_gap(least, n, d, e, c);
    }
}

/// A quotient that does not reach the binade at `c` lies in a lower one.
pub proof fn lemma_binade_under(least: nat, n: nat, d: nat, e: int, c: int)
    requires
        least > 0,
        d > 0,
        in_binade(least, n, d, e),
        n * up(-c) < least * (d * up(c)),
    ensures
        e < c,
{
    if e > c {
        lemma_binade_gap(least, n, d, c, e);
    }
}

/// Rounding in one binade stays within it, its upper end included.
proof fn lemma_half_even_range(least: nat, a: nat, b: nat)
    requires
        b > 0,
        least * b <= a < 2 * (least * b),
    ensures
        least <= half_even(a, b) <= 2 * least,
{
    let q = a / b;
    let r = a % b;
    vstd::arithmetic::div_mod::lemma_fundamental_div_mod(a as int, b as int);
    assert(q >= least) by (nonlinear_arith)
        requires
            a == b * q + r,
            r < b,
            least * b <= a,
    ;
    assert(q < 2 * least) by (nonlinear_arith)
        requires
            a == b * q + r,
            r >= 0,
            b > 0,
            a < 2 * (least * b),
    ;
}

/// The number `2^e`.
pub open spec fn scale(e: int) -> real {
    up(e) as real / up(-e) as real
}

/// The number that `x` stands for.
pub open spec fn value(x: Binary) -> real {
    x.m as real * scale(x.e)
}

/// The number `n / d`.
pub open spec fn ratio(n: nat, d: nat) -> real {
    n as real / d as real
}

proof fn lemma_scale_step(e: int)
    ensures
        scale(e) > 0real,
        scale(e + 1) == 2real * scale(e),
{
    lemma_up_pos(e);
    lemma_up_pos(-e);
    lemma_up_pos(e + 1);
    lemma_up_pos(-e - 1);
    lemma_up_ratio(e, 1);
    lemma_pow2_unfold(1);
    vstd::arithmetic::power2::lemma2_to64();
    let a1 = up(e);
    let b1 = up(-e);
    let a2 = up(e + 1);
    let b2 = up(-e - 1);
    assert(a2 * b1 == 2 * (a1 * b2));
    assert(a2 as real * b1 as real == 2real * (a1 as real * b2 as real)) by (nonlinear_arith)
        requires
            a2 * b1 == 2 * (a1 * b2),
    ;
    let (x1, y1, x2, y2) = (a1 as real, b1 as real, a2 as real, b2 as real);
    assert(x1 / y1 > 0real && x2 / y2 == 2real * (x1 / y1)) by (nonlinear_arith)
        requires
            x1 > 0real,
            y1 > 0real,
            y2 > 0real,
            x2 * y1 == 2real * (x1 * y2),
    ;
    assert(-(e + 1) == -e - 1);
}

/// A quotient lies in a binade exactly where it does so as a number.
proof fn lemma_in_binade_value(least: nat, n: nat, d: nat, e: int)
    requires
        d > 0,
    ensures
        in_binade(least, n, d, e) <==> least as real * scale(e) <= ratio(n, d) < 2real * (
        least as real * scale(e)),
{
    lemma_up_pos(e);
    lemma_up_pos(-e);
    let a = up(e);
    let b = up(-e);
    let (l, x, y, u, v) = (least as real, n as real, d as real, a as real, b as real);
    assert((least * (d * a)) as real == l * (y * u)) by (nonlinear_arith)
        requires
            l == least as real,
            y == d as real,
            u == a as real,
    ;
    assert((n * b) as real == x * v) by (nonlinear_arith)
        requires
            x == n as real,
            v == b as real,
    ;
    let s = u / v;
    let q = x / y;
    assert(l * s <= q <==> l * (y * u) <= x * v) by (nonlinear_arith)
        requires
            s == u / v,
            q == x / y,
            v > 0real,
            y > 0real,
    ;
    assert(q < 2real * (l * s) <==> x * v < 2real * (l * (y * u))) by (nonlinear_arith)
        requires
            s == u / v,
            q == x / y,
            v > 0real,
            y > 0real,
    ;
}

/// A quotient below the second binade lies in some binade.
proof fn lemma_binade_of_small(least: nat, n: nat, d: nat) -> (e: int)
    requires
        d > 0,
        0 < n < 2 * (least * d),
    ensures
        in_binade(least, n, d, e),
    decreases 2 * (least * d) - n,
{
    if n >= least * d {
        vstd::arithmetic::power2::lemma2_to64();
        assert(up(0) == 1 && up(-0) == 1);
        assert(d * 1 == d && n * 1 == n);
        0
    } else {
        let e1 = lemma_binade_of_small(least, 2 * n, d);
        lemma_in_binade_value(least, 2 * n, d, e1);
        lemma_in_binade_value(least, n, d, e1 - 1);
        lemma_scale_step(e1 - 1);
        let (x, y, l, s) = (n as real, d as real, least as real, scale(e1 - 1));
        assert(l * (2real * s) == 2real * (l * s)) by (nonlinear_arith);
        assert((2real * x) / y == 2real * (x / y)) by (nonlinear_arith)
            requires
                y > 0real,
        ;
        e1 - 1
    }
}

/// A quotient from the first binade on lies in some binade.
proof fn lemma_binade_of_large(least: nat, n: nat, d: nat) -> (e: int)
    requires
        least > 0,
        d > 0,
        least * d <= n,
    ensures
        in_binade(least, n, d, e),
    decreases n - least * d,
{
    if n < 2 * (least * d) {
        vstd::arithmetic::power2::lemma2_to64();
        assert(up(0) == 1 && up(-0) == 1);
        assert(d * 1 == d && n * 1 == n);
        0
    } else {
        assert(least * (2 * d) == 2 * (least * d)) by (nonlinear_arith);
        assert(least * d > 0) by (nonlinear_arith)
            requires
                least > 0,
                d > 0,
        ;
        let e1 = lemma_binade_of_large(least, n, 2 * d);
        lemma_in_binade_value(least, n, 2 * d, e1);
        lemma_in_binade_value(least, n, d, e1 + 1);
        lemma_scale_step(e1);
        let (x, y, l, s) = (n as real, d as real, least as real, scale(e1));
        assert(l * (2real * s) == 2real * (l * s)) by (nonlinear_arith);
        assert(x / y == 2real * (x / (2real * y))) by (nonlinear_arith)
            requires
                y > 0real,
        ;
        e1 + 1
    }
}

/// Every positive quotient lies in its binade.
pub proof fn lemma_binade_exists(least: nat, n: nat, d: nat)
    requires
        least > 0,
        n > 0,
        d > 0,
    ensures
        in_binade(least, n, d, binade(least, n, d)),
{
    let e = if n < 2 * (least * d) {
        lemma_binade_of_small(least, n, d)
    } else {
        lemma_binade_of_large(least, n, d)
    };
    lemma_binade(least, n, d, e);
}

/// Rounding to the nearest integer errs by at most one half.
proof fn lemma_half_even_close(a: nat, b: nat)
    requires
        b > 0,
    ensures
        2 * (half_even(a, b) * b) <= 2 * a + b,
        2 * (half_even(a, b) * b) + b >= 2 * a,
{
    let q = a / b;
    let r = a % b;
    vstd::arithmetic::div_mod::lemma_fundamental_div_mod(a as int, b as int);
    assert(q * b == b * q && (q + 1) * b == b * q + b) by (nonlinear_arith);
}

/// How far apart two numbers are.
spec fn distance(a: int, b: int) -> int {
    if a < b {
        b - a
    } else {
        a - b
    }
}

/// No multiple `k * b` is nearer to `a` than that of the rounded quotient, and where another is as
/// near, the rounded quotient is even.
proof fn lemma_half_even_nearest(a: nat, b: nat, k: int)
    requires
        b > 0,
    ensures
        ({
            let m = half_even(a, b);
            let (own, other) = (distance((m * b) as int, a as int), distance(k * b, a as int));
            own <= other && (own == other && k != m ==> m % 2 == 0)
        }),
{
    let (q, r) = (a / b, a % b);
    vstd::arithmetic::div_mod::lemma_fundamental_div_mod(a as int, b as int);
    assert(q * b == b * q && (q + 1) * b == b * q + b) by (nonlinear_arith);
    if k < q {
        assert(k * b <= b * q - b) by (nonlinear_arith)
            requires
                k <= q - 1,
                b > 0,
        ;
    } else if k > q + 1 {
        assert(k * b >= b * q + 2 * b) by (nonlinear_arith)
            requires
                k >= q + 2,
                b > 0,
        ;
    }
}

/// Where `n / d` is `a / b` times `2^e` and has at `e` as many bits before the point as `least`,
/// it is rounded to the nearest multiple of `2^e`, and to the even one of two that are equally
/// near. A significand of one bit too many is halved, and the exponent is then one more.
pub proof fn law_rounded_nearest(least: nat, n: nat, d: nat, e: int, k: int)
    requires
        least > 0,
        d > 0,
        ({
            let (a, b) = if e < 0 {
                (n * pow2((-e) as nat), d)
            } else {
                (n, d * pow2(e as nat))
            };
            least * b <= a < 2 * (least * b)
        }),
    ensures
        ({
            let r = rounded(least, n, d);
            let (a, b) = if e < 0 {
                (n * pow2((-e) as nat), d)
            } else {
                (n, d * pow2(e as nat))
            };
            let m = if r.e == e {
                r.m
            } else {
                2 * r.m
            };
            let own = if m * b < a {
                a - m * b
            } else {
                m * b - a
            };
            let other = if k * b < a {
                a - k * b
            } else {
                k * b - a
            };
            &&& least <= r.m < 2 * least
            &&& r.e == e || (r.e == e + 1 && r.m == least)
            &&& own <= other
            &&& own == other && k != m ==> m % 2 == 0
        }),
{
    vstd::arithmetic::power2::lemma2_to64();
    let (a, b) = (n * up(-e), d * up(e));
    lemma_up_pos(e);
    assert(n * 1 == n && d * 1 == d);
    assert(b > 0) by (nonlinear_arith)
        requires
            b == d * up(e),
            d > 0,
            up(e) >= 1,
    ;
    lemma_binade(least, n, d, e);
    lemma_half_even_range(least, a, b);
    lemma_half_even_nearest(a, b, k);
}

/// A quotient has the significand that the quotient of the two significands is rounded to.
pub proof fn law_quotient(least: nat, x: Binary, y: Binary)
    ensures
        quotient(least, x, y).m == rounded(least, x.m, y.m).m,
        quotient(least, x, y).e == rounded(least, x.m, y.m).e + x.e - y.e,
{
}

/// A rounded quotient is a number of the format, and errs by at most half a unit in the last
/// place of its quotient: by one part in `2 * least`.
pub proof fn lemma_rounded(least: nat, n: nat, d: nat)
    requires
        least > 0,
        n > 0,
        d > 0,
    ensures
        least <= rounded(least, n, d).m < 2 * least,
        2real * (least as real) * (value(rounded(least, n, d)) - ratio(n, d)) <= ratio(n, d),
        2real * (least as real) * (ratio(n, d) - value(rounded(least, n, d))) <= ratio(n, d),
{
    let e = binade(least, n, d);
    lemma_binade_exists(least, n, d);
    lemma_in_binade_value(least, n, d, e);
    lemma_scale_step(e);
    lemma_up_pos(e);
    lemma_up_pos(-e);
    let a = n * up(-e);
    let b = d * up(e);
    assert(b > 0) by (nonlinear_arith)
        requires
            b == d * up(e),
            d > 0,
            up(e) >= 1,
    ;
    lemma_half_even_range(least, a, b);
    lemma_half_even_close(a, b);
    let m = half_even(a, b);
    let x = rounded(least, n, d);
    let (l, s, q) = (least as real, scale(e), ratio(n, d));
    assert((2real * l) * s == l * (2real * s)) by (nonlinear_arith);
    assert(value(x) == m as real * s);
    let (mr, nr, dr, u, v) = (m as real, n as real, d as real, up(e) as real, up(-e) as real);
    assert((m * b) as real == mr * (dr * u)) by (nonlinear_arith)
        requires
            mr == m as real,
            dr == d as real,
            u == up(e) as real,
            b == d * up(e),
    ;
    assert(a as real == nr * v) by (nonlinear_arith)
        requires
            nr == n as real,
            v == up(-e) as real,
            a == n * up(-e),
    ;
    assert(b as real == dr * u) by (nonlinear_arith)
        requires
            dr == d as real,
            u == up(e) as real,
            b == d * up(e),
    ;
    assert(2real * (mr * (dr * u)) <= 2real * (nr * v) + dr * u);
    assert(2real * (mr * (dr * u)) + dr * u >= 2real * (nr * v));
    assert(2real * (mr * s - q) <= s && 2real * (q - mr * s) <= s) by (nonlinear_arith)
        requires
            s == u / v,
            q == nr / dr,
            dr > 0real,
            v > 0real,
            u > 0real,
            2real * (mr * (dr * u)) <= 2real * (nr * v) + dr * u,
            2real * (mr * (dr * u)) + dr * u >= 2real * (nr * v),
    ;
    assert(2real * l * (mr * s - q) <= q && 2real * l * (q - mr * s) <= q) by (nonlinear_arith)
        requires
            l > 0real,
            l * s <= q,
            2real * (mr * s - q) <= s,
            2real * (q - mr * s) <= s,
    ;
}

proof fn lemma_scale_raise(e: int, t: nat)
    ensures
        scale(e + t) == pow2(t) as real * scale(e),
{
    lemma_up_pos(e);
    lemma_up_pos(-e);
    lemma_up_pos(e + t);
    lemma_up_pos(-e - t);
    lemma_up_ratio(e, t);
    let (p, a1, b1, a2, b2) = (pow2(t), up(e), up(-e), up(e + t), up(-e - t));
    assert(a2 as real * b1 as real == p as real * (a1 as real * b2 as real)) by (nonlinear_arith)
        requires
            a2 * b1 == p * (a1 * b2),
    ;
    let (pr, x1, y1, x2, y2) = (p as real, a1 as real, b1 as real, a2 as real, b2 as real);
    assert(x2 / y2 == pr * (x1 / y1)) by (nonlinear_arith)
        requires
            y1 > 0real,
            y2 > 0real,
            x2 * y1 == pr * (x1 * y2),
    ;
    assert(-(e + t) == -e - t);
}

proof fn lemma_scale_sum(a: int, b: int)
    ensures
        scale(a) > 0real,
        scale(a + b) == scale(a) * scale(b),
{
    lemma_scale_step(a);
    vstd::arithmetic::power2::lemma2_to64();
    if b >= 0 {
        lemma_scale_raise(a, b as nat);
        let p = pow2(b as nat) as real;
        assert(up(-b) == 1);
        assert(p / 1real == p) by (nonlinear_arith);
        assert(scale(b) == pow2(b as nat) as real);
        assert(pow2(b as nat) as real * scale(a) == scale(a) * pow2(b as nat) as real)
            by (nonlinear_arith);
    } else {
        let t = (-b) as nat;
        lemma_scale_raise(a + b, t);
        lemma_pow2_pos(t);
        let (p, u, v) = (pow2(t) as real, scale(a + b), scale(a));
        assert(scale(b) == 1real / p);
        assert(u == v * (1real / p)) by (nonlinear_arith)
            requires
                p > 0real,
                v == p * u,
        ;
    }
}

/// Shifting a number multiplies it by a power of two.
pub proof fn lemma_shifted(x: Binary, by: int)
    ensures
        scale(by) > 0real,
        value(shifted(x, by)) == value(x) * scale(by),
{
    lemma_scale_sum(x.e, by);
    lemma_scale_step(by);
    let (m, s, t) = (x.m as real, scale(x.e), scale(by));
    assert(m * (s * t) == (m * s) * t) by (nonlinear_arith);
}

/// The quotient of two numbers is a number of the format, and errs by one part in `2 * least`.
pub proof fn lemma_quotient(least: nat, x: Binary, y: Binary)
    requires
        least > 0,
        x.m > 0,
        y.m > 0,
    ensures
        value(y) > 0real,
        least <= quotient(least, x, y).m < 2 * least,
        2real * (least as real) * (value(quotient(least, x, y)) - value(x) / value(y)) <= value(x)
            / value(y),
        2real * (least as real) * (value(x) / value(y) - value(quotient(least, x, y))) <= value(x)
            / value(y),
{
    let r = rounded(least, x.m, y.m);
    lemma_rounded(least, x.m, y.m);
    lemma_shifted(r, x.e - y.e);
    lemma_scale_sum(y.e, x.e - y.e);
    lemma_scale_step(x.e);
    assert(y.e + (x.e - y.e) == x.e);
    let (l, v, q, sx, sy, s) = (
        least as real,
        value(r),
        ratio(x.m, y.m),
        scale(x.e),
        scale(y.e),
        scale(x.e - y.e),
    );
    let (mx, my) = (x.m as real, y.m as real);
    assert(my * sy > 0real) by (nonlinear_arith)
        requires
            my > 0real,
            sy > 0real,
    ;
    assert((mx * sx) / (my * sy) == q * s) by (nonlinear_arith)
        requires
            q == mx / my,
            sx == sy * s,
            my > 0real,
            sy > 0real,
            my * sy > 0real,
    ;
    assert(2real * l * (v * s - q * s) <= q * s && 2real * l * (q * s - v * s) <= q * s)
        by (nonlinear_arith)
        requires
            2real * l * (v - q) <= q,
            2real * l * (q - v) <= q,
            s > 0real,
    ;
}

/// A number `m * 2^e` with a significand in machine range.
#[derive(Clone, Copy)]
pub struct Dyadic {
    pub m: u64,
    pub e: i32,
}

impl View for Dyadic {
    type V = Binary;

    open spec fn view(&self) -> Binary {
        Binary { m: self.m as nat, e: self.e as int }
    }
}

/// A power of two below `2^117` has an exponent below 117.
proof fn lemma_pow2_bound(n: nat, k: nat)
    requires
        n >= 1,
        n * pow2(k) < 0x20_0000_0000_0000 * 0x1_0000_0000_0000_0000,
    ensures
        k < 117,
{
    lemma_pow2_adds(53, 64);
    vstd::arithmetic::power2::lemma2_to64();
    vstd::arithmetic::power2::lemma2_to64_rest();
    assert(n * pow2(k) >= pow2(k)) by (nonlinear_arith)
        requires
            n >= 1,
    ;
    if k > 117 {
        vstd::arithmetic::power2::lemma_pow2_strictly_increases(117, k);
    }
}

/// Doubling a multiple of `2^k` gives a multiple of `2^(k + 1)`.
proof fn lemma_double(n: nat, k: nat)
    ensures
        n * pow2(k + 1) == 2 * (n * pow2(k)),
{
    lemma_pow2_unfold(k + 1);
    assert(n * pow2(k + 1) == 2 * (n * pow2(k))) by (nonlinear_arith)
        requires
            pow2(k + 1) == 2 * pow2(k),
    ;
}

/// Rounds `n / d` to the format with the smallest significand `least`.
pub fn round_ratio(least: u64, n: u64, d: u64) -> (r: Dyadic)
    requires
        0 < least <= 0x10_0000_0000_0000,
        n > 0,
        d > 0,
    ensures
        r@ == rounded(least as nat, n as nat, d as nat),
        least <= r.m < 2 * least,
        -200 <= r.e <= 200,
        in_binade(least as nat, n as nat, d as nat, r.e as int) || in_binade(
            least as nat,
            n as nat,
            d as nat,
            r.e - 1,
        ),
{
    let low: u128 = least as u128;
    let mut a: u128 = n as u128;
    let mut b: u128 = d as u128;
    let mut k: i32 = 0;
    let mut j: i32 = 0;
    proof {
        vstd::arithmetic::power2::lemma2_to64();
        assert(n * 1 == n && d * 1 == d);
    }
    assert(low * b <= 0x10_0000_0000_0000 * 0x1_0000_0000_0000_0000) by (nonlinear_arith)
        requires
            low <= 0x10_0000_0000_0000,
            b <= 0x1_0000_0000_0000_0000,
    ;
    while a < low * b
        invariant
            0 < low == least <= 0x10_0000_0000_0000,
            0 < b == d,
            n > 0,
            low * b <= 0x10_0000_0000_0000 * 0x1_0000_0000_0000_0000,
            0 <= k <= 117,
            a == n * pow2(k as nat),
            a > 0,
            k == 0 ==> a == n,
            k > 0 ==> a < 2 * (low * b),
        decreases 2 * (low * b) - a,
    {
        proof {
            lemma_pow2_bound(n as nat, k as nat);
            lemma_double(n as nat, k as nat);
        }
        a = a * 2;
        k = k + 1;
    }
    assert(a < 0x20_0000_0000_0000 * 0x1_0000_0000_0000_0000);
    while a / 2 >= low * b
        invariant
            0 < low == least <= 0x10_0000_0000_0000,
            d > 0,
            n > 0,
            a < 0x20_0000_0000_0000 * 0x1_0000_0000_0000_0000,
            low * b <= a,
            0 <= k <= 117,
            0 <= j <= 117,
            a == n * pow2(k as nat),
            b == d * pow2(j as nat),
            b > 0,
            k > 0 ==> j == 0 && a < 2 * (low * b),
        decreases a - low * b,
    {
        assert(low * (b * 2) == 2 * (low * b)) by (nonlinear_arith);
        assert(b <= low * b) by (nonlinear_arith)
            requires
                low >= 1,
        ;
        proof {
            lemma_pow2_bound(d as nat, j as nat);
            lemma_double(d as nat, j as nat);
        }
        b = b * 2;
        j = j + 1;
    }
    let e: i32 = j - k;
    proof {
        assert(up(e as int) == pow2(j as nat));
        assert(up(-e as int) == pow2(k as nat));
        assert(least * (d * up(e as int)) == low * b);
        lemma_binade(least as nat, n as nat, d as nat, e as int);
        lemma_half_even_range(least as nat, a as nat, b as nat);
    }
    let q: u128 = a / b;
    let r: u128 = a % b;
    let m: u128 = if r < b - r || (r == b - r && q % 2 == 0) {
        q
    } else {
        q + 1
    };
    assert(m == half_even(a as nat, b as nat));
    if m == 2 * low {
        Dyadic { m: least, e: e + 1 }
    } else {
        Dyadic { m: m as u64, e }
    }
}

/// Divides one number by another and rounds the quotient to the format.
pub fn divide(least: u64, x: Dyadic, y: Dyadic) -> (r: Dyadic)
    requires
        0 < least <= 0x10_0000_0000_0000,
        x.m > 0,
        y.m > 0,
        -10000 <= x.e <= 10000,
        -10000 <= y.e <= 10000,
    ensures
        r@ == quotient(least as nat, x@, y@),
        least <= r.m < 2 * least,
        x.e - y.e - 200 <= r.e <= x.e - y.e + 200,
        in_binade(least as nat, x.m as nat, y.m as nat, r.e - (x.e - y.e)) || in_binade(
            least as nat,
            x.m as nat,
            y.m as nat,
            r.e - (x.e - y.e) - 1,
        ),
{
    let q = round_ratio(least, x.m, y.m);
    Dyadic { m: q.m, e: q.e + (x.e - y.e) }
}

} // verus!
