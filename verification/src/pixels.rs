//! What the encoder takes for the pixels of a region.

use crate::rounding::{
    Binary, Dyadic, SINGLE, divide, in_binade, lemma_binade, lemma_binade_above,
    lemma_binade_under, lemma_rounded, lemma_shifted, quotient, ratio, round_ratio, rounded, scale,
    shifted, up, value,
};
use vstd::arithmetic::power2::{lemma2_to64, lemma_pow2_pos, pow2};
use vstd::prelude::*;

verus! {

/// A single-precision number other than zero.
pub struct Signed {
    pub negative: bool,
    pub size: Binary,
}

/// One half, in single precision.
pub open spec fn half() -> Binary {
    rounded(SINGLE as nat, 1, 2)
}

/// `v / 255` in single precision, of a value that is not 0.
pub open spec fn fraction(v: u8) -> Binary {
    rounded(SINGLE as nat, v as nat, 255)
}

/// How much a number below 2 is above one half, as a multiple of `2^(x.e - 1)`.
pub open spec fn above_half(x: Binary) -> int {
    2 * x.m - up(-x.e)
}

/// `(v / 255 - 1/2) / (1/2)`, with each operation rounded to single precision.
pub open spec fn normalized(v: u8) -> Signed {
    if v == 0 {
        Signed { negative: true, size: quotient(SINGLE as nat, half(), half()) }
    } else {
        let x = fraction(v);
        let d = above_half(x);
        let size = if d < 0 {
            (-d) as nat
        } else {
            d as nat
        };
        let difference = shifted(rounded(SINGLE as nat, size, 1), x.e - 1);
        Signed { negative: d < 0, size: quotient(SINGLE as nat, difference, half()) }
    }
}

/// The bits of a single-precision number: its sign, its exponent, and its significand without
/// the leading bit.
pub open spec fn single_bits(x: Signed) -> int {
    (if x.negative {
        0x8000_0000int
    } else {
        0
    }) + (x.size.e + 150) * SINGLE + (x.size.m - SINGLE)
}

/// The numbers `up(c)` and `up(-c)` where `c` is not positive.
proof fn lemma_up_negative(c: int)
    requires
        -32 <= c <= 0,
    ensures
        up(c) == 1,
        up(-c) == pow2((-c) as nat),
{
    lemma2_to64();
}

/// The exponents at which the fraction of a value may lie.
proof fn lemma_fraction_exponent(v: u8, e: int)
    requires
        v > 0,
        in_binade(SINGLE as nat, v as nat, 255, e) || in_binade(
            SINGLE as nat,
            v as nat,
            255,
            e - 1,
        ),
    ensures
        -31 <= e <= -22,
{
    lemma2_to64();
    lemma_up_negative(-32);
    lemma_up_negative(-22);
    let f = if in_binade(SINGLE as nat, v as nat, 255, e) {
        e
    } else {
        e - 1
    };
    lemma_binade_above(SINGLE as nat, v as nat, 255, f, -32);
    lemma_binade_under(SINGLE as nat, v as nat, 255, f, -22);
}

/// The fraction of a value is never one half.
proof fn lemma_fraction_not_half(v: u8)
    requires
        v > 0,
        -31 <= fraction(v).e <= -22,
    ensures
        above_half(fraction(v)) != 0,
{
    let x = fraction(v);
    lemma_rounded(SINGLE as nat, v as nat, 255);
    lemma_up_negative(x.e);
    lemma_pow2_pos((-x.e) as nat);
    let (q, a, m, p) = (ratio(v as nat, 255), value(x), x.m as real, up(-x.e) as real);
    let l = SINGLE as real;
    if above_half(x) == 0 {
        assert(2real * m == p);
        assert(a == m * (1real / p));
        assert(a == 1real / 2real) by (nonlinear_arith)
            requires
                2real * m == p,
                p > 0real,
                a == m * (1real / p),
        ;
        let vr = v as real;
        assert(q * 255real == vr) by (nonlinear_arith)
            requires
                q == vr / 255real,
        ;
        assert(vr <= 127real || vr >= 128real);
        assert(q <= 127real / 255real || q >= 128real / 255real);
        assert(false) by (nonlinear_arith)
            requires
                l == 8388608real,
                0real < q <= 1real,
                q <= 127real / 255real || q >= 128real / 255real,
                2real * l * (a - q) <= q,
                2real * l * (q - a) <= q,
                a == 1real / 2real,
        ;
    }
}

/// The bits of the number that the encoder takes for a color value.
pub fn normalized_bits(v: u8) -> (r: u32)
    ensures
        r == single_bits(normalized(v)),
{
    let one_half = round_ratio(SINGLE, 1, 2);
    proof {
        lemma2_to64();
        lemma_up_negative(-25);
        lemma_up_negative(-23);
        let f = if in_binade(SINGLE as nat, 1, 2, one_half.e as int) {
            one_half.e as int
        } else {
            one_half.e - 1
        };
        lemma_binade_above(SINGLE as nat, 1, 2, f, -25);
        lemma_binade_under(SINGLE as nat, 1, 2, f, -23);
    }
    if v == 0 {
        return bits_of(true, divide_by_half(one_half, one_half));
    }
    let x = round_ratio(SINGLE, v as u64, 255);
    proof {
        lemma_fraction_exponent(v, x.e as int);
        lemma_fraction_not_half(v);
    }
    let whole: u64 = power(-x.e);
    let negative = 2 * x.m < whole;
    let size: u64 = if negative {
        whole - 2 * x.m
    } else {
        2 * x.m - whole
    };
    let rest = round_ratio(SINGLE, size, 1);
    proof {
        lemma_up_negative(-24);
        lemma2_to64();
        let f = if in_binade(SINGLE as nat, size as nat, 1, rest.e as int) {
            rest.e as int
        } else {
            rest.e - 1
        };
        lemma_binade_above(SINGLE as nat, size as nat, 1, f, -24);
        assert(up(9) == 512 && up(-9) == 1);
        lemma_binade_under(SINGLE as nat, size as nat, 1, f, 9);
    }
    let difference = Dyadic { m: rest.m, e: rest.e + (x.e - 1) };
    bits_of(negative, divide_by_half(difference, one_half))
}

fn power(k: i32) -> (r: u64)
    requires
        0 <= k <= 31,
    ensures
        r == pow2(k as nat),
        1 <= r <= 0x8000_0000,
{
    let mut r: u64 = 1;
    let mut i: i32 = 0;
    proof {
        lemma2_to64();
    }
    while i < k
        invariant
            0 <= i <= k <= 31,
            r == pow2(i as nat),
            1 <= r <= 0x8000_0000,
        decreases k - i,
    {
        proof {
            lemma2_to64();
            vstd::arithmetic::power2::lemma_pow2_unfold((i + 1) as nat);
            if i + 1 < 31 {
                vstd::arithmetic::power2::lemma_pow2_strictly_increases((i + 1) as nat, 31);
            }
        }
        r = r * 2;
        i = i + 1;
    }
    r
}

fn divide_by_half(x: Dyadic, one_half: Dyadic) -> (r: Dyadic)
    requires
        SINGLE <= x.m < 2 * SINGLE,
        -60 <= x.e <= 0,
        one_half@ == half(),
        SINGLE <= one_half.m < 2 * SINGLE,
        -24 <= one_half.e <= -23,
    ensures
        r@ == quotient(SINGLE as nat, x@, half()),
        SINGLE <= r.m < 2 * SINGLE,
        -100 <= r.e <= 50,
{
    let r = divide(SINGLE, x, one_half);
    proof {
        lemma2_to64();
        lemma_up_negative(-25);
        lemma_up_negative(-22);
        let s = r.e - (x.e - one_half.e);
        let f = if in_binade(SINGLE as nat, x.m as nat, one_half.m as nat, s) {
            s
        } else {
            s - 1
        };
        lemma_binade_above(SINGLE as nat, x.m as nat, one_half.m as nat, f, -25);
        lemma_binade_under(SINGLE as nat, x.m as nat, one_half.m as nat, f, -22);
    }
    r
}

fn bits_of(negative: bool, x: Dyadic) -> (r: u32)
    requires
        SINGLE <= x.m < 2 * SINGLE,
        -100 <= x.e <= 50,
    ensures
        r == single_bits((Signed { negative, size: x@ })),
{
    let sign: u64 = if negative {
        0x8000_0000
    } else {
        0
    };
    (sign + (x.e + 150) as u64 * SINGLE + (x.m - SINGLE)) as u32
}

/// The number that a signed number stands for.
pub open spec fn number(x: Signed) -> real {
    if x.negative {
        -value(x.size)
    } else {
        value(x.size)
    }
}

proof fn lemma_half()
    ensures
        half() == (Binary { m: SINGLE as nat, e: -24 }),
        value(half()) == 1real / 2real,
{
    lemma2_to64();
    lemma_up_negative(-24);
    lemma_binade(SINGLE as nat, 1, 2, -24);
    assert(1 * up(24) == 0x100_0000);
    assert(2 * up(-24) == 2);
    let (l, p) = (SINGLE as real, up(24) as real);
    assert(l * (1real / p) == 1real / 2real) by (nonlinear_arith)
        requires
            l == 8388608real,
            p == 16777216real,
    ;
}

/// Dividing by one half doubles, up to the error of a rounding.
proof fn lemma_doubled(x: Binary)
    requires
        x.m > 0,
    ensures
        2real * (SINGLE as real) * (value(quotient(SINGLE as nat, x, half())) - 2real * value(x))
            <= 2real * value(x),
        2real * (SINGLE as real) * (2real * value(x) - value(quotient(SINGLE as nat, x, half())))
            <= 2real * value(x),
{
    lemma_half();
    crate::rounding::lemma_quotient(SINGLE as nat, x, half());
    let v = value(x);
    assert(v / (1real / 2real) == 2real * v) by (nonlinear_arith);
}

/// A normalized value is `2 * v / 255 - 1`, up to one part in `2^21`.
pub proof fn law_normalized_close(v: u8)
    ensures
        -1real <= 2097152real * (number(normalized(v)) - (2real * (v as real) / 255real - 1real))
            <= 1real,
{
    let l = SINGLE as real;
    let n = number(normalized(v));
    if v == 0 {
        lemma_half();
        lemma_doubled(half());
        let q = value(quotient(SINGLE as nat, half(), half()));
        assert(-1real <= 2097152real * (-q + 1real) && 2097152real * (-q + 1real) <= 1real)
            by (nonlinear_arith)
            requires
                l == 8388608real,
                2real * l * (q - 1real) <= 1real,
                2real * l * (1real - q) <= 1real,
        ;
        assert(2real * 0real / 255real == 0real) by (nonlinear_arith);
    } else {
        lemma_fraction_binade(v);
        lemma_fraction_not_half(v);
        lemma_rounded(SINGLE as nat, v as nat, 255);
        let x = fraction(v);
        let d = above_half(x);
        let size = if d < 0 {
            (-d) as nat
        } else {
            d as nat
        };
        let r = rounded(SINGLE as nat, size, 1);
        lemma_rounded(SINGLE as nat, size, 1);
        let difference = shifted(r, x.e - 1);
        lemma_shifted(r, x.e - 1);
        lemma_doubled(difference);
        lemma_above_half(x);
        let (q, a, s, b, c, w, dr) = (
            ratio(v as nat, 255),
            value(x),
            scale(x.e - 1),
            value(r),
            value(quotient(SINGLE as nat, difference, half())),
            size as real,
            d as real,
        );
        let vr = v as real;
        assert(w / 1real == w) by (nonlinear_arith);
        assert(2real * vr / 255real == 2real * q) by (nonlinear_arith)
            requires
                q == vr / 255real,
        ;
        assert(0real < q && q <= 1real) by (nonlinear_arith)
            requires
                q == vr / 255real,
                1real <= vr <= 255real,
        ;
        let t = w * s;
        assert(2real * l * (b * s - t) <= t && 2real * l * (t - b * s) <= t) by (nonlinear_arith)
            requires
                t == w * s,
                s > 0real,
                2real * l * (b - w) <= w,
                2real * l * (w - b) <= w,
        ;
        assert(a - 1real / 2real == dr * s);
        assert(t == if d < 0 {
            1real / 2real - a
        } else {
            a - 1real / 2real
        }) by (nonlinear_arith)
            requires
                t == w * s,
                w == if d < 0 {
                    -dr
                } else {
                    dr
                },
                a - 1real / 2real == dr * s,
        ;
        let g = b * s;
        let u = if d < 0 {
            -c
        } else {
            c
        };
        let z = a - 1real / 2real;
        assert(-1real <= 2097152real * (u - (2real * q - 1real)) && 2097152real * (u - (2real * q
            - 1real)) <= 1real) by (nonlinear_arith)
            requires
                l == 8388608real,
                0real < q <= 1real,
                2real * l * (a - q) <= q,
                2real * l * (q - a) <= q,
                z == a - 1real / 2real,
                t == if d < 0 {
                    -z
                } else {
                    z
                },
                u == if d < 0 {
                    -c
                } else {
                    c
                },
                2real * l * (g - t) <= t,
                2real * l * (t - g) <= t,
                2real * l * (c - 2real * g) <= 2real * g,
                2real * l * (2real * g - c) <= 2real * g,
        ;
    }
}

/// The fraction of a value has an exponent far below zero.
proof fn lemma_fraction_binade(v: u8)
    requires
        v > 0,
    ensures
        -31 <= fraction(v).e <= -22,
{
    let e = crate::rounding::binade(SINGLE as nat, v as nat, 255);
    crate::rounding::lemma_binade_exists(SINGLE as nat, v as nat, 255);
    lemma_fraction_exponent(v, fraction(v).e);
}

/// What a number is above one half.
proof fn lemma_above_half(x: Binary)
    requires
        -31 <= x.e <= -22,
    ensures
        value(x) - 1real / 2real == above_half(x) as real * scale(x.e - 1),
{
    lemma_up_negative(x.e);
    lemma_up_negative(x.e - 1);
    lemma_pow2_pos((-x.e) as nat);
    vstd::arithmetic::power2::lemma_pow2_unfold((1 - x.e) as nat);
    assert(-(x.e - 1) == 1 - x.e);
    let (m, p) = (x.m as real, up(-x.e) as real);
    assert(up(-(x.e - 1)) as real == 2real * p);
    assert(m * (1real / p) - 1real / 2real == (2real * m - p) * (1real / (2real * p)))
        by (nonlinear_arith)
        requires
            p > 0real,
    ;
}

/// A brighter value is normalized to a greater number.
pub proof fn law_normalized_increasing(a: u8, b: u8)
    requires
        a < b,
    ensures
        number(normalized(a)) < number(normalized(b)),
{
    law_normalized_close(a);
    law_normalized_close(b);
    let (x, y) = (a as real, b as real);
    assert(2real * y / 255real - 2real * x / 255real >= 2real / 255real) by (nonlinear_arith)
        requires
            y >= x + 1real,
    ;
}

/// The bits of the number that the encoder takes for a color value.
pub open spec fn pixel_bits(v: u8) -> u32 {
    single_bits(normalized(v)) as u32
}

/// The numbers that the encoder takes for a region of `w` by `h` pixels whose color values are
/// interleaved: one plane per color, each row by row.
pub open spec fn planes(rgb: Seq<u8>, w: nat, h: nat) -> Seq<u32> {
    Seq::new(3 * (w * h), |i: int| pixel_bits(rgb[i % (w * h) as int * 3 + i / (w * h) as int]))
}

/// Lays the color values of a region out in planes, normalized.
pub fn to_planes(rgb: &[u8], w: usize, h: usize) -> (r: Vec<u32>)
    requires
        3 * (w * h) <= rgb.len(),
    ensures
        r@ == planes(rgb@, w as nat, h as nat),
{
    assert(3 * (w * h) <= usize::MAX);
    let size: usize = w * h;
    let mut r: Vec<u32> = Vec::new();
    let mut c: usize = 0;
    let ghost all = planes(rgb@, w as nat, h as nat);
    while c < 3
        invariant
            0 <= c <= 3,
            size == w * h,
            3 * size <= rgb.len(),
            all == planes(rgb@, w as nat, h as nat),
            r@ == all.take(c * size),
        decreases 3 - c,
    {
        let mut p: usize = 0;
        while p < size
            invariant
                0 <= c < 3,
                0 <= p <= size,
                size == w * h,
                3 * size <= rgb.len(),
                all == planes(rgb@, w as nat, h as nat),
                r@ == all.take(c * size + p),
            decreases size - p,
        {
            let ghost at = c * size + p;
            proof {
                assert(at < 3 * size) by (nonlinear_arith)
                    requires
                        at == c * size + p,
                        c <= 2,
                        p < size,
                ;
                assert(at % (size as int) == p && at / (size as int) == c) by {
                    vstd::arithmetic::div_mod::lemma_fundamental_div_mod_converse(
                        at,
                        size as int,
                        c as int,
                        p as int,
                    );
                }
            }
            let bits = normalized_bits(rgb[p * 3 + c]);
            r.push(bits);
            p = p + 1;
            assert(all[at] == bits);
            assert(r@ =~= all.take(at + 1));
        }
        assert(c * size + size == (c + 1) * size) by (nonlinear_arith);
        c = c + 1;
    }
    assert(all.take(c * size) =~= all);
    r
}

/// The value of color `c` of the pixel in row `y` and column `x` stands in plane `c`, at the
/// place of that pixel.
pub proof fn law_plane_layout(rgb: Seq<u8>, w: nat, h: nat, c: nat, y: nat, x: nat)
    requires
        c < 3,
        y < h,
        x < w,
    ensures
        c * h * w + y * w + x < planes(rgb, w, h).len(),
        planes(rgb, w, h)[(c * h * w + y * w + x) as int] == pixel_bits(
            rgb[((y * w + x) * 3 + c) as int],
        ),
{
    let (n, p) = (w * h, y * w + x);
    assert(p < n && n > 0) by (nonlinear_arith)
        requires
            n == w * h,
            p == y * w + x,
            y < h,
            x < w,
    ;
    assert(c * h * w == c * n) by (nonlinear_arith)
        requires
            n == w * h,
    ;
    let i = c * n + p;
    assert(i < 3 * n) by (nonlinear_arith)
        requires
            i == c * n + p,
            c <= 2,
            p < n,
    ;
    vstd::arithmetic::div_mod::lemma_fundamental_div_mod_converse(
        i as int,
        n as int,
        c as int,
        p as int,
    );
}

/// There is one number for each color of each pixel, and it is that of the normalized value.
pub proof fn law_plane_count(rgb: Seq<u8>, w: nat, h: nat, v: u8)
    ensures
        planes(rgb, w, h).len() == 3 * w * h,
        pixel_bits(v) == single_bits(normalized(v)) as u32,
{
    assert(3 * (w * h) == 3 * w * h) by (nonlinear_arith);
}

} // verus!
