//! The size to which a region is scaled before it is recognized.

use vstd::prelude::*;

verus! {

/// The largest width that the encoder takes.
pub const MAX_WIDTH: usize = 960;

/// The largest height that the encoder takes.
pub const MAX_HEIGHT: usize = 1408;

/// Both sides are multiples of this.
pub const ALIGNMENT: usize = 64;

/// The width and height to which a region is scaled, before alignment: those of the region
/// where they are within the limits, and otherwise the largest that are and keep its aspect, cut
/// to whole pixels.
pub open spec fn fit(w: nat, h: nat) -> (nat, nat) {
    let (max_w, max_h) = (MAX_WIDTH as nat, MAX_HEIGHT as nat);
    if w <= max_w && h <= max_h {
        (w, h)
    } else if h == 0 {
        (max_w, 0)
    } else if w == 0 {
        (0, max_h)
    } else if max_h * w <= max_w * h {
        (max_h * w / h, max_h)
    } else {
        (max_w, max_w * h / w)
    }
}

/// The largest multiple of the alignment that is at most `n`, but no less than the alignment.
pub open spec fn aligned(n: nat) -> nat {
    let a = ALIGNMENT as nat;
    if n < a {
        a
    } else {
        (n / a * a) as nat
    }
}

/// `a / b` in whole pixels: it is the largest integer that is no more.
proof fn lemma_cut(a: nat, b: nat)
    requires
        b > 0,
    ensures
        (a / b) * b <= a < (a / b + 1) * b,
{
    assert((a / b) * b <= a < (a / b + 1) * b) by (nonlinear_arith)
        requires
            b > 0,
    ;
}

/// A quotient is at most `n` where the dividend is at most `n` times the divisor.
proof fn lemma_cut_within(a: nat, b: nat, n: nat)
    requires
        b > 0,
        a <= n * b,
    ensures
        a / b <= n,
{
    assert(a / b <= n) by (nonlinear_arith)
        requires
            b > 0,
            a <= n * b,
    ;
}

proof fn lemma_fit(w: nat, h: nat)
    ensures
        fit(w, h).0 <= MAX_WIDTH,
        fit(w, h).1 <= MAX_HEIGHT,
{
    let (max_w, max_h) = (MAX_WIDTH as nat, MAX_HEIGHT as nat);
    if w > 0 && h > 0 {
        if max_h * w <= max_w * h {
            lemma_cut_within(max_h * w, h, max_w);
        } else {
            lemma_cut_within(max_w * h, w, max_h);
        }
    }
}

fn align(n: usize) -> (r: usize)
    ensures
        r == aligned(n as nat),
{
    if n < ALIGNMENT {
        ALIGNMENT
    } else {
        n / ALIGNMENT * ALIGNMENT
    }
}

/// The size to which a region of `w` by `h` pixels is scaled: the largest within the limits
/// that keeps the aspect and does not enlarge the region, with both sides cut to the alignment.
pub fn target_size(w: usize, h: usize) -> (r: (usize, usize))
    ensures
        r.0 == aligned(fit(w as nat, h as nat).0),
        r.1 == aligned(fit(w as nat, h as nat).1),
{
    proof {
        lemma_fit(w as nat, h as nat);
    }
    if w <= MAX_WIDTH && h <= MAX_HEIGHT {
        return (align(w), align(h));
    }
    if h == 0 {
        return (align(MAX_WIDTH), align(0));
    }
    if w == 0 {
        return (align(0), align(MAX_HEIGHT));
    }
    let across: u128 = MAX_HEIGHT as u128 * w as u128;
    let down: u128 = MAX_WIDTH as u128 * h as u128;
    if across <= down {
        (align((across / h as u128) as usize), align(MAX_HEIGHT))
    } else {
        (align(MAX_WIDTH), align((down / w as u128) as usize))
    }
}

/// Both sides of the target are multiples of the alignment, from the alignment up to their
/// limit.
pub proof fn law_target_in_limits(w: nat, h: nat)
    ensures
        aligned(fit(w, h).0) % (ALIGNMENT as nat) == 0,
        aligned(fit(w, h).1) % (ALIGNMENT as nat) == 0,
        ALIGNMENT <= aligned(fit(w, h).0) <= MAX_WIDTH,
        ALIGNMENT <= aligned(fit(w, h).1) <= MAX_HEIGHT,
{
    lemma_fit(w, h);
}

/// A region that is scaled down keeps its aspect: one side is at its limit, and the other is the
/// largest count of pixels that is no more than what the aspect makes of it.
pub proof fn law_aspect_kept(w: nat, h: nat)
    requires
        w > 0,
        h > 0,
    ensures
        ({
            let (nw, nh) = fit(w, h);
            ||| (nw, nh) == (w, h)
            ||| nh == MAX_HEIGHT && nw * h <= MAX_HEIGHT * w < (nw + 1) * h
            ||| nw == MAX_WIDTH && nh * w <= MAX_WIDTH * h < (nh + 1) * w
        }),
{
    lemma_cut(MAX_HEIGHT as nat * w, h);
    lemma_cut(MAX_WIDTH as nat * h, w);
}

/// A region with the aspect of the limits that is not within them is scaled to the limits.
pub proof fn law_limits_filled(w: nat, h: nat)
    requires
        w > MAX_WIDTH,
        MAX_HEIGHT * w == MAX_WIDTH * h,
    ensures
        fit(w, h) == (MAX_WIDTH as nat, MAX_HEIGHT as nat),
        aligned(fit(w, h).0) == MAX_WIDTH,
        aligned(fit(w, h).1) == MAX_HEIGHT,
{
    let (max_w, max_h) = (MAX_WIDTH as nat, MAX_HEIGHT as nat);
    assert(max_h * w / h == max_w) by (nonlinear_arith)
        requires
            max_h * w == max_w * h,
            h > 0,
    ;
}

/// No region is enlarged, except that a side below the alignment is brought up to it.
pub proof fn law_never_enlarged(w: nat, h: nat)
    ensures
        fit(w, h).0 <= w,
        fit(w, h).1 <= h,
        aligned(fit(w, h).0) <= w || aligned(fit(w, h).0) == ALIGNMENT,
        aligned(fit(w, h).1) <= h || aligned(fit(w, h).1) == ALIGNMENT,
{
    let (max_w, max_h) = (MAX_WIDTH as nat, MAX_HEIGHT as nat);
    if w > 0 && h > 0 && !(w <= max_w && h <= max_h) {
        if max_h * w <= max_w * h {
            assert(max_h * w <= w * h) by (nonlinear_arith)
                requires
                    max_h <= h,
            ;
            lemma_cut_within(max_h * w, h, w);
        } else {
            assert(max_w * h <= h * w) by (nonlinear_arith)
                requires
                    max_w <= w,
            ;
            lemma_cut_within(max_w * h, w, h);
        }
    }
}

/// The target of a region within the limits: each side is the largest multiple of 64 that is no
/// more than that side of the region, or 64.
pub proof fn law_target_within(w: nat, h: nat)
    requires
        w <= 960,
        h <= 1408,
    ensures
        aligned(fit(w, h).0) % 64 == 0,
        aligned(fit(w, h).0) == 64 || aligned(fit(w, h).0) <= w,
        w < aligned(fit(w, h).0) + 64,
        aligned(fit(w, h).1) % 64 == 0,
        aligned(fit(w, h).1) == 64 || aligned(fit(w, h).1) <= h,
        h < aligned(fit(w, h).1) + 64,
{
}

/// The target of a region that is not within the limits: one side is at its limit, and the other
/// is the largest multiple of 64 with which the picture is no longer, in proportion, than the
/// region, or 64.
pub proof fn law_target_beyond(w: nat, h: nat)
    requires
        w > 960 || h > 1408,
    ensures
        aligned(fit(w, h).0) % 64 == 0,
        aligned(fit(w, h).1) % 64 == 0,
        1408 * w <= 960 * h ==> {
            &&& aligned(fit(w, h).1) == 1408
            &&& aligned(fit(w, h).0) == 64 || aligned(fit(w, h).0) * h <= 1408 * w
            &&& 1408 * w < (aligned(fit(w, h).0) + 64) * h
        },
        1408 * w > 960 * h ==> {
            &&& aligned(fit(w, h).0) == 960
            &&& aligned(fit(w, h).1) == 64 || aligned(fit(w, h).1) * w <= 960 * h
            &&& 960 * h < (aligned(fit(w, h).1) + 64) * w
        },
{
    law_target_in_limits(w, h);
    if w > 0 && h > 0 {
        let (nw, nh) = fit(w, h);
        if 1408 * w <= 960 * h {
            lemma_cut(1408 * w, h);
            lemma_aligned_part(nw, h, 1408 * w);
        } else {
            lemma_cut(960 * h, w);
            lemma_aligned_part(nh, w, 960 * h);
        }
    } else if h == 0 {
        assert((64 + 64) * w > 0) by (nonlinear_arith)
            requires
                w > 0,
        ;
    } else {
        assert((64 + 64) * h > 0) by (nonlinear_arith)
            requires
                h > 0,
        ;
    }
}

/// The multiple of 64 below `n`, where `n` times `b` is the largest such number within `a`.
proof fn lemma_aligned_part(n: nat, b: nat, a: nat)
    requires
        n * b <= a < (n + 1) * b,
    ensures
        aligned(n) == 64 || aligned(n) * b <= a,
        a < (aligned(n) + 64) * b,
{
    let t = aligned(n);
    assert(n + 1 <= t + 64);
    assert((n + 1) * b <= (t + 64) * b) by (nonlinear_arith)
        requires
            n + 1 <= t + 64,
    ;
    if t != 64 {
        assert(t <= n);
        assert(t * b <= n * b) by (nonlinear_arith)
            requires
                t <= n,
        ;
    }
}

/// A region that is at least as wide as it is high is not scaled to a picture that is higher than
/// it is wide.
pub proof fn law_wide_stays_wide(w: nat, h: nat)
    requires
        w >= h,
    ensures
        aligned(fit(w, h).0) >= aligned(fit(w, h).1),
{
    law_target_in_limits(w, h);
    if w <= 960 && h <= 1408 {
        assert(w / 64 >= h / 64);
    } else if h > 0 {
        assert(960 * h < 1408 * w);
        lemma_cut_within(960 * h, w, 960);
    }
}

} // verus!
