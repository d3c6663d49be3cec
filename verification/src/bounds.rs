//! How far rounding can take a value.
use crate::ieee::{
    exponent, infinity, is_format, leading, lemma_compose, lemma_decompose, lemma_leading,
    lemma_points_increase, lemma_rounded_is_nearest, lemma_step, nearest_root, points, rounded,
    rounded_root, significand, SINGLE,
};
use vstd::arithmetic::power2::{lemma_pow2_pos, lemma_pow2_unfold, pow2};
use vstd::prelude::*;

verus! {

/// The largest exponent of a finite magnitude.
pub open spec fn top_exponent(p: u32) -> nat {
    if p == SINGLE {
        253
    } else {
        2045
    }
}

/// The magnitude of infinity is two exponents past the largest.
proof fn lemma_infinity(p: u32)
    requires
        is_format(p),
    ensures
        leading(p) * (top_exponent(p) + 2) == infinity(p),
{
    lemma_leading(p);
    assert(0x80_0000nat * 255 == 0x7f80_0000);
    assert(0x10_0000_0000_0000nat * 2047 == 0x7ff0_0000_0000_0000);
}

/// What the significand's bits can hold is a magnitude, and needs no rounding.
pub proof fn lemma_representable(s: nat, e: nat, p: u32) -> (mag: nat)
    requires
        is_format(p),
        s < 2 * leading(p),
        e <= top_exponent(p),
    ensures
        points(mag, p) == s * pow2(e),
        mag < infinity(p),
    decreases e,
{
    lemma_leading(p);
    let h = leading(p);
    if s >= h || e == 0 {
        lemma_compose(s, e, p);
        let top = top_exponent(p);
        lemma_infinity(p);
        assert(s + h * e < h * (top + 2)) by (nonlinear_arith)
            requires
                s < 2 * h,
                e <= top,
        ;
        s + h * e
    } else {
        let f = (e - 1) as nat;
        lemma_pow2_unfold(e);
        assert((2 * s) * pow2(f) == s * (2 * pow2(f))) by (nonlinear_arith);
        lemma_representable(2 * s, f, p)
    }
}

/// Magnitudes are ordered as their values are.
pub proof fn lemma_points_order(a: nat, b: nat, p: u32)
    requires
        is_format(p),
    ensures
        points(a, p) <= points(b, p) <==> a <= b,
{
    if a < b {
        lemma_points_increase(a, b, p);
    } else if b < a {
        lemma_points_increase(b, a, p);
    }
}

/// A finite magnitude's exponent is not above the largest.
pub proof fn lemma_exponent_bound(mag: nat, p: u32)
    requires
        is_format(p),
        mag < infinity(p),
    ensures
        exponent(mag, p) <= top_exponent(p),
{
    lemma_leading(p);
    lemma_decompose(mag, p);
    let h = leading(p);
    let e = exponent(mag, p);
    let top = top_exponent(p);
    lemma_infinity(p);
    if e > top {
        assert(h + h * e >= h * (top + 2)) by (nonlinear_arith)
            requires
                e >= top + 1,
        ;
    }
}

/// Rounding keeps the order of values.
pub proof fn lemma_rounded_order(a: nat, b: nat, den: nat, p: u32)
    requires
        is_format(p),
        den > 0,
        a <= b,
    ensures
        rounded(a, den, p) <= rounded(b, den, p),
{
    let ra = rounded(a, den, p);
    let rb = rounded(b, den, p);
    lemma_rounded_is_nearest(a, den, p);
    lemma_rounded_is_nearest(b, den, p);
    if rb < ra {
        let c = (ra - 1) as nat;
        lemma_points_order(rb, c, p);
        lemma_points_order(rb + 1, ra, p);
        let low = points(rb, p) + points(rb + 1, p);
        let high = points(c, p) + points(ra, p);
        assert(low * den <= high * den) by (nonlinear_arith)
            requires
                low <= high,
        ;
        assert(a == b);
    }
}

/// A value below the middle between a magnitude and the next does not round past it.
pub proof fn lemma_rounded_below_middle(num: nat, den: nat, r: nat, p: u32)
    requires
        is_format(p),
        den > 0,
        2 * num < (points(r, p) + points(r + 1, p)) * den,
    ensures
        rounded(num, den, p) <= r,
{
    let q = rounded(num, den, p);
    lemma_rounded_is_nearest(num, den, p);
    if q > r {
        let c = (q - 1) as nat;
        lemma_points_order(r, c, p);
        lemma_points_order(r + 1, q, p);
        let low = points(r, p) + points(r + 1, p);
        let high = points(c, p) + points(q, p);
        assert(low * den <= high * den) by (nonlinear_arith)
            requires
                low <= high,
        ;
    }
}

/// From the first normal magnitude on, a step is not above the magnitude's value over the
/// leading bit.
pub proof fn lemma_step_size(mag: nat, p: u32)
    requires
        is_format(p),
        mag >= leading(p),
    ensures
        points(mag + 1, p) == points(mag, p) + pow2(exponent(mag, p)),
        points(mag, p) >= leading(p) * pow2(exponent(mag, p)),
        pow2(exponent(mag, p)) > 0,
{
    lemma_step(mag, p);
    lemma_decompose(mag, p);
    lemma_leading(p);
    let g = pow2(exponent(mag, p));
    lemma_pow2_pos(exponent(mag, p));
    let q = significand(mag, p);
    let h = leading(p);
    assert(q * g >= h * g) by (nonlinear_arith)
        requires
            q >= h,
    ;
}

/// The magnitudes up to the first normal one stand for themselves.
pub proof fn lemma_small_points(mag: nat, p: u32)
    requires
        is_format(p),
        mag <= leading(p),
    ensures
        points(mag, p) == mag,
{
    lemma_leading(p);
    lemma_compose(mag, 0, p);
    vstd::arithmetic::power2::lemma2_to64();
    assert(leading(p) * 0 == 0);
}

/// Rounding adds at most half a step: of a sum, or of a value that is not below the first
/// normal magnitude, not more than one part in two to the power of the precision.
pub proof fn lemma_rounded_grows(num: nat, den: nat, p: u32)
    requires
        is_format(p),
        den > 0,
        den == 1 || num >= leading(p) * den,
    ensures
        points(rounded(num, den, p), p) * den * (2 * leading(p)) <= num * (2 * leading(p) + 1),
{
    let q = rounded(num, den, p);
    let h = leading(p);
    lemma_rounded_is_nearest(num, den, p);
    lemma_leading(p);
    if q <= h {
        lemma_small_points(q, p);
        if q > 0 {
            lemma_small_points((q - 1) as nat, p);
        }
        assert(q * den <= num) by {
            if num >= h * den {
                assert(q * den <= h * den) by (nonlinear_arith)
                    requires
                        q <= h,
                ;
            } else {
                assert(q * den == q) by (nonlinear_arith)
                    requires
                        den == 1,
                ;
                if q > 0 {
                    assert(((q - 1) + q) * den == 2 * q - 1) by (nonlinear_arith)
                        requires
                            den == 1,
                    ;
                }
            }
        }
        let x = q * den;
        assert(x * (2 * h) <= num * (2 * h + 1)) by (nonlinear_arith)
            requires
                x <= num,
        ;
    } else {
        let c = (q - 1) as nat;
        lemma_step_size(c, p);
        let g = pow2(exponent(c, p));
        let x = points(c, p);
        let y = points(q, p);
        assert((x + y) * den == (2 * x + g) * den);
        assert(2 * num >= (2 * x + g) * den);
        assert((2 * x + g) * den * (2 * h + 1) >= 2 * ((x + g) * den * (2 * h))) by (nonlinear_arith)
            requires
                x >= h * g,
                den > 0,
        ;
        assert(2 * num * (2 * h + 1) >= (2 * x + g) * den * (2 * h + 1)) by (nonlinear_arith)
            requires
                2 * num >= (2 * x + g) * den,
        ;
        assert(2 * num * (2 * h + 1) == 2 * (num * (2 * h + 1))) by (nonlinear_arith);
    }
}

/// Rounding takes at most half a step away.
pub proof fn lemma_rounded_shrinks(num: nat, den: nat, p: u32)
    requires
        is_format(p),
        den > 0,
        leading(p) <= rounded(num, den, p) < infinity(p),
    ensures
        num * (2 * leading(p)) <= points(rounded(num, den, p), p) * den * (2 * leading(p) + 1),
{
    let q = rounded(num, den, p);
    let h = leading(p);
    lemma_rounded_is_nearest(num, den, p);
    lemma_step_size(q, p);
    let g = pow2(exponent(q, p));
    let x = points(q, p);
    assert((x + points(q + 1, p)) * den == (2 * x + g) * den);
    assert(2 * num <= (2 * x + g) * den);
    assert((2 * x + g) * den * (2 * h) <= 2 * (x * den * (2 * h + 1))) by (nonlinear_arith)
        requires
            x >= h * g,
            den > 0,
    ;
    assert(2 * num * (2 * h) <= (2 * x + g) * den * (2 * h)) by (nonlinear_arith)
        requires
            2 * num <= (2 * x + g) * den,
    ;
    assert(2 * num * (2 * h) == 2 * (num * (2 * h))) by (nonlinear_arith);
}

/// Rounding takes a value no farther than the way to any magnitude below it.
pub proof fn lemma_rounded_reach(num: nat, r: nat, p: u32)
    requires
        is_format(p),
        points(r, p) <= num,
    ensures
        points(rounded(num, 1, p), p) <= 2 * num - points(r, p),
{
    let q = rounded(num, 1, p);
    lemma_rounded_is_nearest(num, 1, p);
    lemma_points_order(q, r, p);
    if q > r {
        let c = (q - 1) as nat;
        lemma_points_order(r, c, p);
        assert((points(c, p) + points(q, p)) * 1 == points(c, p) + points(q, p));
    }
}

/// Every value has a nearest square root.
pub proof fn lemma_rounded_root_is_nearest(x: nat, p: u32)
    requires
        is_format(p),
    ensures
        nearest_root(rounded_root(x, p), x, p),
{
    let r = lemma_nearest_root_exists(infinity(p), x, p);
    assert(nearest_root(r, x, p));
}

/// The search from `limit` down: everything above it lies past the root.
proof fn lemma_nearest_root_exists(limit: nat, x: nat, p: u32) -> (r: nat)
    requires
        is_format(p),
        limit <= infinity(p),
        limit < infinity(p) ==> {
            let sum = points(limit, p) + points(limit + 1, p);
            4 * x < sum * sum || (4 * x == sum * sum && limit % 2 == 0)
        },
    ensures
        nearest_root(r, x, p),
    decreases limit,
{
    if limit == 0 {
        0
    } else {
        let below = (limit - 1) as nat;
        let sum = points(below, p) + points(limit, p);
        if 4 * x > sum * sum || (4 * x == sum * sum && limit % 2 == 0) {
            limit
        } else {
            lemma_nearest_root_exists(below, x, p)
        }
    }
}

/// A root does not pass a magnitude whose square the value does not pass.
pub proof fn lemma_root_at_most(x: nat, r: nat, p: u32)
    requires
        is_format(p),
        x <= points(r, p) * points(r, p),
    ensures
        rounded_root(x, p) <= r,
{
    let q = rounded_root(x, p);
    lemma_rounded_root_is_nearest(x, p);
    if q > r {
        let c = (q - 1) as nat;
        lemma_points_order(r, c, p);
        lemma_points_increase(r, q, p);
        let y = points(r, p);
        let sum = points(c, p) + points(q, p);
        assert(sum * sum > 4 * (y * y)) by (nonlinear_arith)
            requires
                sum >= 2 * y + 1,
        ;
    }
}

} // verus!
