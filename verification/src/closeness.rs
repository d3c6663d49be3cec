//! Values that are equal up to a number of roundings.
use crate::bounds::{lemma_rounded_grows, lemma_rounded_shrinks};
use crate::ieee::{
    infinity, leading, lemma_leading, lemma_rounded_at_least, lemma_rounded_is_nearest,
    one_in_points, points, rounded, SINGLE,
};
use crate::levels::{grown, lemma_grown, ungrown};
use crate::parts::lemma_zero_points;
use crate::single::{lemma_whole_level, whole, Single};
use vstd::arithmetic::power::{lemma_pow_adds, pow};
use vstd::arithmetic::power2::lemma_pow2_pos;
use vstd::prelude::*;

verus! {

/// A value is not above another, up to `k` roundings of one part in two to the power of 24 each.
pub open spec fn at_most_about(a: int, b: int, k: nat) -> bool {
    a * ungrown(k) <= b * grown(k)
}

/// Two values are equal, up to `k` roundings of one part in two to the power of 24 each.
pub open spec fn about(a: int, b: int, k: nat) -> bool {
    at_most_about(a, b, k) && at_most_about(b, a, k)
}

/// What is not above is not above up to any number of roundings.
pub proof fn lemma_at_most_exact(a: int, b: int, k: nat)
    requires
        a <= b,
        0 <= b,
    ensures
        at_most_about(a, b, k),
{
    lemma_grown(k);
    let u = ungrown(k);
    let g = grown(k);
    assert(a * u <= b * g) by (nonlinear_arith)
        requires
            a <= b,
            0 <= b,
            0 < u <= g,
    ;
}

/// Roundings add up.
pub proof fn lemma_at_most_chain(a: int, b: int, c: int, j: nat, k: nat)
    requires
        at_most_about(a, b, j),
        at_most_about(b, c, k),
    ensures
        at_most_about(a, c, j + k),
{
    reveal(pow);
    lemma_pow_adds(0x100_0000, j, k);
    lemma_pow_adds(0x100_0001, j, k);
    lemma_grown(j);
    lemma_grown(k);
    let (u, v, g, h) = (ungrown(j), ungrown(k), grown(j), grown(k));
    assert((a * u) * v <= (b * g) * v) by (nonlinear_arith)
        requires
            a * u <= b * g,
            v > 0,
    ;
    assert((b * v) * g <= (c * h) * g) by (nonlinear_arith)
        requires
            b * v <= c * h,
            g > 0,
    ;
    assert((b * g) * v == (b * v) * g) by (nonlinear_arith);
    assert((a * u) * v == a * (u * v)) by (nonlinear_arith);
    assert((c * h) * g == c * (g * h)) by (nonlinear_arith);
}

/// Equal up to roundings, and so on.
pub proof fn lemma_about_chain(a: int, b: int, c: int, j: nat, k: nat)
    requires
        about(a, b, j),
        about(b, c, k),
    ensures
        about(a, c, j + k),
{
    lemma_at_most_chain(a, b, c, j, k);
    lemma_at_most_chain(c, b, a, k, j);
}

/// Both sides times a factor.
pub proof fn lemma_at_most_scale(a: int, b: int, c: int, k: nat)
    requires
        at_most_about(a, b, k),
        c >= 0,
    ensures
        at_most_about(a * c, b * c, k),
{
    let (u, g) = (ungrown(k), grown(k));
    assert((a * c) * u <= (b * c) * g) by (nonlinear_arith)
        requires
            a * u <= b * g,
            c >= 0,
    ;
}

/// Both sides times a factor.
pub proof fn lemma_about_scale(a: int, b: int, c: int, k: nat)
    requires
        about(a, b, k),
        c >= 0,
    ensures
        about(a * c, b * c, k),
{
    lemma_at_most_scale(a, b, c, k);
    lemma_at_most_scale(b, a, c, k);
}

/// A factor of both sides taken away.
pub proof fn lemma_at_most_cancel(a: int, b: int, c: int, k: nat)
    requires
        at_most_about(a * c, b * c, k),
        c > 0,
    ensures
        at_most_about(a, b, k),
{
    let (u, g) = (ungrown(k), grown(k));
    assert(a * u <= b * g) by (nonlinear_arith)
        requires
            (a * c) * u <= (b * c) * g,
            c > 0,
    ;
}

/// A factor of both sides taken away.
pub proof fn lemma_about_cancel(a: int, b: int, c: int, k: nat)
    requires
        about(a * c, b * c, k),
        c > 0,
    ensures
        about(a, b, k),
{
    lemma_at_most_cancel(a, b, c, k);
    lemma_at_most_cancel(b, a, c, k);
}

/// More roundings allow no less.
pub proof fn lemma_at_most_weaken(a: int, b: int, j: nat, k: nat)
    requires
        at_most_about(a, b, j),
        j <= k,
        0 <= b,
    ensures
        at_most_about(a, b, k),
{
    lemma_at_most_exact(b, b, (k - j) as nat);
    lemma_at_most_chain(a, b, b, j, (k - j) as nat);
}

/// More roundings allow no less.
pub proof fn lemma_about_weaken(a: int, b: int, j: nat, k: nat)
    requires
        about(a, b, j),
        j <= k,
        0 <= a,
        0 <= b,
    ensures
        about(a, b, k),
{
    lemma_at_most_weaken(a, b, j, k);
    lemma_at_most_weaken(b, a, j, k);
}

/// A value is itself.
pub proof fn lemma_about_itself(a: int, k: nat)
    requires
        0 <= a,
    ensures
        about(a, a, k),
{
    lemma_at_most_exact(a, a, k);
}

/// A normal value that is rounded to a finite one is about itself.
pub proof fn lemma_rounded_about(num: nat, den: nat)
    requires
        den > 0,
        num >= leading(SINGLE) * den,
        rounded(num, den, SINGLE) < infinity(SINGLE),
    ensures
        about((points(rounded(num, den, SINGLE), SINGLE) * den) as int, num as int, 1),
{
    let h = leading(SINGLE);
    lemma_leading(SINGLE);
    lemma_grown(0);
    crate::bounds::lemma_small_points(h, SINGLE);
    lemma_rounded_at_least(num, den, h, SINGLE);
    lemma_rounded_grows(num, den, SINGLE);
    lemma_rounded_shrinks(num, den, SINGLE);
    let x = points(rounded(num, den, SINGLE), SINGLE) * den;
    assert(2 * h == 0x100_0000);
    assert(ungrown(1) == 0x100_0000 && grown(1) == 0x100_0001);
}

/// A whole number as a single is about itself.
pub proof fn lemma_whole_about(n: nat)
    requires
        0 < n <= 0x1_0000_0000_0000_0000,
    ensures
        about(points(whole(n).bits as nat, SINGLE) as int, (n * one_in_points(SINGLE)) as int, 1),
        points(whole(n).bits as nat, SINGLE) > 0,
        0 < whole(n).bits <= 0x5f80_0000,
{
    reveal(whole);
    let one = one_in_points(SINGLE);
    lemma_leading(SINGLE);
    lemma_whole_level(n);
    lemma_rounded_is_nearest(n * one, 1, SINGLE);
    lemma_one_is_normal();
    assert(n * one >= leading(SINGLE) * 1) by (nonlinear_arith)
        requires
            n >= 1,
            one >= leading(SINGLE),
    ;
    lemma_rounded_about(n * one, 1);
    lemma_zero_points(whole(n).bits as nat, SINGLE);
}

/// One is far above the first normal value.
pub proof fn lemma_one_is_normal()
    ensures
        one_in_points(SINGLE) >= leading(SINGLE) * leading(SINGLE),
        one_in_points(SINGLE) >= leading(SINGLE) > 0,
        leading(SINGLE) == 0x80_0000,
{
    lemma_leading(SINGLE);
    vstd::arithmetic::power2::lemma_pow2_adds(23, 23);
    vstd::arithmetic::power2::lemma_pow2_strictly_increases(46, 149);
    assert(0x80_0000nat * 0x80_0000 >= 0x80_0000) by (nonlinear_arith);
}

/// A product of finite levels is about the exact product, where that is normal and finite.
pub proof fn lemma_product_about(a: Single, b: Single)
    requires
        a.bits < 0x7f80_0000,
        b.bits < 0x7f80_0000,
        a.times(b).bits < 0x7f80_0000,
        points(a.bits as nat, SINGLE) * points(b.bits as nat, SINGLE) >= leading(SINGLE)
            * one_in_points(SINGLE),
    ensures
        about(
            (points(a.times(b).bits as nat, SINGLE) * one_in_points(SINGLE)) as int,
            (points(a.bits as nat, SINGLE) * points(b.bits as nat, SINGLE)) as int,
            1,
        ),
{
    reveal(Single::spec_times);
    lemma_pow2_pos(149);
    let num = points(a.bits as nat, SINGLE) * points(b.bits as nat, SINGLE);
    lemma_rounded_is_nearest(num, one_in_points(SINGLE), SINGLE);
    lemma_rounded_about(num, one_in_points(SINGLE));
}

/// A quotient of finite levels is about the exact quotient, where that is normal and finite.
pub proof fn lemma_quotient_about(a: Single, b: Single)
    requires
        a.bits < 0x7f80_0000,
        0 < b.bits < 0x7f80_0000,
        a.over(b).bits < 0x7f80_0000,
        points(a.bits as nat, SINGLE) * one_in_points(SINGLE) >= leading(SINGLE) * points(
            b.bits as nat,
            SINGLE,
        ),
    ensures
        about(
            (points(a.over(b).bits as nat, SINGLE) * points(b.bits as nat, SINGLE)) as int,
            (points(a.bits as nat, SINGLE) * one_in_points(SINGLE)) as int,
            1,
        ),
{
    reveal(Single::spec_over);
    lemma_zero_points(b.bits as nat, SINGLE);
    let num = points(a.bits as nat, SINGLE) * one_in_points(SINGLE);
    let den = points(b.bits as nat, SINGLE);
    lemma_rounded_is_nearest(num, den, SINGLE);
    lemma_rounded_about(num, den);
}

} // verus!
