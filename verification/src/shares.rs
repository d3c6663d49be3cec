//! Shares of a width, and sums in order.
use crate::bounds::{lemma_points_order, lemma_rounded_order, lemma_small_points};
use crate::closeness::{
    about, lemma_about_chain, lemma_about_itself, lemma_about_scale, lemma_one_is_normal,
    lemma_quotient_about, lemma_rounded_about,
};
use crate::ieee::{
    leading, lemma_leading, lemma_power_magnitude, lemma_rounded_at_most, lemma_rounded_is_nearest,
    lemma_rounded_points, one_in_points, points, rounded, SINGLE,
};
use crate::levels::{grown, lemma_grown, size, ungrown};
use crate::parts::lemma_zero_points;
use crate::single::{is_finite, lemma_level_order, lemma_one_times, Single};
use crate::waveform::unit;
use vstd::arithmetic::power2::{lemma_pow2_adds, lemma_pow2_pos, lemma_pow2_strictly_increases};
use vstd::prelude::*;

verus! {

/// One value lies within a width from another, and not too near it to be told apart.
pub open spec fn is_share_of(x: Single, left: Single, width: Single) -> bool {
    &&& is_finite(x)
    &&& is_finite(left)
    &&& 0 < width.bits < 0x7f80_0000
    &&& 0 <= x.value() - left.value() <= width.value()
    &&& (x.value() - left.value()) * 0x100_0000 >= width.value()
    &&& width.value() >= 0x100_0000
}

/// A difference of finite values that is positive.
pub proof fn lemma_difference(x: Single, left: Single)
    requires
        is_finite(x),
        is_finite(left),
        0 < x.value() - left.value(),
    ensures
        x.minus(left).bits == rounded((x.value() - left.value()) as nat, 1, SINGLE),
        x.minus(left).is_level(),
        x.minus(left).bits < 0x7f80_0000 ==> about(
            points(x.minus(left).bits as nat, SINGLE) as int,
            x.value() - left.value(),
            1,
        ),
{
    reveal(Single::spec_minus);
    reveal(Single::spec_plus);
    reveal(Single::spec_negated);
    let b = left.negated();
    assert(b.parts().magnitude == left.parts().magnitude);
    assert(b.parts().negative != left.parts().negative);
    let exact = (x.value() - left.value()) as nat;
    assert(x.value() + b.value() == exact);
    lemma_rounded_is_nearest(exact, 1, SINGLE);
    let way = x.minus(left);
    let h = leading(SINGLE);
    lemma_leading(SINGLE);
    if way.bits < 0x7f80_0000 {
        let p = points(way.bits as nat, SINGLE);
        if exact >= h {
            lemma_rounded_about(exact, 1);
            assert(points(rounded(exact, 1, SINGLE), SINGLE) * 1 == p);
        } else {
            lemma_small_points(exact, SINGLE);
            lemma_rounded_points(exact, 1, SINGLE);
            assert(exact * 1 == exact);
            lemma_about_itself(exact as int, 1);
        }
    }
}

/// The share that a difference has of a width: at most one, and up to two roundings the exact
/// share.
pub proof fn lemma_share_about(x: Single, left: Single, width: Single)
    requires
        is_share_of(x, left, width),
    ensures
        ({
            let share = x.minus(left).over(width);
            &&& share.bits <= Single::one().bits
            &&& unit(share) == share
            &&& about(
                (size(share) * size(width)) as int,
                (x.value() - left.value()) * one_in_points(SINGLE),
                2,
            )
            &&& points(share.bits as nat, SINGLE) * 0x800_0000 >= one_in_points(SINGLE)
        }),
{
    let one = one_in_points(SINGLE);
    let way = x.minus(left);
    let share = way.over(width);
    let exact = (x.value() - left.value()) as nat;
    reveal(Single::spec_abs);
    lemma_pow2_pos(149);
    lemma_one_is_normal();
    lemma_leading(SINGLE);
    lemma_power_magnitude(0, 0x3f80_0000, SINGLE);
    vstd::arithmetic::power2::lemma2_to64();
    vstd::arithmetic::power2::lemma2_to64_rest();
    let w = points(width.bits as nat, SINGLE);
    let h = leading(SINGLE);
    lemma_difference(x, left);
    lemma_rounded_at_most(exact, 1, width.bits as nat, SINGLE);
    let p = points(way.bits as nat, SINGLE);
    lemma_grown(0);
    assert(ungrown(1) == 0x100_0000 && grown(1) == 0x100_0001);
    assert(2 * p >= exact);
    lemma_points_order(way.bits as nat, width.bits as nat, SINGLE);
    lemma_pow2_adds(23, 50);
    lemma_pow2_strictly_increases(73, 149);
    assert(one >= h * 0x4_0000_0000_0000);
    assert(p * 0x200_0000 >= w);
    assert(p * one >= h * w) by (nonlinear_arith)
        requires
            p * 0x200_0000 >= w,
            one >= h * 0x4_0000_0000_0000,
    ;
    assert(share.bits <= Single::one().bits) by {
        reveal(Single::spec_over);
        lemma_zero_points(width.bits as nat, SINGLE);
        lemma_rounded_is_nearest(p * one, w, SINGLE);
        assert(p * one <= points(0x3f80_0000, SINGLE) * w) by (nonlinear_arith)
            requires
                p <= w,
                points(0x3f80_0000, SINGLE) == 1 * one,
        ;
        lemma_rounded_at_most(p * one, w, 0x3f80_0000, SINGLE);
    }
    lemma_level_order(share, Single::zero());
    lemma_level_order(Single::one(), share);
    lemma_quotient_about(way, width);
    let q = points(share.bits as nat, SINGLE);
    lemma_about_scale(p as int, exact as int, one as int, 1);
    lemma_about_chain((q * w) as int, (p * one) as int, (exact * one) as int, 1, 1);
    assert(2 * (q * w) >= p * one);
    assert(q * 0x800_0000 >= one) by (nonlinear_arith)
        requires
            2 * (q * w) >= p * one,
            p * 0x200_0000 >= w,
            w > 0,
    ;
}

/// Products do not depend on the order.
pub proof fn lemma_times_commutes(a: Single, b: Single)
    ensures
        a.times(b) == b.times(a),
{
    reveal(Single::spec_times);
    let x = points(a.parts().magnitude as nat, SINGLE);
    let y = points(b.parts().magnitude as nat, SINGLE);
    assert(x * y == y * x) by (nonlinear_arith);
}

/// A finite level times one is that level.
pub proof fn lemma_times_one(a: Single)
    requires
        a.bits < 0x7f80_0000,
    ensures
        a.times(Single::one()) == a,
{
    lemma_times_commutes(a, Single::one());
    lemma_one_times(a);
}

/// Adding more to a value gives no less.
pub proof fn lemma_plus_order(a: Single, b: Single, c: Single)
    requires
        is_finite(a),
        is_finite(b),
        is_finite(c),
        b.value() <= c.value(),
    ensures
        a.plus(b).at_most(a.plus(c)),
{
    reveal(Single::spec_plus);
    reveal(Single::spec_at_most);
    lemma_zero_points(0, SINGLE);
    let (s, t) = (a.value() + b.value(), a.value() + c.value());
    let x: nat = if s >= 0 {
        s as nat
    } else {
        (-s) as nat
    };
    let y: nat = if t >= 0 {
        t as nat
    } else {
        (-t) as nat
    };
    lemma_rounded_is_nearest(x, 1, SINGLE);
    lemma_rounded_is_nearest(y, 1, SINGLE);
    let (m, n) = (rounded(x, 1, SINGLE), rounded(y, 1, SINGLE));
    let (p, q) = (a.plus(b), a.plus(c));
    assert(p.parts().magnitude == if s == 0 { 0 } else { m });
    assert(q.parts().magnitude == if t == 0 { 0 } else { n });
    if s >= 0 {
        lemma_rounded_order(x, y, 1, SINGLE);
        lemma_points_order(m, n, SINGLE);
    } else if t <= 0 {
        lemma_rounded_order(y, x, 1, SINGLE);
        lemma_points_order(n, m, SINGLE);
    }
    lemma_zero_points(m, SINGLE);
    lemma_zero_points(n, SINGLE);
}

} // verus!
