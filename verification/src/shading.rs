//! What the colors of levels and bands show.
use crate::bounds::lemma_points_order;
use crate::closeness::{
    about, lemma_about_cancel, lemma_about_chain, lemma_about_scale, lemma_about_weaken,
    lemma_one_is_normal, lemma_product_about, lemma_quotient_about, lemma_rounded_about,
};
use crate::color::{
    between, brightness, byte, color_of_bands, color_of_level, mixed, BandLevels, Color,
    ADDED_BRIGHTNESS, BRIGHTEST, LEAST_BRIGHTNESS, LEAST_DOMINANT, UNPLAYED_SHARE,
};
use crate::frequencies::lemma_small_whole;
use crate::ieee::{
    leading, lemma_compose, lemma_leading, lemma_power_magnitude, lemma_rounded_at_least,
    lemma_rounded_at_most, lemma_rounded_is_nearest, lemma_rounded_points, one_in_points, points,
    rounded, SINGLE,
};
use crate::levels::{grown, lemma_grown, size, ungrown};
use crate::mixing::{distance, lemma_rounding_distance};
use crate::output::lemma_difference_reversed;
use crate::parts::lemma_zero_points;
use crate::rms::lemma_about_sum;
use crate::seeking::lemma_round_to_word;
use crate::shares::{lemma_difference, lemma_times_commutes};
use crate::single::{
    is_share, lemma_clamp_share, lemma_level_order, lemma_minus_itself, lemma_negated_times,
    lemma_share_bits, lemma_times_at_most, lemma_times_order, lemma_to_word_order, lemma_zero_times,
    whole, Single,
};
use crate::waveform::unit;
use vstd::arithmetic::power2::{
    lemma_pow2_adds, lemma_pow2_pos, lemma_pow2_strictly_increases, pow2,
};
use vstd::prelude::*;

verus! {

/// A value lies as far between two others as a share says: at the nearest whole number, up to one
/// part in four thousand of the step between whole numbers.
pub open spec fn is_mix(shown: u8, x: u8, y: u8, t: Single) -> bool {
    let one = one_in_points(SINGLE) as int;
    distance(shown * one, x * one + (y - x) * t.value()) * 8192 <= 4097 * one
}

/// The difference of two small whole numbers.
proof fn lemma_whole_difference(x: u8, y: u8)
    requires
        x <= y,
    ensures
        whole(y as nat).minus(whole(x as nat)) == whole((y - x) as nat),
{
    let one = one_in_points(SINGLE);
    lemma_small_whole(x as nat);
    lemma_small_whole(y as nat);
    lemma_small_whole((y - x) as nat);
    let (a, b) = (whole(y as nat), whole(x as nat));
    if x == y {
        lemma_minus_itself(a);
        crate::single::lemma_whole_zero();
    } else {
        let d = (y - x) as nat;
        lemma_pow2_pos(149);
        assert(y * one - x * one == d * one && d * one > 0) by (nonlinear_arith)
            requires
                d == y - x,
                d > 0,
                one > 0,
        ;
        lemma_difference(a, b);
        lemma_rounded_points(whole(d).bits as nat, 1, SINGLE);
        assert(points(whole(d).bits as nat, SINGLE) * 1 == d * one);
    }
}

/// The way from one value towards another, times a share.
proof fn lemma_mix_step(x: u8, y: u8, t: Single)
    requires
        t.bits <= Single::one().bits,
    ensures
        ({
            let part = whole(y as nat).minus(whole(x as nat)).times(t);
            let s = points(part.parts().magnitude as nat, SINGLE) as int;
            let way = distance(x as int, y as int) * t.value();
            &&& part.parts().magnitude < 0x7f80_0000
            &&& s <= distance(x as int, y as int) * one_in_points(SINGLE)
            &&& part.value() == if x <= y { s } else { -s }
            &&& distance(s, way) * 0x100_0000 <= 2 * way + 0x100_0000
            &&& 0 <= way <= 255 * one_in_points(SINGLE)
        }),
{
    let one = one_in_points(SINGLE);
    let (low, high) = if x <= y {
        (x, y)
    } else {
        (y, x)
    };
    let d = (high - low) as nat;
    let span = whole(d);
    lemma_pow2_pos(149);
    lemma_leading(SINGLE);
    lemma_power_magnitude(0, 0x3f80_0000, SINGLE);
    vstd::arithmetic::power2::lemma2_to64();
    lemma_whole_difference(low, high);
    lemma_small_whole(x as nat);
    lemma_small_whole(y as nat);
    lemma_small_whole(d);
    lemma_points_order(t.bits as nat, 0x3f80_0000, SINGLE);
    let tt = points(t.bits as nat, SINGLE);
    let step = span.times(t);
    lemma_times_at_most(span, t);
    lemma_points_order(step.bits as nat, span.bits as nat, SINGLE);
    let s = points(step.bits as nat, SINGLE);
    let ds = d * one;
    assert(step.bits == rounded(ds * tt, one, SINGLE)) by {
        reveal(Single::spec_times);
        lemma_rounded_is_nearest(ds * tt, one, SINGLE);
    }
    lemma_rounding_distance(ds * tt, one);
    let way = d * tt;
    assert(ds * tt == way * one) by (nonlinear_arith)
        requires
            ds == d * one,
            way == d * tt,
    ;
    assert(distance(s as int, way as int) * 0x100_0000 <= 2 * way + 0x100_0000) by (nonlinear_arith)
        requires
            distance((s * one) as int, (way * one) as int) * 0x100_0000 <= 2 * (way * one)
                + 0x100_0000 * one,
            one > 0,
    ;
    assert(way <= 255 * one) by (nonlinear_arith)
        requires
            way == d * tt,
            d <= 255,
            tt <= one,
    ;
    let diff = whole(y as nat).minus(whole(x as nat));
    let part = diff.times(t);
    lemma_zero_points(0, SINGLE);
    if x > y {
        assert(x * one > y * one) by (nonlinear_arith)
            requires
                x > y,
                one > 0,
        ;
        lemma_difference_reversed(whole(y as nat), whole(x as nat));
        assert(diff == span.negated());
        reveal(Single::spec_negated);
        if t.bits > 0 {
            lemma_negated_times(span, t);
            assert(part == step.negated());
        } else {
            lemma_times_commutes(span, t);
            lemma_zero_times(span);
            reveal(Single::spec_times);
            let z = points(diff.parts().magnitude as nat, SINGLE);
            assert(z * 0 == 0);
            lemma_rounded_at_most(0, one, 0, SINGLE);
            assert(part.parts().magnitude == 0);
            assert(step.bits == 0);
        }
    }
}

/// A mix lies between its ends, as far as the share says.
proof fn lemma_mix(x: u8, y: u8, t: Single)
    requires
        t.bits <= Single::one().bits,
    ensures
        is_mix(mixed(x, y, t), x, y, t),
        x <= y ==> x <= mixed(x, y, t) <= y,
        y <= x ==> y <= mixed(x, y, t) <= x,
{
    let one = one_in_points(SINGLE) as int;
    let (low, high) = if x <= y {
        (x, y)
    } else {
        (y, x)
    };
    let d = high - low;
    let from = whole(x as nat);
    lemma_mix_step(x, y, t);
    lemma_pow2_pos(149);
    lemma_one_is_normal();
    lemma_small_whole(x as nat);
    lemma_small_whole(high as nat);
    lemma_small_whole(low as nat);
    let part = whole(y as nat).minus(from).times(t);
    let sum = from.plus(part);
    let exact = x * one + part.value();
    assert(high * one == low * one + d * one) by (nonlinear_arith)
        requires
            d == high - low,
    ;
    assert(0 <= low * one && high * one <= 255 * one) by (nonlinear_arith)
        requires
            0 <= low,
            high <= 255,
            one > 0,
    ;
    assert(low * one <= exact <= high * one);
    let e = exact as nat;
    lemma_zero_points(0, SINGLE);
    assert(sum.bits == if e == 0 { 0 } else { rounded(e, 1, SINGLE) }) by {
        reveal(Single::spec_plus);
        lemma_rounded_is_nearest(e, 1, SINGLE);
    }
    lemma_rounded_at_most(e, 1, whole(high as nat).bits as nat, SINGLE);
    lemma_rounded_at_least(e, 1, whole(low as nat).bits as nat, SINGLE);
    assert(rounded(0, 1, SINGLE) == 0) by {
        lemma_rounded_at_most(0, 1, 0, SINGLE);
    }
    assert(sum.bits == rounded(e, 1, SINGLE));
    lemma_leading(SINGLE);
    lemma_rounding_distance(e, 1);
    let p = points(sum.bits as nat, SINGLE) as int;
    lemma_points_order(sum.bits as nat, whole(high as nat).bits as nat, SINGLE);
    lemma_points_order(whole(low as nat).bits as nat, sum.bits as nat, SINGLE);
    lemma_round_to_word(sum);
    let r = sum.round_to_word() as int;
    lemma_nearest_between(r, p, one, low as int, high as int);
    assert(mixed(x, y, t) == r);
    let way = distance(x as int, y as int) * t.value();
    assert((y - x) * t.value() == if x <= y { way } else { -way }) by (nonlinear_arith)
        requires
            way == distance(x as int, y as int) * t.value(),
    ;
    assert(one >= 0x4000_0000_0000) by {
        assert(0x80_0000nat * 0x80_0000 == 0x4000_0000_0000) by (nonlinear_arith);
    }
    assert(2 * distance(r * one, p) <= one);
    assert(distance(p, exact) * 0x100_0000 <= 2 * exact);
    assert(distance(exact, x * one + (y - x) * t.value()) * 0x100_0000 <= 2 * way + 0x100_0000);
}

/// A whole number that is nearest to a value between two others lies between them.
proof fn lemma_nearest_between(r: int, p: int, one: int, low: int, high: int)
    requires
        (2 * r - 1) * one <= 2 * p,
        r < u64::MAX ==> 2 * p < (2 * r + 1) * one,
        low * one <= p <= high * one,
        0 <= r <= u64::MAX,
        high <= 255,
        one > 0,
    ensures
        low <= r <= high,
        2 * distance(r * one, p) <= one,
{
    assert((2 * r - 1) * one == 2 * (r * one) - one && (2 * r + 1) * one == 2 * (r * one) + one)
        by (nonlinear_arith);
    assert(r <= high) by (nonlinear_arith)
        requires
            (2 * r - 1) * one <= 2 * (high * one),
            one > 0,
    ;
    assert(low <= r) by (nonlinear_arith)
        requires
            2 * (low * one) < (2 * r + 1) * one,
            one > 0,
    ;
}

/// Mixing two colors mixes each of their channels, and stays between them; nothing of the way
/// leaves the first color, the whole way gives the second.
pub proof fn law_colors_mix(a: Color, b: Color, t: Single)
    requires
        t.bits <= Single::one().bits,
    ensures
        ({
            let c = between(a, b, t);
            &&& is_mix(c.r, a.r, b.r, t)
            &&& is_mix(c.g, a.g, b.g, t)
            &&& is_mix(c.b, a.b, b.b, t)
        }),
        between(a, b, Single::zero()) == a,
        between(a, b, Single::one()) == b,
{
    lemma_level_order(t, Single::zero());
    lemma_level_order(Single::one(), t);
    lemma_level_order(Single::one(), Single::zero());
    lemma_level_order(Single::one(), Single::one());
    lemma_level_order(Single::zero(), Single::zero());
    lemma_mix(a.r, b.r, t);
    lemma_mix(a.g, b.g, t);
    lemma_mix(a.b, b.b, t);
    lemma_mix_ends(a.r, b.r);
    lemma_mix_ends(a.g, b.g);
    lemma_mix_ends(a.b, b.b);
}

/// The ends of a mix.
proof fn lemma_mix_ends(x: u8, y: u8)
    ensures
        mixed(x, y, Single::zero()) == x,
        mixed(x, y, Single::one()) == y,
{
    let one = one_in_points(SINGLE) as int;
    lemma_pow2_pos(149);
    lemma_leading(SINGLE);
    lemma_zero_points(0, SINGLE);
    lemma_power_magnitude(0, 0x3f80_0000, SINGLE);
    vstd::arithmetic::power2::lemma2_to64();
    lemma_mix(x, y, Single::zero());
    lemma_mix(x, y, Single::one());
    let (m, n) = (mixed(x, y, Single::zero()) as int, mixed(x, y, Single::one()) as int);
    assert((y - x) * 0 == 0);
    assert((y - x) * one == y * one - x * one) by (nonlinear_arith);
    let (a, b) = (x as int, y as int);
    assert(m == a) by (nonlinear_arith)
        requires
            distance(m * one, a * one) * 8192 <= 4097 * one,
            one > 0,
    ;
    assert(n == b) by (nonlinear_arith)
        requires
            distance(n * one, b * one) * 8192 <= 4097 * one,
            one > 0,
    ;
}

/// The loudest band is what the balance is measured against: no band passes it, and it is one of
/// them where it is not faint. Each band's balance is its share of the loudest, up to one rounding.
pub proof fn law_balance_is_against_the_loudest(levels: BandLevels)
    requires
        levels.low.bits <= Single::one().bits,
        levels.mid.bits <= Single::one().bits,
        levels.high.bits <= Single::one().bits,
    ensures
        ({
            let top = levels.dominant();
            let faint = Single { bits: LEAST_DOMINANT };
            &&& levels.low.at_most(top) && levels.mid.at_most(top) && levels.high.at_most(top)
            &&& top == faint || top == levels.low || top == levels.mid || top == levels.high
            &&& faint.at_most(top)
            &&& is_balance(levels.balance().low, levels.low, top)
            &&& is_balance(levels.balance().mid, levels.mid, top)
            &&& is_balance(levels.balance().high, levels.high, top)
        }),
{
    let faint = Single { bits: LEAST_DOMINANT };
    let (a, b, c) = (levels.low, levels.mid, levels.high);
    lemma_level_order(a, b);
    let m = a.max(b);
    lemma_level_order(m, c);
    let n = m.max(c);
    lemma_level_order(n, faint);
    let top = n.max(faint);
    assert(top == levels.dominant());
    lemma_level_order(a, top);
    lemma_level_order(b, top);
    lemma_level_order(c, top);
    lemma_level_order(faint, top);
    lemma_balance(a, top);
    lemma_balance(b, top);
    lemma_balance(c, top);
}

/// A value is the share that a level has of a top.
pub open spec fn is_balance(share: Single, level: Single, top: Single) -> bool {
    &&& level == top ==> share == Single::one()
    &&& level.bits == 0 ==> share == Single::zero()
    &&& level.bits >= 0x2000_0000 ==> about(
        (size(share) * size(top)) as int,
        (size(level) * one_in_points(SINGLE)) as int,
        1,
    )
}

proof fn lemma_balance(level: Single, top: Single)
    requires
        level.bits <= top.bits <= Single::one().bits,
        top.bits > 0,
    ensures
        is_balance(level.over(top), level, top),
{
    let share = level.over(top);
    let one = one_in_points(SINGLE);
    reveal(Single::spec_abs);
    if level == top {
        crate::single::lemma_over_itself(top);
    }
    if level.bits == 0 {
        crate::single::lemma_zero_over(top);
    }
    if level.bits >= 0x2000_0000 {
        lemma_leading(SINGLE);
        lemma_pow2_pos(149);
        lemma_power_magnitude(0, 0x3f80_0000, SINGLE);
        vstd::arithmetic::power2::lemma2_to64();
        let h = leading(SINGLE);
        crate::ieee::lemma_compose(h, 63, SINGLE);
        assert(h + h * 63 == 0x2000_0000);
        lemma_points_order(0x2000_0000, level.bits as nat, SINGLE);
        lemma_points_order(top.bits as nat, 0x3f80_0000, SINGLE);
        vstd::arithmetic::power2::lemma_pow2_pos(63);
        let (x, y) = (points(level.bits as nat, SINGLE), points(top.bits as nat, SINGLE));
        let f = vstd::arithmetic::power2::pow2(63);
        assert(x >= h) by (nonlinear_arith)
            requires
                x >= h * f,
                f >= 1,
        ;
        assert(x * one >= h * y) by (nonlinear_arith)
            requires
                x >= h,
                y <= one,
        ;
        crate::single::lemma_over_order(level, top, top);
        crate::single::lemma_over_itself(top);
        lemma_quotient_about(level, top);
    }
}

/// Each band has a channel of its own: the low one red, the middle one green, the high one blue. A
/// band without a shade leaves its channel dark, equal shades give equal channels, and a stronger
/// shade gives no darker channel. What has not played is not brighter than what has.
pub proof fn law_bands_have_their_own_channels(levels: BandLevels, shades: BandLevels, played: bool)
    requires
        levels.low.bits <= Single::one().bits,
        levels.mid.bits <= Single::one().bits,
        levels.high.bits <= Single::one().bits,
        shades.low.bits <= Single::one().bits,
        shades.mid.bits <= Single::one().bits,
        shades.high.bits <= Single::one().bits,
    ensures
        ({
            let c = color_of_bands(levels, shades, played);
            let dim = color_of_bands(levels, shades, false);
            let lit = color_of_bands(levels, shades, true);
            &&& shades.low.bits == 0 ==> c.r == 0
            &&& shades.mid.bits == 0 ==> c.g == 0
            &&& shades.high.bits == 0 ==> c.b == 0
            &&& shades.low.at_most(shades.mid) ==> c.r <= c.g
            &&& shades.mid.at_most(shades.low) ==> c.g <= c.r
            &&& shades.mid.at_most(shades.high) ==> c.g <= c.b
            &&& shades.high.at_most(shades.mid) ==> c.b <= c.g
            &&& shades.low.at_most(shades.high) ==> c.r <= c.b
            &&& shades.high.at_most(shades.low) ==> c.b <= c.r
            &&& dim.r <= lit.r && dim.g <= lit.g && dim.b <= lit.b
        }),
{
    let (x, y, z) = (shades.low, shades.mid, shades.high);
    let (dim, lit) = (brightness(levels, false), brightness(levels, true));
    lemma_brightness(levels);
    lemma_channel_order(x, y, dim);
    lemma_channel_order(x, y, lit);
    lemma_channel_order(y, x, dim);
    lemma_channel_order(y, x, lit);
    lemma_channel_order(y, z, dim);
    lemma_channel_order(y, z, lit);
    lemma_channel_order(z, y, dim);
    lemma_channel_order(z, y, lit);
    lemma_channel_order(x, z, dim);
    lemma_channel_order(x, z, lit);
    lemma_channel_order(z, x, dim);
    lemma_channel_order(z, x, lit);
    lemma_channel_light(x, dim, lit);
    lemma_channel_light(y, dim, lit);
    lemma_channel_light(z, dim, lit);
}

/// A channel from a shade and a brightness.
spec fn channel(shade: Single, scale: Single) -> u8 {
    byte(shade.times(scale).to_word())
}

proof fn lemma_channel_order(a: Single, b: Single, scale: Single)
    requires
        a.bits <= Single::one().bits,
        b.bits <= Single::one().bits,
        scale.bits < 0x7f80_0000,
    ensures
        a.at_most(b) ==> channel(a, scale) <= channel(b, scale),
        a.bits == 0 ==> channel(a, scale) == 0,
{
    lemma_level_order(a, b);
    if a.bits <= b.bits {
        lemma_times_order(a, b, scale);
        lemma_to_word_order(a.times(scale), b.times(scale));
    }
    if a.bits == 0 {
        lemma_zero_times(scale);
        crate::single::lemma_zero_to_word();
    }
}

proof fn lemma_channel_light(a: Single, dim: Single, lit: Single)
    requires
        a.bits <= Single::one().bits,
        dim.bits <= lit.bits < 0x7f80_0000,
    ensures
        channel(a, dim) <= channel(a, lit),
{
    lemma_times_commutes(a, dim);
    lemma_times_commutes(a, lit);
    lemma_times_order(dim, lit, a);
    lemma_to_word_order(a.times(dim), a.times(lit));
}

/// What has not played is not brighter than what has.
proof fn lemma_brightness(levels: BandLevels)
    requires
        levels.low.bits <= Single::one().bits,
        levels.mid.bits <= Single::one().bits,
        levels.high.bits <= Single::one().bits,
    ensures
        brightness(levels, false).bits <= brightness(levels, true).bits < 0x7f80_0000,
{
    let top = levels.dominant();
    law_balance_is_against_the_loudest(levels);
    lemma_level_order(top, Single::zero());
    lemma_level_order(Single::one(), top);
    assert(top.bits <= Single::one().bits);
    assert(unit(top) == top);
    let energy = top.sqrt();
    let one = one_in_points(SINGLE);
    lemma_leading(SINGLE);
    lemma_pow2_pos(149);
    lemma_power_magnitude(0, 0x3f80_0000, SINGLE);
    lemma_power_magnitude(1, 0x4000_0000, SINGLE);
    vstd::arithmetic::power2::lemma2_to64();
    lemma_points_order(top.bits as nat, 0x3f80_0000, SINGLE);
    assert(energy.bits <= Single::one().bits) by {
        reveal(Single::spec_sqrt);
        let m = points(top.bits as nat, SINGLE);
        assert(m * one <= points(0x3f80_0000, SINGLE) * points(0x3f80_0000, SINGLE))
            by (nonlinear_arith)
            requires
                m <= one,
                points(0x3f80_0000, SINGLE) == one,
        ;
        crate::bounds::lemma_root_at_most(m * one, 0x3f80_0000, SINGLE);
    }
    let least = Single { bits: LEAST_BRIGHTNESS };
    let added = (Single { bits: ADDED_BRIGHTNESS }).times(energy);
    lemma_times_at_most(Single { bits: ADDED_BRIGHTNESS }, energy);
    let lit = least.plus(added);
    assert(lit.bits <= 0x4000_0000) by {
        reveal(Single::spec_plus);
        lemma_points_order(LEAST_BRIGHTNESS as nat, 0x3f80_0000, SINGLE);
        lemma_points_order(added.bits as nat, 0x3f80_0000, SINGLE);
        let exact = points(LEAST_BRIGHTNESS as nat, SINGLE) + points(added.bits as nat, SINGLE);
        lemma_rounded_at_most(exact, 1, 0x4000_0000, SINGLE);
        lemma_rounded_is_nearest(exact, 1, SINGLE);
    }
    let share = Single { bits: UNPLAYED_SHARE };
    lemma_times_commutes(lit, share);
    lemma_times_commutes(lit, Single::one());
    lemma_times_order(share, Single::one(), lit);
    crate::shares::lemma_times_one(lit);
    let full = Single { bits: BRIGHTEST };
    lemma_times_commutes(full, lit.times(share));
    lemma_times_commutes(full, lit);
    lemma_times_order(lit.times(share), lit, full);
    assert(full.times(lit).bits < 0x7f80_0000) by {
        reveal(Single::spec_times);
        lemma_power_magnitude(8, 0x4380_0000, SINGLE);
        lemma_power_magnitude(9, 0x4400_0000, SINGLE);
        lemma_points_order(BRIGHTEST as nat, 0x4380_0000, SINGLE);
        lemma_points_order(lit.bits as nat, 0x4000_0000, SINGLE);
        let (u, v) = (points(BRIGHTEST as nat, SINGLE), points(lit.bits as nat, SINGLE));
        assert(u * v <= points(0x4400_0000, SINGLE) * one) by (nonlinear_arith)
            requires
                u <= 256 * one,
                v <= 2 * one,
                points(0x4400_0000, SINGLE) == 512 * one,
        ;
        lemma_rounded_at_most(u * v, one, 0x4400_0000, SINGLE);
        lemma_rounded_is_nearest(u * v, one, SINGLE);
    }
}

/// A constant of the brightness is its decimal fraction, up to one rounding.
pub(crate) proof fn lemma_brightness_constants()
    ensures
        about(
            (20 * points(LEAST_BRIGHTNESS as nat, SINGLE)) as int,
            (7 * one_in_points(SINGLE)) as int,
            1,
        ),
        about(
            (20 * points(ADDED_BRIGHTNESS as nat, SINGLE)) as int,
            (13 * one_in_points(SINGLE)) as int,
            1,
        ),
        about(
            (20 * points(UNPLAYED_SHARE as nat, SINGLE)) as int,
            (9 * one_in_points(SINGLE)) as int,
            1,
        ),
        points(BRIGHTEST as nat, SINGLE) == 255 * one_in_points(SINGLE),
        2 * points(ADDED_BRIGHTNESS as nat, SINGLE) >= one_in_points(SINGLE),
        4 * points(LEAST_BRIGHTNESS as nat, SINGLE) >= one_in_points(SINGLE),
        4 * points(UNPLAYED_SHARE as nat, SINGLE) >= one_in_points(SINGLE),
{
    let one = one_in_points(SINGLE);
    lemma_leading(SINGLE);
    lemma_pow2_adds(124, 25);
    lemma_pow2_adds(125, 24);
    lemma_pow2_adds(133, 16);
    lemma_pow2_pos(124);
    lemma_pow2_pos(125);
    vstd::arithmetic::power2::lemma2_to64();
    let (u, v, w) = (pow2(124), pow2(125), pow2(133));
    assert(points(LEAST_BRIGHTNESS as nat, SINGLE) == 0xb3_3333 * u);
    assert(points(ADDED_BRIGHTNESS as nat, SINGLE) == 0xa6_6666 * v);
    assert(points(UNPLAYED_SHARE as nat, SINGLE) == 0xe6_6666 * u);
    assert(points(BRIGHTEST as nat, SINGLE) == 0xff_0000 * w);
    assert(one == u * 0x200_0000 && one == v * 0x100_0000 && one == w * 0x1_0000);
    lemma_grown(0);
    assert(ungrown(1) == 0x100_0000 && grown(1) == 0x100_0001);
    assert((20 * (0xb3_3333 * u)) * 0x100_0000 <= (7 * (u * 0x200_0000)) * 0x100_0001
        && (7 * (u * 0x200_0000)) * 0x100_0000 <= (20 * (0xb3_3333 * u)) * 0x100_0001)
        by (nonlinear_arith);
    assert((20 * (0xa6_6666 * v)) * 0x100_0000 <= (13 * (v * 0x100_0000)) * 0x100_0001
        && (13 * (v * 0x100_0000)) * 0x100_0000 <= (20 * (0xa6_6666 * v)) * 0x100_0001)
        by (nonlinear_arith);
    assert((20 * (0xe6_6666 * u)) * 0x100_0000 <= (9 * (u * 0x200_0000)) * 0x100_0001
        && (9 * (u * 0x200_0000)) * 0x100_0000 <= (20 * (0xe6_6666 * u)) * 0x100_0001)
        by (nonlinear_arith);
}

/// A brightness that a level of a root `r` gives what has played: 255 times 0.35, and 0.65 for each
/// full root; what has not played has 0.45 of that. Up to a few roundings.
pub open spec fn is_brightness(shown: Single, r: nat, played: bool) -> bool {
    let one = one_in_points(SINGLE);
    if played {
        about((20 * size(shown)) as int, (255 * (7 * one + 13 * r)) as int, 4)
    } else {
        about((400 * size(shown)) as int, (2295 * (7 * one + 13 * r)) as int, 6)
    }
}

/// The louder the loudest band, the brighter the column: its brightness grows with the root of the
/// level.
#[verifier::rlimit(40)]
pub proof fn law_brightness_follows_the_root(levels: BandLevels, played: bool)
    requires
        levels.low.bits <= Single::one().bits,
        levels.mid.bits <= Single::one().bits,
        levels.high.bits <= Single::one().bits,
    ensures
        exists|r: nat|
            #![trigger is_brightness(brightness(levels, played), r, played)]
            about((r * r) as int, (size(levels.dominant()) * one_in_points(SINGLE)) as int, 2)
                && is_brightness(brightness(levels, played), r, played),
{
    let one = one_in_points(SINGLE);
    let top = levels.dominant();
    law_balance_is_against_the_loudest(levels);
    lemma_level_order(top, Single::zero());
    lemma_level_order(Single::one(), top);
    lemma_level_order(Single { bits: LEAST_DOMINANT }, top);
    assert(unit(top) == top);
    let energy = top.sqrt();
    reveal(Single::spec_abs);
    lemma_leading(SINGLE);
    lemma_pow2_pos(149);
    lemma_one_is_normal();
    lemma_brightness_constants();
    lemma_power_magnitude(0, 0x3f80_0000, SINGLE);
    lemma_power_magnitude(1, 0x4000_0000, SINGLE);
    lemma_power_magnitude(8, 0x4380_0000, SINGLE);
    lemma_power_magnitude(9, 0x4400_0000, SINGLE);
    vstd::arithmetic::power2::lemma2_to64();
    vstd::arithmetic::power2::lemma2_to64_rest();
    lemma_points_order(top.bits as nat, 0x3f80_0000, SINGLE);
    // The root.
    let h = leading(SINGLE);
    let m = points(top.bits as nat, SINGLE);
    let low = (h + h * 62) as nat;
    lemma_compose(h, 62, SINGLE);
    lemma_compose(h, 112, SINGLE);
    assert(h + h * 112 == 0x3880_0000);
    lemma_points_order(0x3880_0000, top.bits as nat, SINGLE);
    lemma_pow2_adds(23, 112);
    lemma_pow2_adds(23, 62);
    lemma_pow2_adds(85, 85);
    lemma_pow2_adds(135, 149);
    lemma_pow2_strictly_increases(170, 284);
    assert(m * one >= pow2(135) * one) by (nonlinear_arith)
        requires
            m >= pow2(135),
    ;
    crate::rms::lemma_root_at_least(m * one, low, SINGLE);
    assert(m * one <= points(0x3f80_0000, SINGLE) * points(0x3f80_0000, SINGLE))
        by (nonlinear_arith)
        requires
            m <= one,
            points(0x3f80_0000, SINGLE) == one,
    ;
    crate::bounds::lemma_root_at_most(m * one, 0x3f80_0000, SINGLE);
    assert(energy.bits == crate::ieee::rounded_root(m * one, SINGLE)) by {
        reveal(Single::spec_sqrt);
    }
    crate::rms::lemma_root_about(m * one, SINGLE);
    let r = points(energy.bits as nat, SINGLE);
    lemma_points_order(low, energy.bits as nat, SINGLE);
    lemma_points_order(energy.bits as nat, 0x3f80_0000, SINGLE);
    // What it adds.
    let factor = Single { bits: ADDED_BRIGHTNESS };
    let added = factor.times(energy);
    lemma_times_at_most(factor, energy);
    let k = points(ADDED_BRIGHTNESS as nat, SINGLE);
    lemma_pow2_strictly_increases(24, 85);
    assert(r >= 2 * h);
    assert(k * r >= h * one) by (nonlinear_arith)
        requires
            2 * k >= one,
            r >= 2 * h,
    ;
    lemma_product_about(factor, energy);
    let a = points(added.bits as nat, SINGLE);
    lemma_about_scale((a * one) as int, (k * r) as int, 20, 1);
    lemma_about_scale((20 * k) as int, (13 * one) as int, r as int, 1);
    assert((a * one) * 20 == (20 * a) * one && (k * r) * 20 == (20 * k) * r && (13 * one) * r == (13
        * r) * one) by (nonlinear_arith);
    lemma_about_chain(((20 * a) * one) as int, ((20 * k) * r) as int, ((13 * r) * one) as int, 1, 1);
    lemma_about_cancel((20 * a) as int, (13 * r) as int, one as int, 2);
    // What silence has.
    let least = Single { bits: LEAST_BRIGHTNESS };
    let c = points(LEAST_BRIGHTNESS as nat, SINGLE);
    lemma_about_weaken((20 * c) as int, (7 * one) as int, 1, 2);
    lemma_about_sum((20 * c) as int, (7 * one) as int, (20 * a) as int, (13 * r) as int, 2);
    let lit = least.plus(added);
    let exact = c + a;
    lemma_points_order(LEAST_BRIGHTNESS as nat, 0x3f80_0000, SINGLE);
    lemma_points_order(added.bits as nat, 0x3f80_0000, SINGLE);
    lemma_rounded_at_most(exact, 1, 0x4000_0000, SINGLE);
    lemma_rounded_is_nearest(exact, 1, SINGLE);
    assert(c >= h) by {
        crate::bounds::lemma_small_points(h, SINGLE);
        lemma_points_order(h, LEAST_BRIGHTNESS as nat, SINGLE);
    }
    assert(lit.bits == rounded(exact, 1, SINGLE)) by {
        reveal(Single::spec_plus);
    }
    lemma_rounded_about(exact, 1);
    let l = points(lit.bits as nat, SINGLE);
    assert(l * 1 == l);
    lemma_about_scale(l as int, exact as int, 20, 1);
    let sum = (7 * one + 13 * r) as int;
    assert(exact * 20 == 20 * c + 20 * a && l * 20 == 20 * l);
    lemma_about_chain((20 * l) as int, (exact * 20) as int, sum, 1, 2);
    lemma_rounded_at_least(exact, 1, LEAST_BRIGHTNESS as nat, SINGLE);
    lemma_points_order(LEAST_BRIGHTNESS as nat, lit.bits as nat, SINGLE);
    lemma_points_order(lit.bits as nat, 0x4000_0000, SINGLE);
    // On the screen.
    let share = if played {
        Single::one()
    } else {
        Single { bits: UNPLAYED_SHARE }
    };
    let full = Single { bits: BRIGHTEST };
    let dimmed = lit.times(share);
    crate::shares::lemma_times_one(lit);
    lemma_times_at_most(lit, share);
    let g = points(UNPLAYED_SHARE as nat, SINGLE);
    assert(l * g >= h * one) by (nonlinear_arith)
        requires
            4 * l >= one,
            4 * g >= one,
            one >= h * h,
            h == 0x80_0000,
    ;
    if !played {
        lemma_product_about(lit, share);
    }
    let z = points(dimmed.bits as nat, SINGLE);
    lemma_points_order(dimmed.bits as nat, lit.bits as nat, SINGLE);
    assert(z >= h) by {
        if !played {
            reveal(Single::spec_times);
            lemma_rounded_is_nearest(l * g, one, SINGLE);
            crate::bounds::lemma_small_points(h, SINGLE);
            lemma_rounded_at_least(l * g, one, h, SINGLE);
            lemma_points_order(h, dimmed.bits as nat, SINGLE);
        }
    }
    let b = points(BRIGHTEST as nat, SINGLE);
    assert(b * z >= h * one) by (nonlinear_arith)
        requires
            b == 255 * one,
            z >= h,
    ;
    let shown = full.times(dimmed);
    assert(shown.bits < 0x7f80_0000) by {
        reveal(Single::spec_times);
        assert(b * z <= points(0x4400_0000, SINGLE) * one) by (nonlinear_arith)
            requires
                b == 255 * one,
                z <= 2 * one,
                points(0x4400_0000, SINGLE) == 512 * one,
        ;
        lemma_rounded_at_most(b * z, one, 0x4400_0000, SINGLE);
        lemma_rounded_is_nearest(b * z, one, SINGLE);
    }
    lemma_product_about(full, dimmed);
    let y = points(shown.bits as nat, SINGLE);
    assert(b * z == (255 * z) * one) by (nonlinear_arith)
        requires
            b == 255 * one,
    ;
    lemma_about_cancel(y as int, (255 * z) as int, one as int, 1);
    lemma_about_scale((20 * l) as int, sum, 255, 3);
    if played {
        lemma_about_scale(y as int, (255 * z) as int, 20, 1);
        assert(y * 20 == 20 * y && (255 * z) * 20 == (20 * l) * 255);
        lemma_about_chain((20 * y) as int, ((20 * l) * 255) as int, sum * 255, 1, 3);
    } else {
        // z one ~ l g, 20 g ~ 9 one
        lemma_about_scale((z * one) as int, (l * g) as int, 20, 1);
        lemma_about_scale((20 * g) as int, (9 * one) as int, l as int, 1);
        assert((z * one) * 20 == (20 * z) * one && (l * g) * 20 == (20 * g) * l && (9 * one) * l
            == (9 * l) * one) by (nonlinear_arith);
        lemma_about_chain(((20 * z) * one) as int, ((20 * g) * l) as int, ((9 * l) * one) as int, 1, 1);
        lemma_about_cancel((20 * z) as int, (9 * l) as int, one as int, 2);
        lemma_about_scale(y as int, (255 * z) as int, 400, 1);
        lemma_about_scale((20 * z) as int, (9 * l) as int, 5100, 2);
        lemma_about_scale((20 * l) as int, sum, 2295, 3);
        assert((255 * z) * 400 == (20 * z) * 5100 && (9 * l) * 5100 == (20 * l) * 2295);
        lemma_about_chain((y * 400) as int, ((20 * z) * 5100) as int, ((20 * l) * 2295) as int, 1, 2);
        lemma_about_chain((y * 400) as int, ((20 * l) * 2295) as int, sum * 2295, 3, 3);
        assert(y * 400 == 400 * y);
    }
    assert(shown == brightness(levels, played));
    assert(is_brightness(brightness(levels, played), r, played));
}

/// The color of a level lies between green and yellow below six tenths, and between yellow and red
/// from there on.
pub proof fn law_level_colors_lie_on_their_way(t: Single)
    requires
        is_share(t),
    ensures
        ({
            let c = color_of_level(t);
            let turn = Single { bits: crate::color::YELLOW_AT };
            &&& t.less(turn) ==> 54 <= c.r <= 232 && 197 <= c.g <= 200 && 58 <= c.b <= 88
            &&& !t.less(turn) ==> 229 <= c.r <= 232 && 72 <= c.g <= 197 && c.b == 58
        }),
{
    lemma_clamp_share(t);
    lemma_share_bits(t);
    let turn = Single { bits: crate::color::YELLOW_AT };
    let rest = Single { bits: crate::color::YELLOW_TO_RED };
    let way = if t.less(turn) {
        t.over(turn)
    } else {
        t.minus(turn).over(rest)
    };
    lemma_clamp_share(way);
    let share = unit(way);
    crate::single::lemma_quotient_number(t, turn);
    assert(!t.minus(turn).is_nan()) by {
        reveal(Single::spec_minus);
        reveal(Single::spec_plus);
        reveal(Single::spec_negated);
        let exact = t.value() - turn.value();
        let size: nat = if exact >= 0 {
            exact as nat
        } else {
            (-exact) as nat
        };
        lemma_rounded_is_nearest(size, 1, SINGLE);
    }
    crate::single::lemma_quotient_number(t.minus(turn), rest);
    lemma_share_bits(share);
    let (g, y, r) = (crate::color::green(), crate::color::yellow(), crate::color::red());
    lemma_mix_share(g.r, y.r, share);
    lemma_mix_share(g.g, y.g, share);
    lemma_mix_share(g.b, y.b, share);
    lemma_mix_share(y.r, r.r, share);
    lemma_mix_share(y.g, r.g, share);
    lemma_mix_share(y.b, r.b, share);
}

/// A mix by any share lies between its ends.
proof fn lemma_mix_share(x: u8, y: u8, t: Single)
    requires
        is_share(t),
    ensures
        x <= y ==> x <= mixed(x, y, t) <= y,
        y <= x ==> y <= mixed(x, y, t) <= x,
{
    lemma_share_bits(t);
    if t.bits <= Single::one().bits {
        lemma_mix(x, y, t);
    } else {
        // The negative zero moves nothing.
        lemma_mix(x, y, Single::zero());
        let one = one_in_points(SINGLE);
        let from = whole(x as nat);
        let diff = whole(y as nat).minus(from);
        lemma_small_whole(x as nat);
        lemma_small_whole(y as nat);
        lemma_zero_points(0, SINGLE);
        lemma_pow2_pos(149);
        let z = points(diff.parts().magnitude as nat, SINGLE);
        assert(diff.parts().magnitude < 0x7f80_0000) by {
            if x <= y {
                lemma_whole_difference(x, y);
                lemma_small_whole((y - x) as nat);
            } else {
                lemma_whole_difference(y, x);
                lemma_small_whole((x - y) as nat);
                assert(y * one < x * one) by (nonlinear_arith)
                    requires
                        y < x,
                        one > 0,
                ;
                lemma_difference_reversed(whole(y as nat), from);
                reveal(Single::spec_negated);
            }
        }
        reveal(Single::spec_times);
        assert(z * 0 == 0);
        lemma_rounded_at_most(0, one, 0, SINGLE);
        let (a, b) = (diff.times(t), diff.times(Single::zero()));
        assert(a.parts().magnitude == 0 && b.parts().magnitude == 0);
        reveal(Single::spec_plus);
        lemma_zero_points(from.bits as nat, SINGLE);
        assert(from.plus(a) == from.plus(b));
    }
}

} // verus!
