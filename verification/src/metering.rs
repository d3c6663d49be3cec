//! How the level meter follows the output.
use crate::bounds::lemma_points_order;
use crate::closeness::{
    about, lemma_about_cancel, lemma_about_chain, lemma_about_scale, lemma_one_is_normal,
    lemma_product_about,
};
use crate::ieee::{
    leading, lemma_leading, lemma_power_magnitude, lemma_rounded_at_most, lemma_rounded_is_nearest,
    one_in_points, points, SINGLE,
};
use crate::levels::{grown, lemma_grown, size, ungrown};
use crate::meter::{meter_drawn, meter_height, ClipMeter, LATCH_SECS, LEVEL_FALL, METER_RANGE};
use crate::shares::{is_share_of, lemma_share_about};
use crate::single::{
    is_finite, is_share, lemma_clamp_share, lemma_level_order, lemma_minus_not_above,
    lemma_times_not_below, Single, TWENTY,
};
use vstd::arithmetic::power2::{lemma_pow2_adds, lemma_pow2_pos, pow2};
use vstd::prelude::*;

verus! {

/// A level within the 48 decibels below full scale stands as high as its share of them, up to two
/// roundings.
pub proof fn law_meter_shows_decibels(log: Single)
    requires
        is_share_of(
            (Single { bits: TWENTY }).times(log),
            (Single { bits: METER_RANGE }).negated(),
            Single { bits: METER_RANGE },
        ),
    ensures
        about(
            (48 * size(meter_height(log))) as int,
            (Single { bits: TWENTY }).times(log).value() + 48 * one_in_points(SINGLE),
            2,
        ),
{
    let one = one_in_points(SINGLE);
    let range = Single { bits: METER_RANGE };
    let db = (Single { bits: TWENTY }).times(log);
    let low = range.negated();
    lemma_leading(SINGLE);
    lemma_pow2_pos(149);
    lemma_pow2_adds(131, 18);
    lemma_pow2_adds(18, 131);
    vstd::arithmetic::power2::lemma2_to64();
    assert(points(METER_RANGE as nat, SINGLE) == 48 * one) by {
        let u = pow2(131);
        assert(points(METER_RANGE as nat, SINGLE) == 0xc0_0000 * u);
        assert(one == 0x4_0000 * u);
        assert(0xc0_0000 * u == 48 * (0x4_0000 * u)) by (nonlinear_arith);
    }
    assert(low.negated() == range && low.value() == -(48 * one)) by {
        reveal(Single::spec_negated);
    }
    assert(db.minus(low) == db.plus(range)) by {
        reveal(Single::spec_minus);
    }
    lemma_share_about(db, low, range);
    let share = db.minus(low).over(range);
    assert(meter_height(log) == share);
    let q = size(share);
    reveal(Single::spec_abs);
    assert(size(range) == 48 * one);
    assert(q * (48 * one) == (48 * q) * one) by (nonlinear_arith);
    lemma_about_cancel((48 * q) as int, db.value() + 48 * one, one as int, 2);
}

/// The level rises at once, and never past what it follows; it falls no further than to what it
/// follows, by the fall of a step, which is seven fifths of a height a second, up to two roundings.
pub proof fn law_meter_rises_at_once_and_falls_steadily(meter: ClipMeter, target: Single, dt: Single)
    requires
        is_share(meter.level),
        is_share(target),
        0x2000_0000 <= dt.bits <= 0x5000_0000,
    ensures
        ({
            let fall = (Single { bits: LEVEL_FALL }).times(dt);
            let next = meter.next_level(target, dt);
            &&& about((5 * size(fall)) as int, (7 * size(dt)) as int, 2)
            &&& meter.level.at_most(target) ==> next == target
            &&& !meter.level.at_most(target) ==> target.at_most(next) && next.at_most(meter.level)
            &&& !meter.level.at_most(target) && target.less(meter.level.minus(fall)) ==> next
                == meter.level.minus(fall)
        }),
{
    let one = one_in_points(SINGLE);
    let rate = Single { bits: LEVEL_FALL };
    let fall = rate.times(dt);
    lemma_level_order(Single::zero(), rate);
    lemma_level_order(Single::zero(), dt);
    lemma_times_not_below(rate, dt);
    reveal(Single::spec_at_most);
    reveal(Single::spec_less);
    lemma_minus_not_above(meter.level, fall);
    reveal(Single::spec_abs);
    // The rate is 1.4.
    lemma_pow2_pos(149);
    lemma_leading(SINGLE);
    lemma_pow2_adds(126, 23);
    vstd::arithmetic::power2::lemma2_to64();
    vstd::arithmetic::power2::lemma2_to64_rest();
    let u = pow2(126);
    lemma_pow2_pos(126);
    let k = points(LEVEL_FALL as nat, SINGLE);
    assert(k == 0xb3_3333 * u);
    assert(one == u * 0x80_0000);
    lemma_grown(0);
    assert(ungrown(1) == 0x100_0000 && grown(1) == 0x100_0001);
    let (a, b) = ((5 * k) as int, (7 * one) as int);
    assert(a * 0x100_0000 <= b * 0x100_0001 && b * 0x100_0000 <= a * 0x100_0001)
        by (nonlinear_arith)
        requires
            a == 5 * (0xb3_3333 * u),
            b == 7 * (u * 0x80_0000),
            u > 0,
    ;
    lemma_rate_times(rate, 7, 5, dt);
}

/// A rate that is a fraction, up to one rounding, times a step, is that fraction of the step, up to
/// two.
pub(crate) proof fn lemma_rate_times(rate: Single, num: nat, den: nat, dt: Single)
    requires
        rate.bits < 0x7f80_0000,
        about((den * points(rate.bits as nat, SINGLE)) as int, (num * one_in_points(SINGLE)) as int, 1),
        one_in_points(SINGLE) <= points(rate.bits as nat, SINGLE) <= 2 * one_in_points(SINGLE),
        0x2000_0000 <= dt.bits <= 0x5000_0000,
    ensures
        about((den * size(rate.times(dt))) as int, (num * size(dt)) as int, 2),
{
    let one = one_in_points(SINGLE);
    let fall = rate.times(dt);
    let k = points(rate.bits as nat, SINGLE);
    reveal(Single::spec_abs);
    lemma_pow2_pos(149);
    lemma_leading(SINGLE);
    vstd::arithmetic::power2::lemma2_to64();
    vstd::arithmetic::power2::lemma2_to64_rest();
    let x = points(dt.bits as nat, SINGLE);
    let h = leading(SINGLE);
    lemma_one_is_normal();
    crate::ieee::lemma_compose(h, 63, SINGLE);
    assert(h + h * 63 == 0x2000_0000);
    lemma_points_order(0x2000_0000, dt.bits as nat, SINGLE);
    assert(x >= h);
    assert(k * x >= h * one) by (nonlinear_arith)
        requires
            k >= one,
            x >= h,
    ;
    lemma_power_magnitude(33, 0x5000_0000, SINGLE);
    lemma_power_magnitude(34, 0x5080_0000, SINGLE);
    lemma_points_order(dt.bits as nat, 0x5000_0000, SINGLE);
    assert(fall.bits <= 0x5080_0000) by {
        reveal(Single::spec_times);
        lemma_rounded_is_nearest(k * x, one, SINGLE);
        assert(k * x <= points(0x5080_0000, SINGLE) * one) by (nonlinear_arith)
            requires
                k <= 2 * one,
                x <= 0x2_0000_0000 * one,
                points(0x5080_0000, SINGLE) == 0x4_0000_0000 * one,
        ;
        lemma_rounded_at_most(k * x, one, 0x5080_0000, SINGLE);
    }
    lemma_product_about(rate, dt);
    let y = points(fall.bits as nat, SINGLE);
    lemma_about_scale((y * one) as int, (k * x) as int, den as int, 1);
    lemma_about_scale((den * k) as int, (num * one) as int, x as int, 1);
    assert((y * one) * den == (den * y) * one && (k * x) * den == (den * k) * x && (num * one) * x == (num * x)
        * one) by (nonlinear_arith);
    lemma_about_chain(((den * y) * one) as int, ((den * k) * x) as int, ((num * x) * one) as int, 1, 1);
    lemma_about_cancel((den * y) as int, (num * x) as int, one as int, 2);
}

/// The clip light stays on for nine tenths of a second from the last clip on, up to one rounding,
/// and runs out with the time.
pub proof fn law_clip_light_runs_out(meter: ClipMeter, peak: Single, clipped: bool, dt: Single)
    requires
        Single::zero().at_most(dt),
        meter.in_height(),
    ensures
        clipped || Single::one().less(peak) ==> about(
            (10 * size(meter.next_latch(peak, clipped, dt))) as int,
            (9 * one_in_points(SINGLE)) as int,
            1,
        ),
        !clipped && !Single::one().less(peak) ==> {
            let next = meter.next_latch(peak, clipped, dt);
            &&& next.at_most(meter.clip_latch)
            &&& Single::zero().less(meter.clip_latch.minus(dt)) ==> next == meter.clip_latch.minus(
                dt,
            )
            &&& meter.clip_latch.minus(dt).at_most(Single::zero()) ==> !Single::zero().less(next)
        },
{
    reveal(Single::spec_at_most);
    reveal(Single::spec_less);
    reveal(Single::spec_abs);
    lemma_minus_not_above(meter.clip_latch, dt);
    lemma_level_order(Single::zero(), Single::zero());
    lemma_leading(SINGLE);
    lemma_pow2_pos(125);
    lemma_pow2_adds(125, 24);
    vstd::arithmetic::power2::lemma2_to64();
    let u = pow2(125);
    let one = one_in_points(SINGLE);
    let k = points(LATCH_SECS as nat, SINGLE);
    assert(k == 0xe6_6666 * u);
    assert(one == u * 0x100_0000);
    lemma_grown(0);
    assert(ungrown(1) == 0x100_0000 && grown(1) == 0x100_0001);
    let (a, b) = ((10 * k) as int, (9 * one) as int);
    assert(a * 0x100_0000 <= b * 0x100_0001 && b * 0x100_0000 <= a * 0x100_0001)
        by (nonlinear_arith)
        requires
            a == 10 * (0xe6_6666 * u),
            b == 9 * (u * 0x100_0000),
            u > 0,
    ;
}

/// The cap goes up with the level at once; by itself it only falls, faster and faster, and not
/// below the level.
pub proof fn law_meter_cap_falls(meter: ClipMeter, peak: Single, log: Single, clipped: bool, dt: Single)
    requires
        meter.in_height(),
        !log.is_nan(),
        Single::zero().at_most(dt),
    ensures
        ({
            let next = meter.next(peak, log, clipped, dt);
            &&& next.level == meter.next_level(meter_height(log), dt)
            &&& next.level.at_most(next.cap)
            &&& meter.cap.at_most(next.level) ==> next.cap == next.level && next.cap_vel
                == Single::zero()
            &&& !meter.cap.at_most(next.level) ==> next.cap.at_most(meter.cap)
                && meter.cap_vel.at_most(next.cap_vel)
        }),
{
    crate::meter::law_meter_stays_in_height(meter, peak, log, clipped, dt);
    let gravity = Single { bits: crate::meter::METER_GRAVITY };
    lemma_level_order(Single::zero(), gravity);
    lemma_times_not_below(gravity, dt);
    let velocity = meter.cap_vel.plus(gravity.times(dt));
    crate::bars::lemma_grows(meter.cap_vel, gravity.times(dt));
    crate::single::lemma_plus_not_below(meter.cap_vel, gravity.times(dt));
    let drop = velocity.times(dt);
    lemma_times_not_below(velocity, dt);
    reveal(Single::spec_at_most);
    reveal(Single::spec_less);
    if drop.is_nan() {
        crate::single::lemma_minus_nan(meter.cap, drop);
    } else {
        lemma_minus_not_above(meter.cap, drop);
    }
}

/// The picture of the meter: the cap floats at the level's edge or above it, the clip light is
/// drawn exactly while it is on, and a bar that is drawn starts where its level does.
pub proof fn law_meter_picture(meter: ClipMeter, top: Single, bottom: Single, height: Single)
    requires
        meter.in_height(),
        is_finite(bottom),
        height.bits < 0x7f80_0000,
    ensures
        ({
            let picture = meter_drawn(meter, top, bottom, height);
            &&& picture.clip_bottom is Some <==> Single::zero().less(meter.clip_latch)
            &&& picture.bar_top matches Some(edge) ==> picture.cap_y.at_most(edge)
            &&& meter.cap == meter.level && picture.bar_top is Some ==> picture.bar_top == Some(
                picture.cap_y,
            )
        }),
{
    let usable = height.max(Single::one());
    lemma_level_order(height, Single::one());
    assert(0 < usable.bits < 0x7f80_0000);
    lemma_clamp_share(meter.level);
    lemma_clamp_share(meter.cap);
    crate::single::lemma_share_bits(meter.level);
    crate::single::lemma_share_bits(meter.cap);
    let picture = meter_drawn(meter, top, bottom, height);
    let (a, b) = (meter.level.times(usable), meter.cap.times(usable));
    if picture.bar_top is Some {
        // A bar that is drawn has a level.
        reveal(Single::spec_at_most);
        reveal(Single::spec_less);
        crate::parts::lemma_zero_points(0, SINGLE);
        lemma_pow2_pos(149);
        if meter.level.bits == 0x8000_0000 {
            reveal(Single::spec_times);
            let z = points(usable.bits as nat, SINGLE);
            assert(0 * z == 0);
            lemma_rounded_at_most(0, one_in_points(SINGLE), 0, SINGLE);
        }
        assert(meter.level.bits <= Single::one().bits);
        if meter.cap.bits == 0x8000_0000 {
            crate::parts::lemma_zero_points(meter.level.bits as nat, SINGLE);
            assert(meter.level.bits == 0);
            crate::single::lemma_zero_times(usable);
        }
        lemma_level_order(meter.level, meter.cap);
        crate::single::lemma_times_order(meter.level, meter.cap, usable);
        crate::shares::lemma_times_commutes(meter.cap, usable);
        crate::single::lemma_times_at_most(usable, meter.cap);
        lemma_points_order(a.bits as nat, b.bits as nat, SINGLE);
        lemma_minus_order(bottom, a, b);
    }
}

/// Taking more from a value leaves no more.
pub(crate) proof fn lemma_minus_order(a: Single, b: Single, c: Single)
    requires
        is_finite(a),
        b.bits < 0x7f80_0000,
        c.bits < 0x7f80_0000,
        b.value() <= c.value(),
    ensures
        a.minus(c).at_most(a.minus(b)),
{
    reveal(Single::spec_minus);
    reveal(Single::spec_negated);
    let (x, y) = (c.negated(), b.negated());
    assert(x.parts().magnitude == c.bits && y.parts().magnitude == b.bits);
    assert(x.value() == -c.value() && y.value() == -b.value());
    crate::shares::lemma_plus_order(a, x, y);
}

} // verus!
