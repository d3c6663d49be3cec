//! How the bars of the spectrum and their caps move.
use crate::bounds::lemma_points_order;
use crate::closeness::{
    about, lemma_about_cancel, lemma_about_chain, lemma_about_scale, lemma_one_is_normal,
    lemma_product_about,
};
use crate::frequencies::lemma_small_whole;
use crate::ieee::{leading, lemma_leading, lemma_power_magnitude, one_in_points, points, SINGLE};
use crate::levels::{grown, lemma_grown, size, ungrown};
use crate::metering::lemma_rate_times;
use crate::parts::lemma_zero_points;
use crate::shading::lemma_brightness_constants;
use crate::shares::{is_share_of, lemma_difference, lemma_share_about, lemma_times_one};
use crate::signal::{largest, lemma_largest};
use crate::single::{
    is_finite, lemma_level_order, lemma_minus_nan, lemma_minus_not_above, lemma_not_below_zero,
    lemma_over_level, lemma_over_order, lemma_plus_not_below, lemma_times_not_below, whole, Single,
    TWENTY,
};
use crate::spectrum::{
    bar_amplitude, recent, target_height, window_angle, windowed, Bar, SpectrumParams, CAP_GRAVITY,
    FFT_SIZE, GREATEST_SENSITIVITY, LEAST_SENSITIVITY, PEAK_HOLD_SECS, PI, QUIETEST, RELEASE,
    TONE_MAGNITUDE,
};
use crate::waveform::unit;
use vstd::arithmetic::power2::{lemma_pow2_adds, lemma_pow2_pos, pow2};
use vstd::prelude::*;

verus! {

/// A window that lets everything through leaves the latest samples, in their order: the newest
/// comes last, and each is weighed by its own place in the window.
pub proof fn law_window_keeps_the_order(samples: Seq<Single>, window: Seq<Single>, i: int)
    requires
        window.len() == FFT_SIZE,
        0 <= i < FFT_SIZE,
    ensures
        windowed(samples, window).len() == FFT_SIZE,
        window[i] == Single::one() && recent(samples)[i].bits < 0x7f80_0000 ==> windowed(
            samples,
            window,
        )[i] == recent(samples)[i],
        samples.len() >= FFT_SIZE ==> windowed(samples, window)[i] == samples[samples.len()
            - FFT_SIZE + i].times(window[i]),
        samples.len() > 0 ==> recent(samples)[FFT_SIZE - 1] == samples.last(),
{
    if recent(samples)[i].bits < 0x7f80_0000 {
        lemma_times_one(recent(samples)[i]);
    }
}

/// The angles of the window run evenly from nothing up to half a turn, up to two roundings.
pub proof fn law_window_runs_half_a_turn(i: nat)
    requires
        0 < i < FFT_SIZE,
    ensures
        about(
            (size(window_angle(i)) * (FFT_SIZE - 1)) as int,
            (i * points(PI as nat, SINGLE)) as int,
            2,
        ),
{
    let one = one_in_points(SINGLE);
    let pi = Single { bits: PI };
    let n = whole(i);
    let last = whole(FFT_SIZE as nat).minus(Single::one());
    let turn = pi.times(n);
    let angle = turn.over(last);
    reveal(Single::spec_abs);
    lemma_pow2_pos(149);
    lemma_one_is_normal();
    lemma_small_whole(i);
    lemma_small_whole(FFT_SIZE as nat);
    lemma_leading(SINGLE);
    lemma_power_magnitude(0, 0x3f80_0000, SINGLE);
    lemma_power_magnitude(1, 0x4000_0000, SINGLE);
    lemma_power_magnitude(2, 0x4080_0000, SINGLE);
    lemma_power_magnitude(32, 0x4f80_0000, SINGLE);
    vstd::arithmetic::power2::lemma2_to64();
    lemma_points_order(0x4000_0000, PI as nat, SINGLE);
    lemma_points_order(PI as nat, 0x4080_0000, SINGLE);
    let p = points(PI as nat, SINGLE);
    let x = points(n.bits as nat, SINGLE);
    let h = leading(SINGLE);
    assert(x >= one) by (nonlinear_arith)
        requires
            x == i * one,
            i >= 1,
    ;
    assert(p * x >= h * one) by (nonlinear_arith)
        requires
            p >= h,
            x >= one,
    ;
    // The last place, exactly.
    assert(points(last.bits as nat, SINGLE) == 2047 * one && last.bits < 0x7f80_0000) by {
        lemma_difference(whole(FFT_SIZE as nat), Single::one());
        let mag = crate::bounds::lemma_representable(2047, 149, SINGLE);
        crate::ieee::lemma_rounded_points(mag, 1, SINGLE);
        assert(whole(FFT_SIZE as nat).value() - Single::one().value() == 2047 * one);
    }
    // The turn.
    assert(turn.bits <= 0x4f80_0000) by {
        reveal(Single::spec_times);
        assert(p * x <= (0x1_0000_0000 * one) * one) by (nonlinear_arith)
            requires
                p <= 4 * one,
                x == i * one,
                i <= 2048,
        ;
        crate::ieee::lemma_rounded_at_most(p * x, one, 0x4f80_0000, SINGLE);
        crate::ieee::lemma_rounded_is_nearest(p * x, one, SINGLE);
    }
    lemma_product_about(pi, n);
    let t = points(turn.bits as nat, SINGLE);
    assert(t >= one) by {
        reveal(Single::spec_times);
        assert(p * x >= points(0x3f80_0000, SINGLE) * one) by (nonlinear_arith)
            requires
                p >= 2 * one,
                x >= one,
                points(0x3f80_0000, SINGLE) == 1 * one,
        ;
        crate::ieee::lemma_rounded_at_least(p * x, one, 0x3f80_0000, SINGLE);
        crate::ieee::lemma_rounded_is_nearest(p * x, one, SINGLE);
        assert(turn.bits == crate::ieee::rounded(p * x, one, SINGLE));
        lemma_points_order(0x3f80_0000, turn.bits as nat, SINGLE);
    }
    // The angle.
    let d = points(last.bits as nat, SINGLE);
    assert(t * one >= h * d) by (nonlinear_arith)
        requires
            t >= one,
            d == 2047 * one,
            one >= h * h,
            h == 0x80_0000,
    ;
    lemma_zero_points(last.bits as nat, SINGLE);
    assert(angle.bits <= turn.bits) by {
        reveal(Single::spec_over);
        assert(t * one <= t * d) by (nonlinear_arith)
            requires
                d == 2047 * one,
        ;
        crate::ieee::lemma_rounded_at_most(t * one, d, turn.bits as nat, SINGLE);
    }
    crate::closeness::lemma_quotient_about(turn, last);
    let q = points(angle.bits as nat, SINGLE);
    // q d ~ t one, t one ~ p x
    lemma_about_chain((q * d) as int, (t * one) as int, (p * x) as int, 1, 1);
    assert(q * d == (q * 2047) * one && p * x == (i * p) * one) by (nonlinear_arith)
        requires
            d == 2047 * one,
            x == i * one,
    ;
    lemma_about_cancel((q * 2047) as int, (i * p) as int, one as int, 2);
}

/// A full-scale tone under the window has half the transform's length as its magnitude.
proof fn lemma_tone()
    ensures
        points(TONE_MAGNITUDE as nat, SINGLE) == (FFT_SIZE / 2) * one_in_points(SINGLE),
{
    lemma_leading(SINGLE);
    lemma_power_magnitude(10, TONE_MAGNITUDE as nat, SINGLE);
    vstd::arithmetic::power2::lemma2_to64();
}

/// A bar stands for its loudest bin: its amplitude is not below that of any bin it reads, and but
/// for the little that is kept under it, it is that of one of them, or of silence. The amplitude
/// of a bin is its magnitude over half the length of the transform, up to one rounding.
pub proof fn law_bar_shows_its_loudest_bin(magnitudes: Seq<Single>, edge: (usize, usize), k: int)
    requires
        edge.0 <= k < edge.1,
        k < magnitudes.len(),
        forall|i: int| 0 <= i < magnitudes.len() ==> (#[trigger] magnitudes[i]).bits < 0x7f80_0000,
    ensures
        ({
            let tone = Single { bits: TONE_MAGNITUDE };
            let shown = bar_amplitude(magnitudes, edge);
            &&& magnitudes[k].over(tone).at_most(shown)
            &&& exists|i: int|
                edge.0 <= i < edge.1 && i < magnitudes.len() && shown == (
                #[trigger] magnitudes[i]).over(tone).plus(Single { bits: QUIETEST })
                && magnitudes[k].at_most(magnitudes[i])
            &&& points(tone.bits as nat, SINGLE) == (FFT_SIZE / 2) * one_in_points(SINGLE)
        }),
{
    let tone = Single { bits: TONE_MAGNITUDE };
    let little = Single { bits: QUIETEST };
    let end = if edge.1 < magnitudes.len() {
        edge.1 as int
    } else {
        magnitudes.len() as int
    };
    let read = magnitudes.subrange(edge.0 as int, end);
    let top = largest(read);
    lemma_tone();
    lemma_largest(read);
    assert(read[k - edge.0] == magnitudes[k]);
    lemma_level_order(magnitudes[k], top);
    assert(magnitudes[k].at_most(top));
    // One of the bins reaches it.
    let i: int = if top == Single::zero() {
        k
    } else {
        edge.0 + choose|i: int| 0 <= i < read.len() && top == #[trigger] read[i]
    };
    assert(magnitudes[i] == top) by {
        if top != Single::zero() {
            assert(read[i - edge.0] == magnitudes[i]);
        }
    }
    lemma_over_order(magnitudes[k], top, tone);
    let a = magnitudes[k].over(tone);
    let b = top.over(tone);
    lemma_over_level(top, tone);
    lemma_level_order(a, b);
    lemma_level_order(Single::zero(), b);
    lemma_level_order(Single::zero(), little);
    lemma_grows(b, little);
    assert(a.at_most(b.plus(little))) by {
        reveal(Single::spec_at_most);
    }
    lemma_level_order(magnitudes[k], magnitudes[i]);
    assert(bar_amplitude(magnitudes, edge) == magnitudes[i].over(tone).plus(little));
}

/// A level between the floor and the ceiling has a height in proportion, up to three roundings:
/// the height times the range is the way from the floor.
pub proof fn law_height_is_in_proportion(params: SpectrumParams, log: Single)
    requires
        ({
            let db = (Single { bits: TWENTY }).times(log);
            let range = params.db_ceil.minus(params.db_floor);
            &&& is_finite(params.db_floor)
            &&& is_finite(params.db_ceil)
            &&& params.db_floor.value() < params.db_ceil.value()
            &&& Single::one().bits <= range.bits < 0x7f80_0000
            &&& is_share_of(db, params.db_floor, range)
            &&& params.sensitivity == Single::one()
        }),
    ensures
        ({
            let db = (Single { bits: TWENTY }).times(log);
            about(
                size(target_height(params, log)) * (params.db_ceil.value()
                    - params.db_floor.value()),
                (db.value() - params.db_floor.value()) * one_in_points(SINGLE),
                3,
            )
        }),
{
    let one = one_in_points(SINGLE);
    let db = (Single { bits: TWENTY }).times(log);
    let range = params.db_ceil.minus(params.db_floor);
    let share = db.minus(params.db_floor).over(range);
    reveal(Single::spec_abs);
    lemma_level_order(range, Single::one());
    lemma_level_order(Single::one(), Single { bits: GREATEST_SENSITIVITY });
    lemma_level_order(Single { bits: LEAST_SENSITIVITY }, Single::one());
    lemma_level_order(Single::one(), Single { bits: LEAST_SENSITIVITY });
    lemma_level_order(Single { bits: GREATEST_SENSITIVITY }, Single::one());
    lemma_share_about(db, params.db_floor, range);
    lemma_times_one(share);
    assert(target_height(params, log) == share);
    lemma_difference(params.db_ceil, params.db_floor);
    let q = points(share.bits as nat, SINGLE) as int;
    let w = points(range.bits as nat, SINGLE) as int;
    let span = params.db_ceil.value() - params.db_floor.value();
    let way = db.value() - params.db_floor.value();
    lemma_about_scale(w, span, q, 1);
    assert(w * q == q * w && span * q == q * span) by (nonlinear_arith);
    lemma_about_chain(q * span, q * w, way * one, 1, 2);
}

/// A bar rises at once, and falls by twelve parts in a hundred of its height in a step, up to two
/// roundings.
pub proof fn law_bars_rise_at_once_and_fall_by_steps(bar: Bar, target: Single)
    requires
        bar.height.bits <= Single::one().bits,
        bar.height.bits == 0 || bar.height.bits >= 0x2000_0000,
    ensures
        bar.height.at_most(target) ==> bar.drawn_to(target).height == target,
        !bar.height.at_most(target) ==> about(
            (25 * size(bar.drawn_to(target).height)) as int,
            (22 * size(bar.height)) as int,
            2,
        ),
        bar.drawn_to(target).cap == bar.cap,
        about((25 * size(bar.lowered().height)) as int, (22 * size(bar.height)) as int, 2),
        bar.lowered().cap == bar.cap,
{
    let one = one_in_points(SINGLE);
    let keep = Single { bits: RELEASE };
    let next = bar.height.times(keep);
    reveal(Single::spec_abs);
    lemma_pow2_pos(149);
    lemma_one_is_normal();
    lemma_release();
    let x = points(bar.height.bits as nat, SINGLE);
    let r = points(RELEASE as nat, SINGLE);
    crate::single::lemma_times_at_most(bar.height, keep);
    lemma_zero_points(0, SINGLE);
    if bar.height.bits == 0 {
        crate::single::lemma_zero_times(keep);
        crate::closeness::lemma_about_itself(0, 2);
    } else {
        let h = leading(SINGLE);
        lemma_leading(SINGLE);
        crate::ieee::lemma_compose(leading(SINGLE), 63, SINGLE);
        assert(leading(SINGLE) + leading(SINGLE) * 63 == 0x2000_0000);
        lemma_points_order(0x2000_0000, bar.height.bits as nat, SINGLE);
        vstd::arithmetic::power2::lemma2_to64();
        vstd::arithmetic::power2::lemma2_to64_rest();
        assert(x >= h * 2);
        assert(x * r >= h * one) by (nonlinear_arith)
            requires
                x >= h * 2,
                2 * r >= one,
        ;
        lemma_product_about(bar.height, keep);
        let y = points(next.bits as nat, SINGLE);
        // y one ~ x r, 25 r ~ 22 one
        lemma_about_scale((y * one) as int, (x * r) as int, 25, 1);
        lemma_about_scale((25 * r) as int, (22 * one) as int, x as int, 1);
        assert((y * one) * 25 == (25 * y) * one && (x * r) * 25 == (25 * r) * x && (22 * one) * x
            == (22 * x) * one) by (nonlinear_arith);
        lemma_about_chain(
            ((25 * y) * one) as int,
            ((25 * r) * x) as int,
            ((22 * x) * one) as int,
            1,
            1,
        );
        lemma_about_cancel((25 * y) as int, (22 * x) as int, one as int, 2);
    }
}

/// What a falling bar keeps is 0.88, up to one rounding.
proof fn lemma_release()
    ensures
        about((25 * points(RELEASE as nat, SINGLE)) as int, (22 * one_in_points(SINGLE)) as int, 1),
        2 * points(RELEASE as nat, SINGLE) >= one_in_points(SINGLE),
{
    lemma_leading(SINGLE);
    let unit = pow2(125);
    lemma_pow2_pos(125);
    lemma_pow2_adds(125, 24);
    vstd::arithmetic::power2::lemma2_to64();
    assert(points(RELEASE as nat, SINGLE) == 0xe1_47ae * unit);
    assert(one_in_points(SINGLE) == unit * 0x100_0000);
    lemma_grown(0);
    assert(ungrown(1) == 0x100_0000 && grown(1) == 0x100_0001);
    let (a, b) = ((25 * (0xe1_47ae * unit)) as int, (22 * (unit * 0x100_0000)) as int);
    assert(a * 0x100_0000 <= b * 0x100_0001 && b * 0x100_0000 <= a * 0x100_0001)
        by (nonlinear_arith)
        requires
            a == 25 * (0xe1_47ae * unit),
            b == 22 * (unit * 0x100_0000),
            unit > 0,
    ;
    assert(2 * (0xe1_47ae * unit) >= unit * 0x100_0000) by (nonlinear_arith);
}

/// A cap's fall quickens by 1.8 heights a second in each second, up to two roundings.
proof fn lemma_gravity(dt: Single)
    requires
        0x2000_0000 <= dt.bits <= 0x5000_0000,
    ensures
        about(
            (5 * size((Single { bits: CAP_GRAVITY }).times(dt))) as int,
            (9 * size(dt)) as int,
            2,
        ),
{
    lemma_leading(SINGLE);
    lemma_pow2_pos(126);
    lemma_pow2_adds(126, 23);
    vstd::arithmetic::power2::lemma2_to64();
    let u = pow2(126);
    let one = one_in_points(SINGLE);
    let k = points(CAP_GRAVITY as nat, SINGLE);
    assert(k == 0xe6_6666 * u);
    assert(one == u * 0x80_0000);
    lemma_grown(0);
    assert(ungrown(1) == 0x100_0000 && grown(1) == 0x100_0001);
    let (a, b) = ((5 * k) as int, (9 * one) as int);
    assert(a * 0x100_0000 <= b * 0x100_0001 && b * 0x100_0000 <= a * 0x100_0001)
        by (nonlinear_arith)
        requires
            a == 5 * (0xe6_6666 * u),
            b == 9 * (u * 0x80_0000),
            u > 0,
    ;
    lemma_rate_times(Single { bits: CAP_GRAVITY }, 9, 5, dt);
}

/// A cap that its bar reaches goes up with it and starts to wait; one that waits stays where it
/// is, and waits less by the time that has passed; one that has waited only falls, faster and
/// faster, and never below its bar. A cap waits for 0.65 seconds.
pub proof fn law_caps_wait_and_fall(bar: Bar, dt: Single)
    requires
        bar.in_height(),
        Single::zero().at_most(dt),
    ensures
        bar.cap.at_most(bar.height) ==> bar.capped(dt).cap == bar.height && Single::zero().less(
            bar.capped(dt).hold,
        ),
        !bar.cap.at_most(bar.height) && Single::zero().less(bar.hold) ==> bar.capped(dt).cap
            == bar.cap && (!bar.hold.minus(dt).is_nan() ==> bar.capped(dt).hold.at_most(bar.hold)),
        !bar.cap.at_most(bar.height) && !Single::zero().less(bar.hold) ==> bar.capped(dt).cap.at_most(
            bar.cap,
        ) && bar.velocity.at_most(bar.capped(dt).velocity),
        bar.height.at_most(bar.capped(dt).cap),
        bar.capped(dt).height == bar.height,
        bar.cap.at_most(bar.height) ==> about(
            (20 * size(bar.capped(dt).hold)) as int,
            (13 * one_in_points(SINGLE)) as int,
            1,
        ),
        !bar.cap.at_most(bar.height) && Single::zero().less(bar.hold) ==> bar.capped(dt).hold
            == bar.hold.minus(dt),
        !bar.cap.at_most(bar.height) && !Single::zero().less(bar.hold) && 0x2000_0000 <= dt.bits
            <= 0x5000_0000 ==> exists|more: Single|
            bar.capped(dt).velocity == #[trigger] bar.velocity.plus(more) && about(
                (5 * size(more)) as int,
                (9 * size(dt)) as int,
                2,
            ),
{
    reveal(Single::spec_abs);
    lemma_brightness_constants();
    if 0x2000_0000 <= dt.bits <= 0x5000_0000 {
        let more = (Single { bits: CAP_GRAVITY }).times(dt);
        lemma_gravity(dt);
        assert(bar.velocity.plus(more) == bar.velocity.plus((Single { bits: CAP_GRAVITY }).times(dt)));
    }
    crate::spectrum::law_cap_stays_in_height(bar, dt);
    lemma_level_order(Single::zero(), Single { bits: PEAK_HOLD_SECS });
    let gravity = Single { bits: CAP_GRAVITY };
    lemma_level_order(Single::zero(), gravity);
    lemma_times_not_below(gravity, dt);
    let velocity = bar.velocity.plus(gravity.times(dt));
    lemma_plus_not_below(bar.velocity, gravity.times(dt));
    let drop = velocity.times(dt);
    lemma_times_not_below(velocity, dt);
    reveal(Single::spec_at_most);
    reveal(Single::spec_less);
    if drop.is_nan() {
        lemma_minus_nan(bar.cap, drop);
    } else {
        lemma_minus_not_above(bar.cap, drop);
    }
    if !bar.hold.is_nan() {
        lemma_minus_not_above(bar.hold, dt);
    }
    lemma_grows(bar.velocity, gravity.times(dt));
}

/// A number that is not below zero does not shrink when another is added.
pub(crate) proof fn lemma_grows(a: Single, b: Single)
    requires
        Single::zero().at_most(a),
        Single::zero().at_most(b),
    ensures
        a.at_most(a.plus(b)),
{
    lemma_not_below_zero(a);
    lemma_not_below_zero(b);
    if a.bits < 0x7f80_0000 {
        crate::seeking::lemma_plus_not_below_first(a, b);
    } else {
        lemma_plus_not_below(a, b);
        reveal(Single::spec_plus);
        reveal(Single::spec_at_most);
        lemma_zero_points(0, SINGLE);
        lemma_zero_points(a.plus(b).parts().magnitude as nat, SINGLE);
        if a.bits == 0x7f80_0000 {
            assert(a.plus(b) == a);
        }
    }
}

} // verus!
