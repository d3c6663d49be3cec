//! What reaches the audio device: samples in its format, the reach of the fader, and the length of
//! what plays.
use crate::audio::{
    emitted, full_scale, pcm_signed, pcm_unsigned, seconds_at, taper_exponent, PlaybackBuffer,
    PCM_SIGNED, PCM_UNSIGNED, TAPER_REACH,
};
use crate::bounds::{
    lemma_points_order, lemma_representable, lemma_rounded_grows, lemma_rounded_shrinks,
};
use crate::closeness::{
    about, at_most_about, lemma_about_cancel, lemma_about_chain, lemma_about_scale,
    lemma_at_most_chain, lemma_at_most_exact, lemma_one_is_normal, lemma_product_about,
};
use crate::double::{self, lemma_whole_exact, Double};
use crate::frequencies::{lemma_small_whole, lemma_to_word};
use crate::ieee::{
    exponent, leading, lemma_compose, lemma_leading, lemma_power_magnitude, lemma_rounded_at_least,
    lemma_rounded_at_most, lemma_rounded_is_nearest, lemma_rounded_points, one_in_points, points,
    rounded, significand, DOUBLE, SINGLE,
};
use crate::levels::size;
use crate::mixing::distance;
use crate::parts::lemma_zero_points;
use crate::shares::lemma_difference;
use crate::single::{is_finite, lemma_level_order, lemma_negated_times, whole, Single, HALF};
use crate::time::{nanoseconds, of_nanos, Duration, NANOS_PER_SECOND};
use vstd::arithmetic::power2::{
    lemma_pow2_adds, lemma_pow2_pos, lemma_pow2_strictly_increases, pow2,
};
use vstd::prelude::*;

verus! {

/// A difference taken the other way round is the same with the other sign.
pub(crate) proof fn lemma_difference_reversed(a: Single, b: Single)
    requires
        is_finite(a),
        is_finite(b),
        a.value() < b.value(),
    ensures
        a.minus(b) == b.minus(a).negated(),
{
    reveal(Single::spec_minus);
    reveal(Single::spec_plus);
    reveal(Single::spec_negated);
    let (na, nb) = (a.negated(), b.negated());
    assert(na.parts().magnitude == a.parts().magnitude && na.parts().negative
        != a.parts().negative);
    assert(nb.parts().magnitude == b.parts().magnitude && nb.parts().negative
        != b.parts().negative);
    let exact = (b.value() - a.value()) as nat;
    lemma_rounded_is_nearest(exact, 1, SINGLE);
}

/// Each step of the fader stands for as many decibels: the power of ten lies three times as far
/// below nothing as the fader stands below the top, up to two roundings.
pub proof fn law_fader_steps_evenly(volume: Single)
    requires
        volume.bits < Single::one().bits,
    ensures
        taper_exponent(volume).less(Single::zero()),
        about(
            size(taper_exponent(volume)) as int,
            3 * (one_in_points(SINGLE) - volume.value()),
            2,
        ),
{
    let one = one_in_points(SINGLE);
    let reach = Single { bits: TAPER_REACH };
    let way = Single::one().minus(volume);
    lemma_pow2_pos(149);
    lemma_one_is_normal();
    lemma_leading(SINGLE);
    lemma_power_magnitude(0, 0x3f80_0000, SINGLE);
    lemma_power_magnitude(2, 0x4080_0000, SINGLE);
    vstd::arithmetic::power2::lemma2_to64();
    lemma_points_order(volume.bits as nat, 0x3f7f_ffff, SINGLE);
    lemma_below_one();
    let v = points(volume.bits as nat, SINGLE);
    let exact = (one - v) as nat;
    lemma_difference(Single::one(), volume);
    lemma_rounded_at_most(exact, 1, 0x3f80_0000, SINGLE);
    lemma_difference_reversed(volume, Single::one());
    lemma_negated_times(way, reach);
    let p = points(way.bits as nat, SINGLE);
    let product = way.times(reach);
    // Three, exactly.
    let three = lemma_representable(3, 149, SINGLE);
    lemma_rounded_points(three, 1, SINGLE);
    lemma_small_whole(3);
    assert(points(TAPER_REACH as nat, SINGLE) == 3 * one) by {
        lemma_pow2_adds(127, 22);
        lemma_pow2_adds(22, 127);
        let u = pow2(127);
        assert(points(TAPER_REACH as nat, SINGLE) == 0xc0_0000 * u);
        assert(one == 0x40_0000 * u);
    }
    lemma_grown_once(p as int, exact as int);
    assert(p * 0x400_0000 >= one);
    let h = leading(SINGLE);
    lemma_one_is_large();
    assert(p * (3 * one) >= h * one) by (nonlinear_arith)
        requires
            p * 0x400_0000 >= one,
            one >= h * 0x4_0000_0000_0000,
    ;
    assert(product.bits < 0x7f80_0000 && product.bits > 0) by {
        reveal(Single::spec_times);
        lemma_rounded_is_nearest(p * (3 * one), one, SINGLE);
        lemma_points_order(way.bits as nat, 0x3f80_0000, SINGLE);
        assert(p * (3 * one) <= points(0x4080_0000, SINGLE) * one) by (nonlinear_arith)
            requires
                p <= one,
                points(0x4080_0000, SINGLE) == 4 * one,
        ;
        lemma_rounded_at_most(p * (3 * one), one, 0x4080_0000, SINGLE);
        crate::bounds::lemma_small_points(h, SINGLE);
        lemma_rounded_at_least(p * (3 * one), one, h, SINGLE);
    }
    lemma_product_about(way, reach);
    let q = points(product.bits as nat, SINGLE);
    // q one ~ p (3 one), p ~ exact
    assert(p * (3 * one) == (3 * p) * one) by (nonlinear_arith);
    lemma_about_cancel(q as int, (3 * p) as int, one as int, 1);
    lemma_about_scale(p as int, exact as int, 3, 1);
    assert(p * 3 == 3 * p && exact * 3 == 3 * exact);
    lemma_about_chain(q as int, (3 * p) as int, (3 * exact) as int, 1, 1);
    let result = taper_exponent(volume);
    assert(result == product.negated());
    reveal(Single::spec_negated);
    reveal(Single::spec_abs);
    reveal(Single::spec_less);
    assert(result.parts().magnitude == product.bits && result.parts().negative);
    lemma_zero_points(0, SINGLE);
    lemma_zero_points(product.bits as nat, SINGLE);
}

/// What is equal up to a rounding is not more than twice as large.
pub(crate) proof fn lemma_grown_once(a: int, b: int)
    requires
        about(a, b, 1),
        a >= 0,
        b >= 0,
    ensures
        b <= 2 * a,
        a <= 2 * b,
{
    crate::levels::lemma_grown(0);
}

/// There are many points in one.
pub(crate) proof fn lemma_one_is_large()
    ensures
        one_in_points(SINGLE) >= leading(SINGLE) * 0x4_0000_0000_0000,
        leading(SINGLE) == 0x80_0000,
{
    lemma_leading(SINGLE);
    lemma_pow2_adds(23, 50);
    lemma_pow2_strictly_increases(73, 149);
    vstd::arithmetic::power2::lemma2_to64_rest();
}

/// The value below one.
proof fn lemma_below_one()
    ensures
        points(0x3f7f_ffff, SINGLE) * 0x100_0000 == one_in_points(SINGLE) * 0xff_ffff,
{
    lemma_leading(SINGLE);
    lemma_pow2_adds(125, 24);
    vstd::arithmetic::power2::lemma2_to64();
    let u = pow2(125);
    assert(points(0x3f7f_ffff, SINGLE) == 0xff_ffff * u);
    assert(one_in_points(SINGLE) == u * 0x100_0000);
    assert((0xff_ffff * u) * 0x100_0000 == (u * 0x100_0000) * 0xff_ffff) by (nonlinear_arith);
}

/// A level and a scale, multiplied and cut off: the whole part of the product, up to one rounding.
proof fn lemma_scaled_word(a: Single, b: Single, n: nat)
    requires
        a.bits <= Single::one().bits,
        a.bits == 0 || points(a.bits as nat, SINGLE) >= pow2(86),
        0 < n < 0x100_0000,
        b.bits < 0x7f80_0000,
        points(b.bits as nat, SINGLE) == n * one_in_points(SINGLE),
    ensures
        a.times(b).bits <= b.bits,
        a.times(b).to_word() <= n,
        at_most_about(
            (a.times(b).to_word() * one_in_points(SINGLE)) as int,
            (n * points(a.bits as nat, SINGLE)) as int,
            1,
        ),
        at_most_about(
            (n * points(a.bits as nat, SINGLE)) as int,
            ((a.times(b).to_word() + 1) * one_in_points(SINGLE)) as int,
            1,
        ),
{
    let one = one_in_points(SINGLE);
    let p = a.times(b);
    let x = points(a.bits as nat, SINGLE);
    let y = points(b.bits as nat, SINGLE);
    lemma_pow2_pos(149);
    lemma_leading(SINGLE);
    lemma_zero_points(0, SINGLE);
    lemma_power_magnitude(0, 0x3f80_0000, SINGLE);
    lemma_power_magnitude(62, 0x5e80_0000, SINGLE);
    vstd::arithmetic::power2::lemma2_to64();
    vstd::arithmetic::power2::lemma2_to64_rest();
    crate::shares::lemma_times_commutes(a, b);
    crate::single::lemma_times_at_most(b, a);
    assert(b.bits <= 0x5e80_0000) by {
        if b.bits > 0x5e80_0000 {
            crate::ieee::lemma_points_increase(0x5e80_0000, b.bits as nat, SINGLE);
            assert(n * one < 0x4000_0000_0000_0000 * one) by (nonlinear_arith)
                requires
                    n < 0x100_0000,
                    one > 0,
            ;
        }
    }
    lemma_to_word(p);
    let w = p.to_word();
    let q = points(p.bits as nat, SINGLE);
    lemma_points_order(p.bits as nat, b.bits as nat, SINGLE);
    assert(w <= n) by (nonlinear_arith)
        requires
            w * one <= q,
            q <= n * one,
            one > 0,
    ;
    if a.bits == 0 {
        crate::single::lemma_zero_times(b);
        assert(n * 0 == 0 && 0 * one == 0);
        assert(w == 0) by (nonlinear_arith)
            requires
                w * one <= 0,
                one > 0,
        ;
        lemma_at_most_exact(0, 0, 1);
        assert((w + 1) * one >= 0) by (nonlinear_arith);
        lemma_at_most_exact(0, ((w + 1) * one) as int, 1);
    } else {
        lemma_pow2_strictly_increases(23, 86);
        let h = leading(SINGLE);
        assert(x * y >= h * one) by (nonlinear_arith)
            requires
                x >= h,
                y == n * one,
                n > 0,
        ;
        lemma_product_about(a, b);
        assert(x * y == (n * x) * one) by (nonlinear_arith)
            requires
                y == n * one,
        ;
        lemma_about_cancel(q as int, (n * x) as int, one as int, 1);
        lemma_at_most_exact((w * one) as int, q as int, 0);
        lemma_at_most_chain((w * one) as int, q as int, (n * x) as int, 0, 1);
        lemma_at_most_exact(q as int, ((w + 1) * one) as int, 0);
        lemma_at_most_chain((n * x) as int, q as int, ((w + 1) * one) as int, 1, 0);
    }
}

/// A sample that a device can tell from silence, or silence, and not past full scale.
pub open spec fn is_audible(sample: Single) -> bool {
    &&& is_finite(sample)
    &&& sample.abs().bits <= Single::one().bits
    &&& sample.abs().bits == 0 || sample.abs().bits >= 0x2000_0000
}

/// Full scale leaves what does not pass it.
proof fn lemma_within_full_scale(sample: Single)
    requires
        is_finite(sample),
        sample.abs().bits <= Single::one().bits,
    ensures
        full_scale(sample) == sample,
        -one_in_points(SINGLE) <= sample.value() <= one_in_points(SINGLE),
        sample.abs().bits < Single::one().bits ==> -(points(0x3f7f_ffff, SINGLE) as int)
            <= sample.value(),
        sample.abs().bits >= 0x2000_0000 ==> size(sample) >= pow2(86),
{
    reveal(Single::spec_abs);
    reveal(Single::spec_less);
    reveal(Single::spec_negated);
    let one = one_in_points(SINGLE);
    let minus = Single::one().negated();
    lemma_leading(SINGLE);
    lemma_power_magnitude(0, 0x3f80_0000, SINGLE);
    vstd::arithmetic::power2::lemma2_to64();
    lemma_points_order(sample.abs().bits as nat, 0x3f80_0000, SINGLE);
    if sample.abs().bits < 0x3f80_0000 {
        lemma_points_order(sample.abs().bits as nat, 0x3f7f_ffff, SINGLE);
    }
    if sample.abs().bits >= 0x2000_0000 {
        crate::ieee::lemma_compose(leading(SINGLE), 63, SINGLE);
        assert(leading(SINGLE) + leading(SINGLE) * 63 == 0x2000_0000);
        lemma_points_order(0x2000_0000, sample.abs().bits as nat, SINGLE);
        lemma_pow2_adds(23, 63);
    }
    assert(sample.parts().magnitude == sample.abs().bits);
    assert(minus.parts().magnitude == 0x3f80_0000 && minus.parts().negative);
}

/// A signed device gets a sample's share of 32767, with its sign, cut off towards silence, up to
/// one rounding.
pub proof fn law_signed_samples_are_shares(sample: Single)
    requires
        is_audible(sample),
    ensures
        ({
            let one = one_in_points(SINGLE) as int;
            let shown = pcm_signed(sample);
            let share = 32767 * size(sample) as int;
            &&& at_most_about(distance(shown, 0) * one, share, 1)
            &&& at_most_about(share, (distance(shown, 0) + 1) * one, 1)
            &&& sample.value() < 0 ==> shown <= 0
            &&& sample.value() >= 0 ==> shown >= 0
        }),
{
    let one = one_in_points(SINGLE);
    let scale = Single { bits: PCM_SIGNED };
    let level = sample.abs();
    lemma_within_full_scale(sample);
    assert(points(PCM_SIGNED as nat, SINGLE) == 32767 * one) by {
        lemma_leading(SINGLE);
        lemma_pow2_adds(140, 9);
        vstd::arithmetic::power2::lemma2_to64();
        let u = pow2(140);
        assert(points(PCM_SIGNED as nat, SINGLE) == 0xff_fe00 * u);
        assert(one == u * 512);
    }
    lemma_scaled_word(level, scale, 32767);
    lemma_zero_points(0, SINGLE);
    reveal(Single::spec_abs);
    let scaled = sample.times(scale);
    let product = level.times(scale);
    lemma_negated_times(level, scale);
    lemma_zero_points(sample.parts().magnitude as nat, SINGLE);
    if sample.parts().negative {
        assert(sample == level.negated()) by {
            reveal(Single::spec_negated);
        }
        assert(scaled == product.negated());
        reveal(Single::spec_negated);
        reveal(Single::spec_less);
        assert(scaled.negated() == product);
        lemma_zero_points(product.bits as nat, SINGLE);
        if product.bits == 0 {
            crate::single::lemma_zero_to_word();
            assert(scaled.to_word() == 0) by {
                reveal(Single::spec_to_word);
            }
        }
    } else {
        assert(sample == level);
        lemma_level_order(product, Single::zero());
    }
    let w = product.to_word();
    if level.bits == 0 {
        crate::single::lemma_zero_times(scale);
        crate::single::lemma_zero_to_word();
    }
    assert(distance(pcm_signed(sample), 0) == w);
    assert(32767 * size(sample) == 32767 * points(level.bits as nat, SINGLE));
}

/// An unsigned device gets a sample's share of the way from the lowest to the highest value, from
/// nothing to 65535, cut off, up to two roundings.
pub proof fn law_unsigned_samples_are_shares(sample: Single)
    requires
        is_audible(sample),
    ensures
        ({
            let one = one_in_points(SINGLE) as int;
            let shown = pcm_unsigned(sample);
            let share = 65535 * (sample.value() + one);
            &&& at_most_about(2 * shown * one, share, 2)
            &&& at_most_about(share, 2 * (shown + 1) * one, 2)
        }),
{
    let one = one_in_points(SINGLE);
    let half = Single { bits: HALF };
    let scale = Single { bits: PCM_UNSIGNED };
    lemma_within_full_scale(sample);
    reveal(Single::spec_abs);
    lemma_leading(SINGLE);
    lemma_pow2_adds(141, 8);
    lemma_pow2_adds(148, 1);
    lemma_pow2_pos(148);
    vstd::arithmetic::power2::lemma2_to64();
    let u = pow2(141);
    assert(points(PCM_UNSIGNED as nat, SINGLE) == 0xff_ff00 * u);
    assert(one == u * 256);
    assert(points(PCM_UNSIGNED as nat, SINGLE) == 65535 * one);
    lemma_power_magnitude(0, 0x3f80_0000, SINGLE);
    assert(2 * points(HALF as nat, SINGLE) == one) by {
        lemma_pow2_adds(23, 125);
        let w = pow2(125);
        assert(points(HALF as nat, SINGLE) == 0x80_0000 * w);
        assert(one == 0x100_0000 * w) by {
            lemma_pow2_adds(24, 125);
        }
    }
    // Half the sample, exactly.
    let part = sample.times(half);
    assert(is_finite(part) && 2 * part.value() == sample.value()) by {
        lemma_half(sample);
    }
    let total = part.plus(half);
    let exact = (part.value() + half.value()) as nat;
    assert(2 * exact == sample.value() + one);
    reveal(Single::spec_plus);
    if exact == 0 {
        assert(total.bits == 0 || total.bits == 0x8000_0000);
        assert(total.parts().magnitude == 0);
        assert(!half.parts().negative);
        assert(total == Single::zero());
        lemma_zero_points(0, SINGLE);
        lemma_scaled_word(total, scale, 65535);
        crate::single::lemma_zero_times(scale);
        crate::single::lemma_zero_to_word();
        assert(pcm_unsigned(sample) == 0);
        assert(65535 * (sample.value() + one) == 0);
        lemma_at_most_exact(0, 0, 2);
        lemma_at_most_exact(0, 2 * one as int, 2);
        assert(2 * (0 + 1) * one == 2 * one);
        assert(2 * 0 * one == 0);
    } else {
        lemma_rounded_is_nearest(exact, 1, SINGLE);
        lemma_rounded_at_most(exact, 1, 0x3f80_0000, SINGLE);
        assert(total.bits == rounded(exact, 1, SINGLE));
        let t = points(total.bits as nat, SINGLE);
        lemma_below_one();
        assert(exact * 0x200_0000 >= one);
        lemma_one_is_large();
        assert(exact >= leading(SINGLE));
        crate::closeness::lemma_rounded_about(exact, 1);
        assert(t * 1 == t);
        lemma_grown_once(t as int, exact as int);
        assert(t * 0x400_0000 >= one);
        assert(t >= pow2(86)) by {
            lemma_pow2_adds(86, 63);
            lemma_pow2_adds(26, 37);
            lemma_pow2_strictly_increases(26, 63);
            let f = pow2(86);
            assert(t >= f) by (nonlinear_arith)
                requires
                    t * 0x400_0000 >= one,
                    one == f * pow2(63),
                    pow2(63) >= 0x400_0000,
            ;
        }
        lemma_scaled_word(total, scale, 65535);
        let w = total.times(scale).to_word();
        assert(pcm_unsigned(sample) == w);
        let share = 65535 * (sample.value() + one);
        lemma_about_scale(t as int, exact as int, 131070, 1);
        let twice = (t * 131070) as int;
        assert(exact * 131070 == share);
        assert(twice == (65535 * t) * 2);
        crate::closeness::lemma_at_most_scale((w * one) as int, (65535 * t) as int, 2, 1);
        crate::closeness::lemma_at_most_scale((65535 * t) as int, ((w + 1) * one) as int, 2, 1);
        assert((w * one) * 2 == 2 * w * one && ((w + 1) * one) * 2 == 2 * (w + 1) * one)
            by (nonlinear_arith);
        lemma_at_most_chain(2 * w * one, twice, share, 1, 1);
        lemma_at_most_chain(share, twice, 2 * (w + 1) * one, 1, 1);
    }
}

/// Half of a value that is not too faint is exact.
proof fn lemma_half(a: Single)
    requires
        is_audible(a),
        2 * points(HALF as nat, SINGLE) == one_in_points(SINGLE),
    ensures
        is_finite(a.times(Single { bits: HALF })),
        2 * a.times(Single { bits: HALF }).value() == a.value(),
{
    reveal(Single::spec_abs);
    reveal(Single::spec_times);
    let one = one_in_points(SINGLE);
    let mag = a.parts().magnitude as nat;
    let x = points(mag, SINGLE);
    lemma_pow2_pos(149);
    lemma_zero_points(0, SINGLE);
    lemma_leading(SINGLE);
    let y = points(HALF as nat, SINGLE);
    let half = Single { bits: HALF };
    assert(half.parts().magnitude == HALF);
    let product = rounded(x * y, one, SINGLE);
    lemma_rounded_is_nearest(x * y, one, SINGLE);
    if mag == 0 {
        assert(0 * y == 0);
        lemma_rounded_at_most(0, one, 0, SINGLE);
    } else {
        // One step of the exponent below.
        let lower = (mag - leading(SINGLE)) as nat;
        assert(points(lower, SINGLE) * 2 == x) by {
            lemma_lower(mag);
        }
        assert(x * y == points(lower, SINGLE) * one) by (nonlinear_arith)
            requires
                points(lower, SINGLE) * 2 == x,
                2 * y == one,
        ;
        lemma_rounded_points(lower, one, SINGLE);
        assert(product == lower);
    }
}

/// A magnitude with an exponent one less stands for half the value.
pub(crate) proof fn lemma_lower(mag: nat)
    requires
        0x100_0000 <= mag,
    ensures
        points((mag - leading(SINGLE)) as nat, SINGLE) * 2 == points(mag, SINGLE),
{
    lemma_leading(SINGLE);
    let h = leading(SINGLE);
    crate::ieee::lemma_decompose(mag, SINGLE);
    let (q, e) = (significand(mag, SINGLE), exponent(mag, SINGLE));
    assert(e > 0);
    let below = (e - 1) as nat;
    assert(h * e == h * below + h) by (nonlinear_arith)
        requires
            e == below + 1,
    ;
    lemma_compose(q, below, SINGLE);
    lemma_pow2_adds(1, below);
    vstd::arithmetic::power2::lemma2_to64();
    assert(q * pow2(below) * 2 == q * (2 * pow2(below))) by (nonlinear_arith);
}

/// A length is that of some frames at a rate, to the nanosecond.
pub open spec fn lasts(length: Duration, frames: nat, sample_rate: u32) -> bool {
    &&& length.nanos < NANOS_PER_SECOND
    &&& distance(
        (length.seconds * NANOS_PER_SECOND + length.nanos) * sample_rate,
        frames * NANOS_PER_SECOND,
    ) <= sample_rate
}

/// A number of frames at a rate plays for the frames over the rate, to the nanosecond.
pub proof fn law_frames_play_for_their_time(frames: nat, sample_rate: u32)
    requires
        sample_rate > 0,
        frames < 0x20_0000_0000_0000,
        frames <= 0x40_0000 * sample_rate,
    ensures
        lasts(of_nanos(nanoseconds(seconds_at(frames, sample_rate))), frames, sample_rate),
{
    let one = one_in_points(DOUBLE);
    let (f, r) = (frames, sample_rate as nat);
    let seconds = double::whole(f).over(double::whole(r));
    lemma_leading(DOUBLE);
    lemma_pow2_pos(1074);
    lemma_whole_exact(f);
    lemma_whole_exact(r);
    let (a, b) = (double::whole(f), double::whole(r));
    let (x, y) = (points(a.bits as nat, DOUBLE), points(b.bits as nat, DOUBLE));
    assert(x == f * one && y == r * one);
    assert(y > 0) by (nonlinear_arith)
        requires
            y == r * one,
            r > 0,
            one > 0,
    ;
    lemma_zero_points(b.bits as nat, DOUBLE);
    lemma_zero_points(a.bits as nat, DOUBLE);
    let q = rounded(x * one, y, DOUBLE);
    lemma_rounded_is_nearest(x * one, y, DOUBLE);
    assert(seconds.parts().magnitude == q) by {
        reveal(Double::spec_over);
    }
    let p = points(q, DOUBLE);
    let n = nanoseconds(seconds);
    let billion = NANOS_PER_SECOND as nat;
    let e = 0x20_0000_0000_0000nat;
    // The quotient is close to the exact one.
    assert((p * r) * e <= (f * one) * (e + 1) && (f * one) * e <= (p * r) * (e + 1)) by {
        if f == 0 {
            assert(0 * one == 0);
            lemma_rounded_at_most(0, y, 0, DOUBLE);
            lemma_zero_points(0, DOUBLE);
            assert(0 * r == 0);
            assert(0 * e == 0 && 0 * (e + 1) == 0);
        } else {
            let h = leading(DOUBLE);
            lemma_pow2_adds(52, 1022);
            lemma_pow2_strictly_increases(33, 1022);
            vstd::arithmetic::power2::lemma2_to64_rest();
            let rest = pow2(1022);
            assert(x * one >= h * y) by (nonlinear_arith)
                requires
                    x == f * one,
                    y == r * one,
                    f >= 1,
                    one == h * rest,
                    rest >= r,
            ;
            lemma_power_magnitude(64, 0x43f0_0000_0000_0000, DOUBLE);
            assert(x * one <= points(0x43f0_0000_0000_0000, DOUBLE) * y) by (nonlinear_arith)
                requires
                    x == f * one,
                    y == r * one,
                    f <= 0x20_0000_0000_0000,
                    r >= 1,
                    points(0x43f0_0000_0000_0000, DOUBLE) == 0x1_0000_0000_0000_0000 * one,
            ;
            lemma_rounded_at_most(x * one, y, 0x43f0_0000_0000_0000, DOUBLE);
            crate::bounds::lemma_small_points(h, DOUBLE);
            lemma_rounded_at_least(x * one, y, h, DOUBLE);
            lemma_rounded_grows(x * one, y, DOUBLE);
            lemma_rounded_shrinks(x * one, y, DOUBLE);
            assert((p * r) * e <= (f * one) * (e + 1)) by (nonlinear_arith)
                requires
                    p * y * e <= (x * one) * (e + 1),
                    x == f * one,
                    y == r * one,
                    one > 0,
            ;
            assert((f * one) * e <= (p * r) * (e + 1)) by (nonlinear_arith)
                requires
                    (x * one) * e <= p * y * (e + 1),
                    x == f * one,
                    y == r * one,
                    one > 0,
            ;
        }
    }
    // So are its nanoseconds.
    let m = p * billion;
    assert(2 * distance((n * one) as int, m as int) <= one) by {
        vstd::arithmetic::div_mod::lemma_fundamental_div_mod(m as int, one as int);
        let (k, rest) = (m / one, m % one);
        assert(n == k || n == k + 1);
        assert((k + 1) * one == k * one + one && one * k == k * one) by (nonlinear_arith);
    }
    lemma_nanoseconds(p as int, f as int, r as int, one as int, n as int);
    // They fit.
    assert(n <= 0x40_0000 * billion + 1) by (nonlinear_arith)
        requires
            distance(n * r as int, (f * billion) as int) <= r,
            f <= 0x40_0000 * r,
            r > 0,
    ;
    vstd::arithmetic::div_mod::lemma_fundamental_div_mod(n as int, billion as int);
    assert(n / billion <= n) by (nonlinear_arith)
        requires
            n >= 0,
            billion == 1_000_000_000,
    ;
    let length = of_nanos(n);
    assert(length.seconds * NANOS_PER_SECOND + length.nanos == n);
}

/// A buffer plays for its frames over its rate, to the nanosecond.
pub proof fn law_length_is_the_frames_over_the_rate(buffer: PlaybackBuffer)
    requires
        buffer.sample_rate > 0,
        buffer.frames() < 0x20_0000_0000_0000,
        buffer.frames() <= 0x40_0000 * buffer.sample_rate,
    ensures
        lasts(buffer.length(), buffer.frames(), buffer.sample_rate),
{
    law_frames_play_for_their_time(buffer.frames(), buffer.sample_rate);
}

/// The arithmetic behind [`law_frames_play_for_their_time`].
proof fn lemma_nanoseconds(p: int, f: int, r: int, one: int, n: int)
    requires
        (p * r) * 0x20_0000_0000_0000 <= (f * one) * 0x20_0000_0000_0001,
        (f * one) * 0x20_0000_0000_0000 <= (p * r) * 0x20_0000_0000_0001,
        2 * distance(n * one, p * 1_000_000_000) <= one,
        0 <= f <= 0x40_0000 * r,
        r > 0,
        one > 0,
        p >= 0,
    ensures
        distance(n * r, f * 1_000_000_000) <= r,
{
    let (u, v) = (p * r, f * one);
    assert(0 <= v <= 0x40_0000 * (r * one)) by (nonlinear_arith)
        requires
            v == f * one,
            0 <= f <= 0x40_0000 * r,
            one > 0,
    ;
    let w = r * one;
    // Apart by less than half of a nanosecond.
    assert(2 * (1_000_000_000 * distance(u, v)) <= w);
    let d = n * one - p * 1_000_000_000;
    assert(-one <= 2 * d <= one);
    assert(-w <= 2 * (d * r) <= w) by (nonlinear_arith)
        requires
            -one <= 2 * d <= one,
            w == r * one,
            r > 0,
    ;
    assert(d * r == n * w - 1_000_000_000 * u) by (nonlinear_arith)
        requires
            d == n * one - p * 1_000_000_000,
            w == r * one,
            u == p * r,
    ;
    let g = n * r - f * 1_000_000_000;
    assert(g * one == n * w - 1_000_000_000 * v) by (nonlinear_arith)
        requires
            g == n * r - f * 1_000_000_000,
            w == r * one,
            v == f * one,
    ;
    assert(-w <= g * one <= w);
    assert(-r <= g <= r) by (nonlinear_arith)
        requires
            -w <= g * one <= w,
            w == r * one,
            one > 0,
    ;
}

/// A length in seconds is its seconds and nanoseconds, up to three roundings.
pub proof fn law_seconds_are_those_of_the_length(length: Duration)
    requires
        length.nanos < NANOS_PER_SECOND,
    ensures
        length.as_seconds().is_level(),
        about(
            (size(length.as_seconds()) * NANOS_PER_SECOND) as int,
            ((length.seconds * NANOS_PER_SECOND + length.nanos) * one_in_points(SINGLE)) as int,
            3,
        ),
        length.as_seconds() == Single::zero() <==> length.seconds == 0 && length.nanos == 0,
{
    let one = one_in_points(SINGLE);
    let billion = NANOS_PER_SECOND as nat;
    let (a, b, c) = (whole(length.seconds as nat), whole(length.nanos as nat), whole(billion));
    let part = b.over(c);
    let sum = a.plus(part);
    reveal(Single::spec_abs);
    lemma_pow2_pos(149);
    lemma_one_is_large();
    lemma_leading(SINGLE);
    lemma_zero_points(0, SINGLE);
    lemma_power_magnitude(0, 0x3f80_0000, SINGLE);
    lemma_power_magnitude(64, 0x5f80_0000, SINGLE);
    lemma_power_magnitude(65, 0x6000_0000, SINGLE);
    vstd::arithmetic::power2::lemma2_to64();
    vstd::arithmetic::power2::lemma2_to64_rest();
    lemma_pow2_adds(64, 1);
    let h = leading(SINGLE);
    // A billion, exactly.
    let z = points(c.bits as nat, SINGLE);
    assert(z == billion * one && c.bits < 0x7f80_0000) by {
        lemma_pow2_adds(9, 149);
        let mag = lemma_representable(1953125, 158, SINGLE);
        lemma_rounded_points(mag, 1, SINGLE);
        assert(1953125 * (512 * one) == billion * one) by (nonlinear_arith)
            requires
                billion == 1_000_000_000,
        ;
        reveal(whole);
        lemma_rounded_is_nearest(billion * one, 1, SINGLE);
    }
    lemma_zero_points(c.bits as nat, SINGLE);
    assert(z > 0);
    // The whole seconds.
    let x = points(a.bits as nat, SINGLE);
    assert(about(x as int, (length.seconds * one) as int, 1) && a.bits <= 0x5f80_0000 && (
    length.seconds > 0 ==> x >= one) && (length.seconds == 0 ==> x == 0)) by {
        if length.seconds == 0 {
            crate::single::lemma_whole_zero();
            assert(0 * one == 0);
            crate::closeness::lemma_about_itself(0, 1);
        } else {
            let n = length.seconds as nat;
            crate::closeness::lemma_whole_about(n);
            reveal(whole);
            lemma_rounded_is_nearest(n * one, 1, SINGLE);
            assert(n * one >= 1 * one) by (nonlinear_arith)
                requires
                    n >= 1,
            ;
            lemma_rounded_at_least(n * one, 1, 0x3f80_0000, SINGLE);
            lemma_points_order(0x3f80_0000, a.bits as nat, SINGLE);
        }
    }
    // The nanoseconds.
    let y = points(b.bits as nat, SINGLE);
    let q = points(part.bits as nat, SINGLE);
    assert(part.bits < 0x7f80_0000 && part.bits <= 0x5f80_0000 && about(
        (q * billion) as int,
        (length.nanos * one) as int,
        2,
    ) && (length.nanos > 0 ==> q >= h) && (length.nanos == 0 ==> q == 0)) by {
        if length.nanos == 0 {
            crate::single::lemma_whole_zero();
            crate::single::lemma_zero_over(c);
            assert(0 * one == 0 && 0 * billion == 0);
            crate::closeness::lemma_about_itself(0, 2);
        } else {
            let n = length.nanos as nat;
            crate::closeness::lemma_whole_about(n);
            lemma_grown_once(y as int, (n * one) as int);
            assert(2 * y >= one) by (nonlinear_arith)
                requires
                    n * one <= 2 * y,
                    n >= 1,
            ;
            assert(y * one >= h * z) by (nonlinear_arith)
                requires
                    2 * y >= one,
                    z == 1_000_000_000 * one,
                    one >= h * 0x4_0000_0000_0000,
            ;
            lemma_points_order(b.bits as nat, 0x5f80_0000, SINGLE);
            assert(part.bits <= 0x5f80_0000 && part.bits >= h) by {
                reveal(Single::spec_over);
                lemma_rounded_is_nearest(y * one, z, SINGLE);
                let top = points(0x5f80_0000, SINGLE);
                assert(y * one <= top * z) by (nonlinear_arith)
                    requires
                        y <= top,
                        z == 1_000_000_000 * one,
                ;
                lemma_rounded_at_most(y * one, z, 0x5f80_0000, SINGLE);
                crate::bounds::lemma_small_points(h, SINGLE);
                lemma_rounded_at_least(y * one, z, h, SINGLE);
            }
            lemma_points_order(h, part.bits as nat, SINGLE);
            crate::bounds::lemma_small_points(h, SINGLE);
            crate::closeness::lemma_quotient_about(b, c);
            // q z ~ y one, y ~ n one
            assert(q * z == (q * billion) * one) by (nonlinear_arith)
                requires
                    z == billion * one,
            ;
            lemma_about_cancel((q * billion) as int, y as int, one as int, 1);
            lemma_about_chain((q * billion) as int, y as int, (n * one) as int, 1, 1);
        }
    }
    // The sum.
    let exact = x + q;
    lemma_points_order(a.bits as nat, 0x5f80_0000, SINGLE);
    lemma_points_order(part.bits as nat, 0x5f80_0000, SINGLE);
    assert(pow2(65) * one == 2 * (pow2(64) * one)) by (nonlinear_arith)
        requires
            pow2(65) == pow2(64) * 2,
    ;
    assert(exact == 0 || exact >= h);
    lemma_rounded_at_most(exact, 1, 0x6000_0000, SINGLE);
    lemma_rounded_is_nearest(exact, 1, SINGLE);
    assert(sum.bits == if exact == 0 { 0 } else { rounded(exact, 1, SINGLE) }) by {
        reveal(Single::spec_plus);
    }
    let s = points(sum.bits as nat, SINGLE);
    let (m, n) = (length.seconds as nat, length.nanos as nat);
    lemma_about_scale(x as int, (m * one) as int, billion as int, 1);
    assert((m * one) * billion == (m * billion) * one && (m * billion) * one + n * one == (m
        * billion + n) * one && exact * billion == x * billion + q * billion) by (nonlinear_arith)
        requires
            exact == x + q,
    ;
    assert(x * billion >= 0 && (m * billion) * one >= 0) by (nonlinear_arith);
    crate::closeness::lemma_about_weaken(
        (x * billion) as int,
        ((m * billion) * one) as int,
        1,
        2,
    );
    crate::rms::lemma_about_sum(
        (x * billion) as int,
        ((m * billion) * one) as int,
        (q * billion) as int,
        (n * one) as int,
        2,
    );
    let total = ((m * billion + n) * one) as int;
    if exact == 0 {
        assert(0 * billion == 0);
        assert(total == 0);
        crate::closeness::lemma_about_itself(0, 3);
    } else {
        assert(exact >= leading(SINGLE) * 1) by (nonlinear_arith)
            requires
                exact >= h,
                h == leading(SINGLE),
        ;
        crate::closeness::lemma_rounded_about(exact, 1);
        assert(s * 1 == s);
        lemma_about_scale(s as int, exact as int, billion as int, 1);
        lemma_about_chain((s * billion) as int, (exact * billion) as int, total, 1, 2);
        crate::bounds::lemma_small_points(h, SINGLE);
        lemma_rounded_at_least(exact, 1, h, SINGLE);
        assert(sum.bits >= h);
    }
    assert(length.as_seconds() == sum);
}

/// A sample at a gain: silence at none, the sample itself at a gain of one, and no louder at less.
pub open spec fn is_scaled(shown: Single, sample: Single, gain: Single) -> bool {
    is_finite(sample) ==> {
        &&& gain == Single::zero() ==> shown.value() == 0
        &&& gain == Single::one() ==> shown == sample
        &&& gain.bits <= Single::one().bits ==> size(shown) <= size(sample)
    }
}

/// A gain scales a sample.
pub proof fn law_gain_scales(sample: Single, gain: Single)
    ensures
        is_scaled(sample.times(gain), sample, gain),
{
    if is_finite(sample) && gain.bits <= Single::one().bits {
        let one = one_in_points(SINGLE);
        let shown = sample.times(gain);
        let m = sample.parts().magnitude as nat;
        reveal(Single::spec_abs);
        reveal(Single::spec_times);
        lemma_pow2_pos(149);
        lemma_zero_points(0, SINGLE);
        lemma_leading(SINGLE);
        lemma_power_magnitude(0, 0x3f80_0000, SINGLE);
        vstd::arithmetic::power2::lemma2_to64();
        lemma_points_order(gain.bits as nat, 0x3f80_0000, SINGLE);
        let (x, y) = (points(m, SINGLE), points(gain.bits as nat, SINGLE));
        assert(x * y <= x * one) by (nonlinear_arith)
            requires
                y <= one,
        ;
        lemma_rounded_at_most(x * y, one, m, SINGLE);
        lemma_rounded_is_nearest(x * y, one, SINGLE);
        let q = rounded(x * y, one, SINGLE);
        assert(shown.parts().magnitude == q);
        lemma_points_order(q, m, SINGLE);
        if gain == Single::zero() {
            assert(x * 0 == 0);
            lemma_rounded_at_most(0, one, 0, SINGLE);
        }
        if gain == Single::one() {
            lemma_rounded_points(m, one, SINGLE);
            assert(q == m);
        }
    }
}

/// What one call puts out is its frames where they lie within full scale, the nearest end of the
/// scale where they pass it, and silence after them.
pub proof fn law_output_is_held_to_full_scale(frames: Seq<Single>, output_len: nat, i: int)
    requires
        0 <= i < output_len,
    ensures
        emitted(frames, output_len).len() == output_len,
        i >= frames.len() ==> emitted(frames, output_len)[i] == Single::zero(),
        i < frames.len() && is_finite(frames[i]) && frames[i].abs().bits <= Single::one().bits
            ==> emitted(frames, output_len)[i] == frames[i],
        i < frames.len() && Single::one().less(frames[i]) ==> emitted(frames, output_len)[i]
            == Single::one(),
        i < frames.len() && frames[i].less(Single::one().negated()) ==> emitted(
            frames,
            output_len,
        )[i] == Single::one().negated(),
{
    if i < frames.len() {
        if is_finite(frames[i]) && frames[i].abs().bits <= Single::one().bits {
            lemma_within_full_scale(frames[i]);
        }
        reveal(Single::spec_less);
        reveal(Single::spec_negated);
        lemma_leading(SINGLE);
        lemma_power_magnitude(0, 0x3f80_0000, SINGLE);
        let minus = Single::one().negated();
        assert(minus.parts().magnitude == 0x3f80_0000 && minus.parts().negative);
        lemma_zero_points(0x3f80_0000, SINGLE);
    }
}

} // verus!
