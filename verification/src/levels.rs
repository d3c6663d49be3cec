//! How the levels of a waveform compare with its peaks.
use crate::audio::{frames_in, lemma_frame_in};
use crate::bounds::{
    lemma_exponent_bound, lemma_points_order, lemma_representable, lemma_rounded_below_middle,
    lemma_rounded_grows, lemma_rounded_order, lemma_rounded_reach, lemma_rounded_shrinks,
};
use crate::double::{
    self, lemma_over_at_most, lemma_plus_at_most, lemma_sqrt_at_most, lemma_whole_exact,
    lemma_widened, widened, Double,
};
use crate::ieee::{
    exponent, leading, lemma_compose, lemma_decompose, lemma_leading, lemma_points_increase,
    lemma_power_magnitude, lemma_rounded_at_least, lemma_rounded_at_most, lemma_rounded_is_nearest,
    lemma_rounded_points, lemma_step, one_in_points, points, rounded, significand, DOUBLE, SINGLE,
};
use crate::parts::lemma_zero_points;
use crate::signal::{added, lemma_loudest, loudest};
use crate::single::{
    is_finite, is_share, lemma_abs_level, lemma_clamp_level, lemma_level_order, lemma_share_bits,
    lemma_whole_level, whole, Single,
};
use crate::waveform::{
    bin_end, bin_levels, bin_peaks, bin_samples, bin_start, bin_values, lemma_bin_range, level,
    mono_frames, squares,
};
use vstd::arithmetic::power::pow;
use vstd::arithmetic::power2::{lemma_pow2_adds, lemma_pow2_pos, lemma_pow2_unfold, pow2};
use vstd::prelude::*;

verus! {

/// Bits of 2 to the power of 63: samples up to it have squares that a single can hold.
pub const LOUDEST: u32 = 0x5f00_0000;

/// No value of a run is louder than `top`.
pub open spec fn run_within(values: Seq<Single>, top: Single) -> bool {
    forall|i: int|
        0 <= i < values.len() ==> is_finite(#[trigger] values[i]) && values[i].abs().bits
            <= top.bits
}

/// The square of a value is not above the square of a louder one.
pub(crate) proof fn lemma_square(v: Single, top: Single)
    requires
        is_finite(v),
        v.abs().bits <= top.bits <= LOUDEST,
    ensures
        v.times(v).bits <= top.times(top).bits <= 0x7e80_0000,
        top.times(top).bits == rounded(
            points(top.bits as nat, SINGLE) * points(top.bits as nat, SINGLE),
            one_in_points(SINGLE),
            SINGLE,
        ),
{
    reveal(Single::spec_times);
    reveal(Single::spec_abs);
    let one = one_in_points(SINGLE);
    lemma_pow2_pos(149);
    let x = points(v.parts().magnitude as nat, SINGLE);
    let y = points(top.bits as nat, SINGLE);
    lemma_points_order(v.parts().magnitude as nat, top.bits as nat, SINGLE);
    assert(x * x <= y * y) by (nonlinear_arith)
        requires
            x <= y,
    ;
    lemma_rounded_order(x * x, y * y, one, SINGLE);
    lemma_leading(SINGLE);
    lemma_power_magnitude(63, 0x5f00_0000, SINGLE);
    lemma_power_magnitude(126, 0x7e80_0000, SINGLE);
    lemma_points_order(top.bits as nat, 0x5f00_0000, SINGLE);
    lemma_pow2_adds(63, 63);
    let z = pow2(63);
    assert(y * y <= z * z * one * one) by (nonlinear_arith)
        requires
            y <= z * one,
    ;
    lemma_rounded_at_most(y * y, one, 0x7e80_0000, SINGLE);
    assert(top.parts().magnitude == top.bits);
    let m = rounded(x * x, one, SINGLE);
    assert(v.times(v).bits == m);
}

/// Widened squares in points of the wide format.
pub open spec fn wide_square(top: Single) -> nat {
    points(top.times(top).bits as nat, SINGLE) * pow2(925)
}

/// Squares of values that are not too loud add up to a finite sum.
proof fn lemma_squares_finite(values: Seq<Single>, top: Single)
    requires
        values.len() <= 0x1_0000_0000_0000_0000,
        run_within(values, top),
        top.bits <= LOUDEST,
    ensures
        squares(values).bits <= 0x4be0_0000_0000_0000,
        points(squares(values).bits as nat, DOUBLE) <= 2 * values.len() * wide_square(top),
    decreases values.len(),
{
    if values.len() == 0 {
        lemma_whole_exact(0);
        assert(0 * one_in_points(DOUBLE) == 0);
        lemma_zero_points(double::whole(0).bits as nat, DOUBLE);
        assert(2 * 0 * wide_square(top) == 0) by (nonlinear_arith);
    } else {
        let rest = values.drop_last();
        let v = values.last();
        assert(v == values[values.len() - 1]);
        assert(run_within(rest, top)) by {
            assert forall|i: int| 0 <= i < rest.len() implies is_finite(#[trigger] rest[i])
                && rest[i].abs().bits <= top.bits by {
                assert(rest[i] == values[i]);
            }
        }
        lemma_squares_finite(rest, top);
        lemma_square(v, top);
        let a = squares(rest);
        let b = widened(v.times(v));
        lemma_widened(v.times(v));
        let pa = points(a.bits as nat, DOUBLE);
        let pb = points(b.bits as nat, DOUBLE);
        let q = wide_square(top);
        let n = values.len();
        let c = pow2(925);
        lemma_points_order(v.times(v).bits as nat, top.times(top).bits as nat, SINGLE);
        let s = points(v.times(v).bits as nat, SINGLE);
        let t = points(top.times(top).bits as nat, SINGLE);
        assert(s * c <= t * c) by (nonlinear_arith)
            requires
                s <= t,
        ;
        reveal(Double::spec_plus);
        assert(a.parts().magnitude == a.bits && b.parts().magnitude == b.bits);
        lemma_rounded_reach(pa + pb, a.bits as nat, DOUBLE);
        lemma_rounded_is_nearest(pa + pb, 1, DOUBLE);
        assert(2 * n * q == 2 * (n - 1) * q + 2 * q) by (nonlinear_arith);
        lemma_zero_points(0, DOUBLE);
        let r = rounded(pa + pb, 1, DOUBLE);
        assert(points(r, DOUBLE) <= 2 * n * q);
        lemma_sum_room(top, n);
        lemma_points_order(r, 0x4be0_0000_0000_0000, DOUBLE);
        assert(squares(values).bits == if pa + pb == 0 { 0 } else { r });
    }
}

/// As many squares as a word can count leave room in the wide format.
proof fn lemma_sum_room(top: Single, n: nat)
    requires
        n <= 0x1_0000_0000_0000_0000,
        top.bits <= LOUDEST,
    ensures
        2 * n * wide_square(top) <= points(0x4be0_0000_0000_0000, DOUBLE),
{
    reveal(Single::spec_abs);
    assert(top.abs() == top);
    lemma_square(top, top);
    lemma_leading(SINGLE);
    lemma_leading(DOUBLE);
    lemma_power_magnitude(126, 0x7e80_0000, SINGLE);
    lemma_power_magnitude(191, 0x4be0_0000_0000_0000, DOUBLE);
    lemma_points_order(top.times(top).bits as nat, 0x7e80_0000, SINGLE);
    let t = points(top.times(top).bits as nat, SINGLE);
    let c = pow2(925);
    let z = pow2(126);
    let one = one_in_points(SINGLE);
    lemma_pow2_adds(149, 925);
    lemma_pow2_adds(65, 126);
    lemma_pow2_adds(1, 64);
    vstd::arithmetic::power2::lemma2_to64();
    assert(2 * n <= pow2(65));
    let w = pow2(65);
    assert(2 * n * (t * c) <= w * z * (one * c)) by (nonlinear_arith)
        requires
            2 * n <= w,
            t <= z * one,
    ;
}

/// The most values whose squares are added without a rounding that matters.
pub const LONGEST_RUN: usize = 0x2000_0000;

/// A multiple of a widened square that needs no rounding.
proof fn lemma_multiple(top: Single, n: nat) -> (mag: nat)
    requires
        n <= LONGEST_RUN,
        top.bits <= LOUDEST,
    ensures
        points(mag, DOUBLE) == n * wide_square(top),
        mag < 0x7ff0_0000_0000_0000,
{
    reveal(Single::spec_abs);
    assert(top.abs() == top);
    lemma_square(top, top);
    let m = top.times(top).bits as nat;
    let q = significand(m, SINGLE);
    let e = exponent(m, SINGLE);
    lemma_leading(SINGLE);
    lemma_leading(DOUBLE);
    lemma_decompose(m, SINGLE);
    lemma_exponent_bound(m, SINGLE);
    assert(n * q < 0x20_0000_0000_0000) by (nonlinear_arith)
        requires
            n <= 0x2000_0000,
            q < 0x100_0000,
    ;
    let mag = lemma_representable(n * q, e + 925, DOUBLE);
    lemma_pow2_adds(e, 925);
    let x = pow2(e);
    let c = pow2(925);
    assert(n * q * (x * c) == n * (q * x * c)) by (nonlinear_arith);
    mag
}

/// Squares of values that are not louder than `top` add up to at most as many of its squares.
pub(crate) proof fn lemma_squares_within(values: Seq<Single>, top: Single)
    requires
        values.len() <= LONGEST_RUN,
        run_within(values, top),
        top.bits <= LOUDEST,
    ensures
        squares(values).bits < 0x7ff0_0000_0000_0000,
        points(squares(values).bits as nat, DOUBLE) <= values.len() * wide_square(top),
    decreases values.len(),
{
    if values.len() == 0 {
        lemma_whole_exact(0);
        assert(0 * one_in_points(DOUBLE) == 0);
        assert(0 * wide_square(top) == 0);
    } else {
        let rest = values.drop_last();
        let v = values.last();
        assert(v == values[values.len() - 1]);
        assert(run_within(rest, top)) by {
            assert forall|i: int| 0 <= i < rest.len() implies is_finite(#[trigger] rest[i])
                && rest[i].abs().bits <= top.bits by {
                assert(rest[i] == values[i]);
            }
        }
        lemma_squares_within(rest, top);
        lemma_square(v, top);
        let a = squares(rest);
        let b = widened(v.times(v));
        lemma_widened(v.times(v));
        let q = wide_square(top);
        let n = values.len();
        let c = pow2(925);
        lemma_points_order(v.times(v).bits as nat, top.times(top).bits as nat, SINGLE);
        let x = points(v.times(v).bits as nat, SINGLE);
        let t = points(top.times(top).bits as nat, SINGLE);
        assert(x * c <= t * c) by (nonlinear_arith)
            requires
                x <= t,
        ;
        assert(n * q == (n - 1) * q + q) by (nonlinear_arith);
        let limit = lemma_multiple(top, n);
        lemma_plus_at_most(a, b, limit);
        lemma_points_order(squares(values).bits as nat, limit, DOUBLE);
    }
}

/// The level of values that are numbers and not too loud is a number from zero to one.
pub(crate) proof fn lemma_level_number(values: Seq<Single>, top: Single)
    requires
        0 < values.len() <= 0x1_0000_0000_0000_0000,
        run_within(values, top),
        top.bits <= LOUDEST,
    ensures
        level(values).bits <= Single::one().bits,
{
    lemma_squares_finite(values, top);
    let limit = 0x4be0_0000_0000_0000nat;
    let n = values.len();
    let total = squares(values);
    let count = double::whole(n);
    let one = one_in_points(DOUBLE);
    let unit_mag = 0x3ff0_0000_0000_0000nat;
    lemma_pow2_pos(1074);
    vstd::arithmetic::power2::lemma2_to64();
    lemma_leading(DOUBLE);
    lemma_power_magnitude(0, unit_mag, DOUBLE);
    lemma_points_increase(unit_mag, limit, DOUBLE);
    assert(unit_mag <= count.bits < 0x7ff0_0000_0000_0000) by {
        reveal(double::whole);
        let high = 0x43f0_0000_0000_0000nat;
        lemma_power_magnitude(64, high, DOUBLE);
        assert(n * one >= points(unit_mag, DOUBLE) * 1) by (nonlinear_arith)
            requires
                n >= 1,
                points(unit_mag, DOUBLE) == 1 * one,
        ;
        lemma_rounded_at_least(n * one, 1, unit_mag, DOUBLE);
        assert(n * one <= points(high, DOUBLE) * 1) by (nonlinear_arith)
            requires
                n <= 0x1_0000_0000_0000_0000,
                points(high, DOUBLE) == 0x1_0000_0000_0000_0000 * one,
        ;
        lemma_rounded_at_most(n * one, 1, high, DOUBLE);
    }
    lemma_points_order(total.bits as nat, limit, DOUBLE);
    lemma_points_order(unit_mag, count.bits as nat, DOUBLE);
    let x = points(total.bits as nat, DOUBLE);
    let y = points(limit, DOUBLE);
    let d = points(count.bits as nat, DOUBLE);
    assert(x * one <= y * d) by (nonlinear_arith)
        requires
            x <= y,
            one <= d,
    ;
    lemma_over_at_most(total, count, limit);
    let mean = total.over(count);
    lemma_points_order(mean.bits as nat, limit, DOUBLE);
    let z = points(mean.bits as nat, DOUBLE);
    assert(z * one <= y * y) by (nonlinear_arith)
        requires
            z <= y,
            one <= y,
    ;
    lemma_sqrt_at_most(mean, limit);
    let root = mean.sqrt();
    let narrow = root.to_single();
    assert(narrow.is_level()) by {
        reveal(Double::spec_to_single);
        lemma_pow2_pos(925);
        assert(root.parts().magnitude == root.bits);
        lemma_rounded_is_nearest(points(root.bits as nat, DOUBLE), pow2(925), SINGLE);
    }
    lemma_clamp_level(narrow, Single::zero(), Single::one());
}

/// Bits of 2 to the power of -63: samples from it on have squares that lose nothing to
/// underflow.
pub const FAINTEST: u32 = 0x2000_0000;

/// The root of a rounded square, in the wide format, comes short of the middle to the next
/// single.
proof fn lemma_root_of_square(top: Single) -> (mag: nat)
    requires
        FAINTEST <= top.bits <= LOUDEST,
    ensures
        mag < 0x7ff0_0000_0000_0000,
        wide_square(top) * one_in_points(DOUBLE) <= points(mag, DOUBLE) * points(mag, DOUBLE),
        2 * points(mag, DOUBLE) < (points(top.bits as nat, SINGLE) + points(
            (top.bits + 1) as nat,
            SINGLE,
        )) * pow2(925),
{
    let m = top.bits as nat;
    let s = significand(m, SINGLE);
    let e = exponent(m, SINGLE);
    let one = one_in_points(SINGLE);
    let g = pow2(e);
    let d = 0x100_0000nat;
    reveal(Single::spec_abs);
    assert(top.abs() == top);
    lemma_leading(SINGLE);
    lemma_leading(DOUBLE);
    lemma_decompose(m, SINGLE);
    lemma_exponent_bound(m, SINGLE);
    lemma_step(m, SINGLE);
    lemma_pow2_pos(e);
    lemma_pow2_pos(149);
    lemma_square(top, top);
    let y = points(m, SINGLE);
    assert(y == s * g);
    // The square is a normal value.
    assert(y * y >= leading(SINGLE) * one) by {
        lemma_compose(leading(SINGLE), 63, SINGLE);
        assert(leading(SINGLE) + leading(SINGLE) * 63 == 0x2000_0000);
        lemma_points_order(0x2000_0000, m, SINGLE);
        lemma_pow2_adds(23, 63);
        lemma_pow2_adds(86, 86);
        lemma_pow2_adds(23, 149);
        let f = pow2(86);
        assert(y * y >= f * f) by (nonlinear_arith)
            requires
                y >= f,
        ;
    }
    lemma_rounded_grows(y * y, one, SINGLE);
    let t = points(top.times(top).bits as nat, SINGLE);
    assert(t * one * d <= y * y * (d + 1));
    // A little short of the middle between the single and the next.
    let k = (0x800_0000 * s + 0x3ff_ffff) as nat;
    assert(k < 0x20_0000_0000_0000);
    let mag = lemma_representable(k, e + 898, DOUBLE);
    lemma_pow2_adds(e, 898);
    lemma_pow2_adds(27, 898);
    vstd::arithmetic::power2::lemma2_to64();
    let h = pow2(898);
    let c = pow2(925);
    lemma_pow2_pos(898);
    let v = points(mag, DOUBLE);
    assert(c == 0x800_0000 * h);
    assert(v == k * (g * h));
    assert(2 * (k * (g * h)) < (s * g + (s * g + g)) * (0x800_0000 * h)) by (nonlinear_arith)
        requires
            2 * k < (2 * s + 1) * 0x800_0000,
            g > 0,
            h > 0,
    ;
    assert(t * c * one_in_points(DOUBLE) <= v * v) by {
        lemma_pow2_adds(149, 925);
        lemma_middle(s, g, h, k, t, one);
        assert(t * (0x800_0000 * h) * (one * (0x800_0000 * h)) == t * one * (0x800_0000 * h) * (
        0x800_0000 * h)) by (nonlinear_arith);
    }
    mag
}

/// The arithmetic behind [`lemma_root_of_square`].
proof fn lemma_middle(s: nat, g: nat, h: nat, k: nat, t: nat, one: nat)
    requires
        s < 0x100_0000,
        k == 0x800_0000 * s + 0x3ff_ffff,
        t * one * 0x100_0000 <= (s * g) * (s * g) * 0x100_0001,
    ensures
        t * one * (0x800_0000 * h) * (0x800_0000 * h) <= (k * (g * h)) * (k * (g * h)),
{
    let w = 0x800_0000nat;
    let d = 0x100_0000nat;
    // (s w)^2 (d + 1) <= k^2 d
    assert(s * s * 0x100_0001 * (w * w) <= k * k * d) by (nonlinear_arith)
        requires
            s < 0x100_0000,
            w == 0x800_0000,
            d == 0x100_0000,
            k == 0x800_0000 * s + 0x3ff_ffff,
    ;
    let gh = g * h;
    assert((t * one * d) * (w * h) * (w * h) <= ((s * g) * (s * g) * 0x100_0001) * (w * h) * (w * h))
        by (nonlinear_arith)
        requires
            t * one * d <= (s * g) * (s * g) * 0x100_0001,
    ;
    assert(((s * g) * (s * g) * 0x100_0001) * (w * h) * (w * h) == (s * s * 0x100_0001 * (w * w)) * (
    gh * gh)) by (nonlinear_arith)
        requires
            gh == g * h,
    ;
    assert((s * s * 0x100_0001 * (w * w)) * (gh * gh) <= (k * k * d) * (gh * gh)) by (nonlinear_arith)
        requires
            s * s * 0x100_0001 * (w * w) <= k * k * d,
    ;
    assert((k * k * d) * (gh * gh) == ((k * gh) * (k * gh)) * d) by (nonlinear_arith);
    assert((t * one * d) * (w * h) * (w * h) == (t * one * (w * h) * (w * h)) * d) by (nonlinear_arith);
    let x = t * one * (w * h) * (w * h);
    let y = (k * gh) * (k * gh);
    assert(x <= y) by (nonlinear_arith)
        requires
            x * d <= y * d,
            d > 0,
    ;
}

/// The root of the mean square of values that are not louder than `top` is not above it.
pub(crate) proof fn lemma_raw_at_most(values: Seq<Single>, top: Single)
    requires
        0 < values.len() <= LONGEST_RUN,
        run_within(values, top),
        FAINTEST <= top.bits <= LOUDEST,
    ensures
        squares(values).over(double::whole(values.len())).sqrt().to_single().bits <= top.bits,
{
    lemma_squares_within(values, top);
    let n = values.len();
    let total = squares(values);
    let count = double::whole(n);
    let one = one_in_points(DOUBLE);
    let q = wide_square(top);
    lemma_whole_exact(n);
    lemma_pow2_pos(1074);
    assert(n * one > 0) by (nonlinear_arith)
        requires
            n > 0,
            one > 0,
    ;
    lemma_zero_points(count.bits as nat, DOUBLE);
    let once = lemma_multiple(top, 1);
    let x = points(total.bits as nat, DOUBLE);
    assert(x * one <= (1 * q) * (n * one)) by (nonlinear_arith)
        requires
            x <= n * q,
    ;
    lemma_over_at_most(total, count, once);
    let mean = total.over(count);
    lemma_points_order(mean.bits as nat, once, DOUBLE);
    let limit = lemma_root_of_square(top);
    let z = points(mean.bits as nat, DOUBLE);
    assert(z * one <= q * one) by (nonlinear_arith)
        requires
            z <= q,
    ;
    lemma_sqrt_at_most(mean, limit);
    let root = mean.sqrt();
    lemma_points_order(root.bits as nat, limit, DOUBLE);
    let narrow = root.to_single();
    lemma_pow2_pos(925);
    lemma_rounded_below_middle(
        points(root.bits as nat, DOUBLE),
        pow2(925),
        top.bits as nat,
        SINGLE,
    );
    assert(narrow.bits <= top.bits) by {
        reveal(Double::spec_to_single);
        assert(root.parts().magnitude == root.bits);
    }
}

/// The level of values that are not louder than `top` is not above it.
pub(crate) proof fn lemma_level_at_most(values: Seq<Single>, top: Single)
    requires
        0 < values.len() <= LONGEST_RUN,
        run_within(values, top),
        FAINTEST <= top.bits <= LOUDEST,
    ensures
        level(values).bits <= top.bits,
{
    lemma_raw_at_most(values, top);
    let narrow = squares(values).over(double::whole(values.len())).sqrt().to_single();
    lemma_level_order(narrow, Single::zero());
    lemma_level_order(Single::one(), narrow);
}

/// The absolute value in points.
pub open spec fn size(a: Single) -> nat {
    points(a.abs().bits as nat, SINGLE)
}

/// A sum's size is its exact size, rounded, and the exact size is at most that of both together.
pub(crate) proof fn lemma_sum_size(a: Single, b: Single) -> (exact: nat)
    requires
        is_finite(a),
        is_finite(b),
    ensures
        exact <= size(a) + size(b),
        a.plus(b).abs().bits == rounded(exact, 1, SINGLE),
        is_finite(a.plus(b)) <==> rounded(exact, 1, SINGLE) < 0x7f80_0000,
{
    reveal(Single::spec_plus);
    reveal(Single::spec_abs);
    let sum = a.value() + b.value();
    let exact: nat = if sum >= 0 {
        sum as nat
    } else {
        (-sum) as nat
    };
    lemma_rounded_is_nearest(exact, 1, SINGLE);
    lemma_zero_points(0, SINGLE);
    lemma_rounded_at_most(0, 1, 0, SINGLE);
    assert(a.parts().magnitude == a.abs().bits);
    assert(b.parts().magnitude == b.abs().bits);
    let m = rounded(exact, 1, SINGLE);
    assert(a.plus(b).parts().magnitude == m);
    exact
}

/// A run added up is finite: it is at most twice as many times the loudest value.
pub(crate) proof fn lemma_added_reach(values: Seq<Single>, top: Single)
    requires
        values.len() <= 0x1_0000_0000_0000_0000,
        run_within(values, top),
        top.bits <= Single::one().bits,
    ensures
        is_finite(added(Single::zero(), values)),
        size(added(Single::zero(), values)) <= 2 * values.len() * points(top.bits as nat, SINGLE),
    decreases values.len(),
{
    let n = values.len();
    let t = points(top.bits as nat, SINGLE);
    if n == 0 {
        reveal(Single::spec_abs);
        lemma_zero_points(0, SINGLE);
        assert(2 * 0 * t == 0) by (nonlinear_arith);
    } else {
        let rest = values.drop_last();
        let v = values.last();
        assert(v == values[n - 1]);
        assert(run_within(rest, top)) by {
            assert forall|i: int| 0 <= i < rest.len() implies is_finite(#[trigger] rest[i])
                && rest[i].abs().bits <= top.bits by {
                assert(rest[i] == values[i]);
            }
        }
        lemma_added_reach(rest, top);
        let a = added(Single::zero(), rest);
        let exact = lemma_sum_size(a, v);
        let m = rounded(exact, 1, SINGLE);
        lemma_points_order(v.abs().bits as nat, top.bits as nat, SINGLE);
        if exact >= size(a) {
            lemma_rounded_reach(exact, a.abs().bits as nat, SINGLE);
        } else {
            lemma_rounded_at_most(exact, 1, a.abs().bits as nat, SINGLE);
            lemma_points_order(m, a.abs().bits as nat, SINGLE);
        }
        assert(2 * n * t == 2 * (n - 1) * t + 2 * t) by (nonlinear_arith);
        assert(points(m, SINGLE) <= 2 * n * t);
        let high = 0x6000_0000nat;
        lemma_leading(SINGLE);
        lemma_power_magnitude(0, 0x3f80_0000, SINGLE);
        lemma_power_magnitude(65, high, SINGLE);
        lemma_points_order(top.bits as nat, 0x3f80_0000, SINGLE);
        vstd::arithmetic::power2::lemma2_to64();
        lemma_pow2_adds(1, 64);
        let one = one_in_points(SINGLE);
        let w = pow2(65);
        assert(2 * n * t <= w * one) by (nonlinear_arith)
            requires
                2 * n <= w,
                t <= 1 * one,
        ;
        lemma_points_order(m, high, SINGLE);
    }
}

/// What one rounding can make of a value: one part in two to the power of 24 more.
pub open spec fn grown(k: nat) -> int {
    pow(0x100_0001, k)
}

/// What [`grown`] is a multiple of.
pub open spec fn ungrown(k: nat) -> int {
    pow(0x100_0000, k)
}

/// One rounding more.
pub(crate) proof fn lemma_grown(k: nat)
    ensures
        grown(k + 1) == 0x100_0001 * grown(k),
        ungrown(k + 1) == 0x100_0000 * ungrown(k),
        0 < ungrown(k) <= grown(k),
        grown(0) == 1,
        ungrown(0) == 1,
    decreases k,
{
    reveal(pow);
    if k > 0 {
        lemma_grown((k - 1) as nat);
    }
}

/// A run added up passes as many times the loudest value by no more than a rounding for each.
proof fn lemma_added_grows(values: Seq<Single>, top: Single)
    requires
        values.len() <= 0x1_0000_0000_0000_0000,
        run_within(values, top),
        top.bits <= Single::one().bits,
    ensures
        size(added(Single::zero(), values)) * ungrown(values.len()) <= values.len() * points(
            top.bits as nat,
            SINGLE,
        ) * grown(values.len()),
    decreases values.len(),
{
    let n = values.len();
    let t = points(top.bits as nat, SINGLE);
    lemma_grown(n);
    if n == 0 {
        reveal(Single::spec_abs);
        lemma_zero_points(0, SINGLE);
        assert(0 * t * grown(0) == 0) by (nonlinear_arith);
        assert(0 * ungrown(0) == 0) by (nonlinear_arith);
    } else {
        let rest = values.drop_last();
        let v = values.last();
        let k = (n - 1) as nat;
        assert(v == values[n - 1]);
        assert(run_within(rest, top)) by {
            assert forall|i: int| 0 <= i < rest.len() implies is_finite(#[trigger] rest[i])
                && rest[i].abs().bits <= top.bits by {
                assert(rest[i] == values[i]);
            }
        }
        lemma_added_reach(rest, top);
        lemma_added_grows(rest, top);
        let a = added(Single::zero(), rest);
        let exact = lemma_sum_size(a, v);
        lemma_points_order(v.abs().bits as nat, top.bits as nat, SINGLE);
        lemma_rounded_grows(exact, 1, SINGLE);
        lemma_leading(SINGLE);
        lemma_grown(k);
        lemma_growth_step(
            points(rounded(exact, 1, SINGLE), SINGLE) as int,
            exact as int,
            size(a) as int,
            t as int,
            k as int,
            ungrown(k),
            grown(k),
        );
    }
}

/// The arithmetic behind [`lemma_added_grows`].
proof fn lemma_growth_step(r: int, exact: int, a: int, t: int, k: int, u: int, g: int)
    requires
        r * 0x100_0000 <= exact * 0x100_0001,
        exact <= a + t,
        a * u <= k * t * g,
        0 < u <= g,
        0 <= t,
        0 <= k,
    ensures
        r * (0x100_0000 * u) <= (k + 1) * t * (0x100_0001 * g),
{
    assert((r * 0x100_0000) * u <= ((a + t) * 0x100_0001) * u) by (nonlinear_arith)
        requires
            r * 0x100_0000 <= (a + t) * 0x100_0001,
            u > 0,
    ;
    assert(((a + t) * 0x100_0001) * u == (a * u + t * u) * 0x100_0001) by (nonlinear_arith);
    assert(t * u <= t * g) by (nonlinear_arith)
        requires
            u <= g,
            0 <= t,
    ;
    assert((k * t * g + t * g) * 0x100_0001 == (k + 1) * t * (0x100_0001 * g)) by (nonlinear_arith);
    assert(r * (0x100_0000 * u) == (r * 0x100_0000) * u) by (nonlinear_arith);
}

/// How many roundings can push the mono mix of a frame past the frame's peak: none with one or
/// two channels.
pub open spec fn roundings(channels: nat) -> nat {
    if channels <= 2 {
        0
    } else {
        channels + 2
    }
}

/// The size of a quotient by a whole number.
pub(crate) proof fn lemma_quotient_size(a: Single, n: nat)
    requires
        is_finite(a),
        0 < n <= 0x1_0000_0000_0000_0000,
    ensures
        a.over(whole(n)).abs().bits == rounded(
            size(a) * one_in_points(SINGLE),
            points(whole(n).bits as nat, SINGLE),
            SINGLE,
        ),
        points(whole(n).bits as nat, SINGLE) > 0,
        n * one_in_points(SINGLE) * 0x100_0000 <= points(whole(n).bits as nat, SINGLE)
            * 0x100_0001,
{
    reveal(Single::spec_over);
    reveal(Single::spec_abs);
    let w = whole(n);
    let one = one_in_points(SINGLE);
    lemma_whole_level(n);
    lemma_zero_points(w.bits as nat, SINGLE);
    assert(w.parts().magnitude == w.bits);
    assert(a.parts().magnitude == a.abs().bits);
    let den = points(w.bits as nat, SINGLE);
    lemma_rounded_is_nearest(size(a) * one, den, SINGLE);
    assert(a.over(w).parts().magnitude == rounded(size(a) * one, den, SINGLE));
    reveal(whole);
    lemma_leading(SINGLE);
    lemma_rounded_is_nearest(n * one, 1, SINGLE);
    assert(w.bits == rounded(n * one, 1, SINGLE));
    lemma_rounded_shrinks(n * one, 1, SINGLE);
}

/// The mono mix of a frame is finite.
pub(crate) proof fn lemma_mono_finite(frame: Seq<Single>, top: Single)
    requires
        0 < frame.len() <= 0x1_0000_0000_0000_0000,
        run_within(frame, top),
        top.bits <= Single::one().bits,
    ensures
        is_finite(added(Single::zero(), frame).over(whole(frame.len()))),
        added(Single::zero(), frame).over(whole(frame.len())).abs().bits <= 0x4080_0000,
{
    let n = frame.len();
    let sum = added(Single::zero(), frame);
    let one = one_in_points(SINGLE);
    let t = points(top.bits as nat, SINGLE);
    lemma_added_reach(frame, top);
    lemma_quotient_size(sum, n);
    lemma_leading(SINGLE);
    lemma_power_magnitude(0, 0x3f80_0000, SINGLE);
    lemma_power_magnitude(2, 0x4080_0000, SINGLE);
    lemma_points_order(top.bits as nat, 0x3f80_0000, SINGLE);
    vstd::arithmetic::power2::lemma2_to64();
    let den = points(whole(n).bits as nat, SINGLE);
    let x = size(sum);
    assert(n * one <= 2 * den);
    assert(x * one <= 4 * one * den) by (nonlinear_arith)
        requires
            x <= 2 * n * t,
            t <= 1 * one,
            n * one <= 2 * den,
    ;
    lemma_rounded_at_most(x * one, den, 0x4080_0000, SINGLE);
    reveal(Single::spec_abs);
    assert(sum.over(whole(n)).parts().magnitude == sum.over(whole(n)).abs().bits);
}

/// The mono mix of one or two channels is not louder than the louder of them.
proof fn lemma_mono_of_two(frame: Seq<Single>, top: Single)
    requires
        1 <= frame.len() <= 2,
        run_within(frame, top),
        top.bits <= Single::one().bits,
    ensures
        added(Single::zero(), frame).over(whole(frame.len())).abs().bits <= top.bits,
{
    let n = frame.len();
    let zero = Single::zero();
    let one = one_in_points(SINGLE);
    let m = top.bits as nat;
    let t = points(m, SINGLE);
    let first = frame[0];
    reveal(Single::spec_abs);
    lemma_zero_points(0, SINGLE);
    lemma_points_order(first.abs().bits as nat, m, SINGLE);
    let a = zero.plus(first);
    let exact = lemma_sum_size(zero, first);
    lemma_rounded_at_most(exact, 1, m, SINGLE);
    lemma_points_order(a.abs().bits as nat, m, SINGLE);
    lemma_leading(SINGLE);
    let count = whole(n);
    lemma_added_reach(frame, top);
    lemma_quotient_size(added(zero, frame), n);
    assert(points(count.bits as nat, SINGLE) == n * one) by {
        reveal(whole);
        let mag = lemma_representable(n, 149, SINGLE);
        lemma_rounded_points(mag, 1, SINGLE);
    }
    let sum = added(zero, frame);
    assert(size(sum) <= n * t) by {
        let rest = frame.drop_last();
        if n == 1 {
            assert(added(zero, rest) == zero);
        } else {
            let second = frame[1];
            assert(rest.drop_last().len() == 0);
            assert(rest.last() == first);
            assert(added(zero, rest) == added(zero, rest.drop_last()).plus(first));
            assert(added(zero, rest) == a);
            let whole_sum = lemma_sum_size(a, second);
            lemma_points_order(second.abs().bits as nat, m, SINGLE);
            let q = significand(m, SINGLE);
            let e = exponent(m, SINGLE);
            lemma_decompose(m, SINGLE);
            lemma_exponent_of_one(m);
            let twice = lemma_representable(q, e + 1, SINGLE);
            lemma_pow2_unfold(e + 1);
            assert(q * (2 * pow2(e)) == 2 * (q * pow2(e))) by (nonlinear_arith);
            lemma_rounded_at_most(whole_sum, 1, twice, SINGLE);
            lemma_points_order(sum.abs().bits as nat, twice, SINGLE);
        }
    }
    let x = size(sum);
    assert(x * one <= t * (n * one)) by (nonlinear_arith)
        requires
            x <= n * t,
    ;
    lemma_rounded_at_most(x * one, n * one, m, SINGLE);
}

/// Up to one there is room for a larger exponent.
proof fn lemma_exponent_of_one(mag: nat)
    requires
        mag <= 0x3f80_0000,
    ensures
        exponent(mag, SINGLE) < 253,
{
    lemma_leading(SINGLE);
    lemma_decompose(mag, SINGLE);
    let e = exponent(mag, SINGLE);
    if e >= 253 {
        assert(0x80_0000 * e >= 0x80_0000 * 253);
    }
}

/// The mono mix of a frame passes its loudest channel by no more than its roundings.
proof fn lemma_mono_within(frame: Seq<Single>, top: Single)
    requires
        0 < frame.len() <= 0x1_0000_0000_0000_0000,
        run_within(frame, top),
        FAINTEST <= top.bits <= Single::one().bits,
    ensures
        size(added(Single::zero(), frame).over(whole(frame.len()))) * ungrown(
            roundings(frame.len()),
        ) <= points(top.bits as nat, SINGLE) * grown(roundings(frame.len())),
{
    let n = frame.len();
    let sum = added(Single::zero(), frame);
    let mono = sum.over(whole(n));
    let t = points(top.bits as nat, SINGLE);
    lemma_grown(0);
    if n <= 2 {
        lemma_mono_of_two(frame, top);
        lemma_points_order(mono.abs().bits as nat, top.bits as nat, SINGLE);
        assert(size(mono) * 1 <= t * 1);
    } else {
        let one = one_in_points(SINGLE);
        lemma_pow2_pos(149);
        lemma_added_reach(frame, top);
        lemma_added_grows(frame, top);
        lemma_quotient_size(sum, n);
        lemma_leading(SINGLE);
        let num = size(sum) * one;
        let den = points(whole(n).bits as nat, SINGLE);
        let u = ungrown(n);
        let g = grown(n);
        lemma_grown(n);
        lemma_grown(n + 1);
        lemma_grown(n + 2);
        let r = size(mono);
        if num >= leading(SINGLE) * den {
            lemma_rounded_grows(num, den, SINGLE);
            lemma_mono_growth(
                r as int,
                size(sum) as int,
                den as int,
                n as int,
                one as int,
                t as int,
                u,
                g,
            );
        } else {
            lemma_compose(leading(SINGLE), 0, SINGLE);
            lemma_compose(leading(SINGLE), 63, SINGLE);
            assert(leading(SINGLE) + leading(SINGLE) * 63 == 0x2000_0000);
            assert(leading(SINGLE) * 0 == 0);
            vstd::arithmetic::power2::lemma2_to64();
            lemma_rounded_at_most(num, den, leading(SINGLE), SINGLE);
            lemma_points_order(mono.abs().bits as nat, leading(SINGLE), SINGLE);
            lemma_points_order(leading(SINGLE), 0x2000_0000, SINGLE);
            lemma_points_order(0x2000_0000, top.bits as nat, SINGLE);
            let w = ungrown(n + 2);
            let v = grown(n + 2);
            assert(r * w <= t * v) by (nonlinear_arith)
                requires
                    0 <= r <= t,
                    0 < w <= v,
            ;
        }
    }
}

/// The arithmetic behind [`lemma_mono_within`].
proof fn lemma_mono_growth(
    r: int,
    sum: int,
    den: int,
    n: int,
    one: int,
    t: int,
    u: int,
    g: int,
)
    requires
        r * den * 0x100_0000 <= sum * one * 0x100_0001,
        sum * u <= n * t * g,
        n * one * 0x100_0000 <= den * 0x100_0001,
        den > 0,
        one > 0,
        u > 0,
        g > 0,
        t >= 0,
    ensures
        r * (0x100_0000 * (0x100_0000 * u)) <= t * (0x100_0001 * (0x100_0001 * g)),
{
    let d = 0x100_0000int;
    let e = 0x100_0001int;
    let left = r * (d * (d * u));
    let right = t * (e * (e * g));
    assert(left * den == (r * den * d) * (d * u)) by (nonlinear_arith)
        requires
            left == r * (d * (d * u)),
    ;
    assert((r * den * d) * (d * u) <= (sum * one * e) * (d * u)) by (nonlinear_arith)
        requires
            r * den * d <= sum * one * e,
            d * u > 0,
    ;
    assert((sum * one * e) * (d * u) == (sum * u) * (one * e * d)) by (nonlinear_arith);
    assert((sum * u) * (one * e * d) <= (n * t * g) * (one * e * d)) by (nonlinear_arith)
        requires
            sum * u <= n * t * g,
            one * e * d > 0,
    ;
    assert((n * t * g) * (one * e * d) == (n * one * d) * (t * g * e)) by (nonlinear_arith);
    assert(t * g * e >= 0) by (nonlinear_arith)
        requires
            t >= 0,
            g > 0,
            e > 0,
    ;
    assert((n * one * d) * (t * g * e) <= (den * e) * (t * g * e)) by (nonlinear_arith)
        requires
            n * one * d <= den * e,
            t * g * e >= 0,
    ;
    assert((den * e) * (t * g * e) == right * den) by (nonlinear_arith)
        requires
            right == t * (e * (e * g)),
    ;
    assert(left <= right) by (nonlinear_arith)
        requires
            left * den <= right * den,
            den > 0,
    ;
}

/// The mono mix of samples up to full scale is finite.
proof fn lemma_mono_run(samples: Seq<Single>, channels: usize)
    requires
        channels > 0,
        samples.len() <= usize::MAX,
        run_within(samples, Single::one()),
    ensures
        run_within(mono_frames(samples, channels), Single { bits: 0x4080_0000 }),
{
    let mono = mono_frames(samples, channels);
    assert forall|i: int| 0 <= i < mono.len() implies is_finite(#[trigger] mono[i])
        && mono[i].abs().bits <= 0x4080_0000 by {
        lemma_frame_in(i, samples.len() as int, channels as int);
        let frame = samples.subrange(i * channels, i * channels + channels);
        assert forall|j: int| 0 <= j < frame.len() implies is_finite(#[trigger] frame[j])
            && frame[j].abs().bits <= Single::one().bits by {
            assert(frame[j] == samples[i * channels + j]);
        }
        lemma_mono_finite(frame, Single::one());
    }
}

/// The levels of a signal lie between nothing and full height. The signal is made of numbers,
/// none of them so loud that its square is none.
pub proof fn law_levels_are_heights(values: Seq<Single>, bins: nat, bin: nat)
    requires
        bin < bins,
        values.len() <= usize::MAX,
        run_within(values, Single { bits: LOUDEST }),
    ensures
        is_share(bin_levels(values, bins)[bin as int]),
{
    lemma_share_bits(bin_levels(values, bins)[bin as int]);
    if values.len() > 0 {
        lemma_bin_range(bin, values.len(), bins);
        let run = bin_values(values, bin, bins);
        assert forall|i: int| 0 <= i < run.len() implies is_finite(#[trigger] run[i])
            && run[i].abs().bits <= LOUDEST by {
            assert(run[i] == values[bin_start(bin, values.len(), bins) + i]);
        }
        lemma_level_number(run, Single { bits: LOUDEST });
    }
}

/// The average levels of a track whose samples lie between -1 and 1 are numbers between nothing
/// and full height.
pub proof fn law_rms_is_a_height(samples: Seq<Single>, channels: usize, bins: nat, bin: nat)
    requires
        channels > 0,
        bin < bins,
        samples.len() <= usize::MAX,
        run_within(samples, Single::one()),
    ensures
        is_share(bin_levels(mono_frames(samples, channels), bins)[bin as int]),
{
    let mono = mono_frames(samples, channels);
    lemma_mono_run(samples, channels);
    assert(mono.len() <= samples.len()) by (nonlinear_arith)
        requires
            mono.len() == samples.len() / (channels as nat),
            channels > 0,
    ;
    assert(run_within(mono, Single { bits: LOUDEST }));
    law_levels_are_heights(mono, bins, bin);
}

/// The average level of a bin never passes the bin's peak: both are taken of the same frames.
///
/// With more than two channels the mono mix is rounded, and each rounding can add one part in
/// two to the power of 24. Peaks below 2 to the power of -63 count as that much: the squares of
/// quieter samples underflow. A bin takes up to 2 to the power of 29 frames, so that the sum of
/// their squares needs no rounding up.
pub proof fn law_rms_within_peak(samples: Seq<Single>, channels: usize, bins: nat, bin: nat)
    requires
        channels > 0,
        bin < bins,
        0 < frames_in(samples.len(), channels),
        samples.len() <= usize::MAX,
        run_within(samples, Single::one()),
        bin_end(bin, frames_in(samples.len(), channels), bins) - bin_start(
            bin,
            frames_in(samples.len(), channels),
            bins,
        ) <= LONGEST_RUN,
    ensures
        channels <= 2 ==> bin_levels(mono_frames(samples, channels), bins)[bin as int].at_most(
            bin_peaks(samples, channels, bins)[bin as int].max(Single { bits: FAINTEST }),
        ),
        size(bin_levels(mono_frames(samples, channels), bins)[bin as int]) * ungrown(
            roundings(channels as nat),
        ) <= size(bin_peaks(samples, channels, bins)[bin as int].max(Single { bits: FAINTEST }))
            * grown(roundings(channels as nat)),
{
    let frames = frames_in(samples.len(), channels);
    let mono = mono_frames(samples, channels);
    let start = bin_start(bin, frames, bins);
    let end = bin_end(bin, frames, bins);
    let run = bin_values(mono, bin, bins);
    let taken = bin_samples(samples, channels, bin, bins);
    let faint = Single { bits: FAINTEST };
    let k = roundings(channels as nat);
    lemma_bin_range(bin, frames, bins);
    lemma_mono_run(samples, channels);
    lemma_frame_in(end - 1, samples.len() as int, channels as int);
    assert(0 <= start * channels <= end * channels) by (nonlinear_arith)
        requires
            0 <= start <= end,
    ;
    // The peak.
    let peak = loudest(taken);
    lemma_loudest(taken);
    assert(peak.bits <= Single::one().bits) by {
        if peak != Single::zero() {
            let i = choose|i: int| 0 <= i < taken.len() && peak == (#[trigger] taken[i]).abs();
            assert(taken[i] == samples[start * channels + i]);
        }
    }
    lemma_level_order(peak, Single::zero());
    lemma_level_order(Single::one(), peak);
    assert(samples.len() > 0) by {
        if samples.len() == 0 {
            assert(0nat / (channels as nat) == 0) by (nonlinear_arith)
                requires
                    channels > 0,
            ;
        }
    }
    assert(bin_peaks(samples, channels, bins)[bin as int] == peak);
    lemma_level_order(peak, faint);
    let top = peak.max(faint);
    lemma_level_order(top, faint);
    // The loudest of the mono mix.
    lemma_loudest(run);
    let loud = loudest(run);
    lemma_level_order(loud, faint);
    let high = loud.max(faint);
    assert forall|i: int| 0 <= i < run.len() implies is_finite(#[trigger] run[i])
        && run[i].abs().bits <= high.bits by {
        assert(run[i] == mono[start + i]);
        lemma_abs_level(run[i]);
        lemma_level_order(run[i].abs(), loud);
    }
    lemma_grown(k);
    assert(size(high) * ungrown(k) <= size(top) * grown(k) && high.bits <= LOUDEST && (channels <= 2
        ==> high.bits <= top.bits)) by {
        lemma_level_order(high, high);
        if high == faint {
            lemma_points_order(faint.bits as nat, top.bits as nat, SINGLE);
            let (a, b, u, g) = (size(high) as int, size(top) as int, ungrown(k), grown(k));
            assert(a * u <= b * g) by (nonlinear_arith)
                requires
                    0 <= a <= b,
                    0 < u <= g,
            ;
        } else {
            let i = choose|i: int| 0 <= i < run.len() && loud == (#[trigger] run[i]).abs();
            assert(run[i] == mono[start + i]);
            lemma_frame_within(samples, channels, bin, bins, start + i, top);
            let frame = samples.subrange(
                (start + i) * channels,
                (start + i) * channels + channels,
            );
            lemma_mono_within(frame, top);
            if channels <= 2 {
                lemma_mono_of_two(frame, top);
            }
        }
    }
    lemma_level_at_most(run, high);
    let rms = level(run);
    assert(bin_levels(mono, bins)[bin as int] == rms);
    lemma_level_order(rms, top);
    lemma_points_order(rms.bits as nat, high.bits as nat, SINGLE);
    lemma_level_order(high, top);
    let (a, b, u) = (size(rms) as int, size(high) as int, ungrown(k));
    assert(a * u <= b * u) by (nonlinear_arith)
        requires
            a <= b,
            u > 0,
    ;
}

/// The channels of a frame that a bin takes are not louder than the bin's peak.
proof fn lemma_frame_within(
    samples: Seq<Single>,
    channels: usize,
    bin: nat,
    bins: nat,
    frame: int,
    top: Single,
)
    requires
        channels > 0,
        bin < bins,
        0 < frames_in(samples.len(), channels),
        run_within(samples, Single::one()),
        bin_start(bin, frames_in(samples.len(), channels), bins) <= frame < bin_end(
            bin,
            frames_in(samples.len(), channels),
            bins,
        ),
        loudest(bin_samples(samples, channels, bin, bins)).bits <= top.bits,
        top.is_level(),
    ensures
        0 <= frame * channels,
        frame * channels + channels <= samples.len(),
        run_within(samples.subrange(frame * channels, frame * channels + channels), top),
{
    let frames = frames_in(samples.len(), channels);
    let start = bin_start(bin, frames, bins);
    let end = bin_end(bin, frames, bins);
    let taken = bin_samples(samples, channels, bin, bins);
    lemma_bin_range(bin, frames, bins);
    lemma_frame_in(end - 1, samples.len() as int, channels as int);
    assert(0 <= start * channels <= frame * channels && frame * channels + channels <= end * channels)
        by (nonlinear_arith)
        requires
            0 <= start <= frame,
            frame + 1 <= end,
            channels > 0,
    ;
    let run = samples.subrange(frame * channels, frame * channels + channels);
    lemma_loudest(taken);
    assert forall|j: int| 0 <= j < run.len() implies is_finite(#[trigger] run[j])
        && run[j].abs().bits <= top.bits by {
        let at = frame * channels + j - start * channels;
        assert(run[j] == samples[frame * channels + j]);
        assert(taken[at] == run[j]);
        lemma_abs_level(run[j]);
        lemma_level_order(run[j].abs(), loudest(taken));
    }
}

} // verus!
