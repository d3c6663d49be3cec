//! Where the waveform and the spectrum strip put what they show.
use crate::bounds::{lemma_points_order, lemma_representable};
use crate::closeness::{
    about, lemma_about_cancel, lemma_about_chain, lemma_about_scale, lemma_one_is_normal,
    lemma_product_about, lemma_quotient_about,
};
use crate::color::{color_of_bands, color_of_level, BandLevels, Color};
use crate::columns::{
    bar_height, bar_of, column_slot, column_x, drawn_width, half_height, played_to, progress, Area,
    Column, HALF_SHARE,
};
use crate::frequencies::lemma_small_whole;
use crate::ieee::{
    leading, lemma_leading, lemma_power_magnitude, lemma_rounded_at_most, lemma_rounded_is_nearest,
    lemma_rounded_points, one_in_points, points, SINGLE,
};
use crate::levels::{grown, lemma_grown, size, ungrown};
use crate::metering::lemma_minus_order;
use crate::output::{lemma_grown_once, lemma_lower, lemma_one_is_large};
use crate::parts::lemma_zero_points;
use crate::reduction::{feeding, lemma_bucket_shows, shows_loudest};
use crate::shares::{lemma_plus_order, lemma_times_commutes, lemma_times_one};
use crate::single::{
    is_finite, lemma_level_order, lemma_over_order, lemma_times_at_most, lemma_times_order,
    lemma_zero_times, whole, Single, HALF, TWO,
};
use crate::spectrum::SpectrumParams;
use crate::strip::{
    baseline, half_left, height_y, shared_columns, strip_bars, strip_gap, strip_ridge, strip_slot,
    usable, GAP_SHARE, WIDEST_GAP,
};
use crate::time::Duration;
use crate::waveform::{unit, ColorMode, WaveformParams};
use vstd::arithmetic::power2::{lemma_pow2_adds, lemma_pow2_pos, pow2};
use vstd::prelude::*;

verus! {

/// What has played is the share that the position has of the length, up to one rounding: nothing at
/// the start, everything at the end and after it.
pub proof fn law_progress_is_the_share_played(position: Single, duration: Duration)
    requires
        duration.seconds > 0,
        0 < duration.as_seconds().bits < 0x7f80_0000,
        position.bits < 0x7f80_0000,
    ensures
        position.bits == 0 ==> progress(position, duration) == Single::zero(),
        duration.as_seconds().at_most(position) ==> progress(position, duration) == Single::one(),
        position.at_most(duration.as_seconds()) && size(position) * 0x100_0000 >= size(
            duration.as_seconds(),
        ) ==> about(
            (size(progress(position, duration)) * size(duration.as_seconds())) as int,
            (size(position) * one_in_points(SINGLE)) as int,
            1,
        ),
{
    let one = one_in_points(SINGLE);
    let length = duration.as_seconds();
    let share = position.over(length);
    reveal(Single::spec_abs);
    crate::single::lemma_over_itself(length);
    lemma_level_order(length, position);
    lemma_level_order(position, length);
    lemma_level_order(Single::one(), Single::zero());
    lemma_level_order(Single::zero(), Single::zero());
    if position.bits == 0 {
        crate::single::lemma_zero_over(length);
        assert(unit(Single::zero()) == Single::zero());
    }
    if length.bits <= position.bits {
        lemma_over_order(length, position, length);
        lemma_level_order(Single::one(), share);
        lemma_level_order(share, Single::zero());
    }
    if position.bits <= length.bits {
        lemma_over_order(position, length, length);
        lemma_level_order(share, Single::zero());
        lemma_level_order(Single::one(), share);
        assert(unit(share) == share);
        let (x, y) = (size(position), size(length));
        if x * 0x100_0000 >= y {
            lemma_one_is_large();
            let h = leading(SINGLE);
            assert(x * one >= h * y) by (nonlinear_arith)
                requires
                    x * 0x100_0000 >= y,
                    one >= h * 0x4_0000_0000_0000,
            ;
            lemma_quotient_about(position, length);
        }
    }
}

/// The edge of what has played starts on the left, ends a width further, and moves to the right
/// only.
pub proof fn law_played_edge_moves_right(area: Area, p: Single, q: Single, duration: Duration)
    requires
        is_finite(area.left),
        area.width.bits < 0x7f80_0000,
        duration.seconds > 0,
        0 < duration.as_seconds().bits < 0x7f80_0000,
        p.bits <= q.bits < 0x7f80_0000,
    ensures
        played_to(area, p, duration).at_most(played_to(area, q, duration)),
        p.bits == 0 ==> played_to(area, p, duration) == area.left.plus(Single::zero()),
        duration.as_seconds().at_most(q) ==> played_to(area, q, duration) == area.left.plus(
            area.width,
        ),
{
    let length = duration.as_seconds();
    law_progress_is_the_share_played(p, duration);
    law_progress_is_the_share_played(q, duration);
    lemma_over_order(p, q, length);
    let (a, b) = (p.over(length), q.over(length));
    let (x, y) = (progress(p, duration), progress(q, duration));
    lemma_unit_order(a, b);
    lemma_times_commutes(area.width, x);
    lemma_times_commutes(area.width, y);
    lemma_times_order(x, y, area.width);
    lemma_times_at_most(area.width, y);
    lemma_points_order(area.width.times(x).bits as nat, area.width.times(y).bits as nat, SINGLE);
    lemma_plus_order(area.left, area.width.times(x), area.width.times(y));
    lemma_times_one(area.width);
    if p.bits == 0 {
        lemma_zero_times(area.width);
    }
}

/// Levels that are held to one keep their order.
pub(crate) proof fn lemma_unit_order(a: Single, b: Single)
    requires
        a.bits <= b.bits <= 0x7f80_0000,
    ensures
        unit(a).bits <= unit(b).bits <= Single::one().bits,
{
    lemma_level_order(a, Single::zero());
    lemma_level_order(b, Single::zero());
    lemma_level_order(Single::one(), a);
    lemma_level_order(Single::one(), b);
}

/// The middle of a place among small whole numbers.
proof fn lemma_middle(i: nat)
    requires
        i < 0x80_0000,
    ensures
        2 * points(whole(i).plus(Single { bits: HALF }).bits as nat, SINGLE) == (2 * i + 1)
            * one_in_points(SINGLE),
        whole(i).plus(Single { bits: HALF }).bits < 0x7f80_0000,
{
    let one = one_in_points(SINGLE);
    let half = Single { bits: HALF };
    lemma_small_whole(i);
    lemma_leading(SINGLE);
    lemma_pow2_adds(1, 148);
    lemma_pow2_adds(23, 125);
    vstd::arithmetic::power2::lemma2_to64();
    let u = pow2(148);
    assert(one == 2 * u);
    assert(points(HALF as nat, SINGLE) == u) by {
        assert(points(HALF as nat, SINGLE) == 0x80_0000 * pow2(125));
    }
    let n = 2 * i + 1;
    let mag = lemma_representable(n, 148, SINGLE);
    lemma_rounded_points(mag, 1, SINGLE);
    assert(n * u == i * one + u) by (nonlinear_arith)
        requires
            n == 2 * i + 1,
            one == 2 * u,
    ;
    lemma_pow2_pos(148);
    assert(i * one + u > 0) by (nonlinear_arith)
        requires
            u > 0,
    ;
    reveal(Single::spec_plus);
    assert(2 * (n * u) == n * one) by (nonlinear_arith)
        requires
            one == 2 * u,
    ;
}

/// Columns stand in their order, from the left to the right; counted from the left edge, each in
/// the middle of its share of the width, up to two roundings.
pub proof fn law_columns_stand_evenly(area: Area, i: nat, j: nat, count: nat)
    requires
        i <= j < count < 0x80_0000,
        is_finite(area.left),
        Single::one().bits <= area.width.bits <= 0x5f80_0000,
    ensures
        column_x(area, i, count).at_most(column_x(area, j, count)),
        area.left == Single::zero() ==> about(
            (size(column_x(area, i, count)) * (2 * count)) as int,
            ((2 * i + 1) * size(area.width)) as int,
            2,
        ),
{
    let one = one_in_points(SINGLE);
    let slot = column_slot(area, count);
    let half = Single { bits: HALF };
    reveal(Single::spec_abs);
    lemma_level_order(area.width, Single::one());
    assert(drawn_width(area.width) == area.width);
    lemma_middle(i);
    lemma_middle(j);
    lemma_small_whole(count);
    lemma_leading(SINGLE);
    lemma_pow2_pos(149);
    lemma_one_is_normal();
    lemma_power_magnitude(0, 0x3f80_0000, SINGLE);
    lemma_power_magnitude(64, 0x5f80_0000, SINGLE);
    lemma_power_magnitude(88, 0x6b80_0000, SINGLE);
    vstd::arithmetic::power2::lemma2_to64();
    vstd::arithmetic::power2::lemma2_to64_rest();
    lemma_pow2_adds(64, 24);
    lemma_points_order(0x3f80_0000, area.width.bits as nat, SINGLE);
    lemma_points_order(area.width.bits as nat, 0x5f80_0000, SINGLE);
    let w = points(area.width.bits as nat, SINGLE);
    let c = points(whole(count).bits as nat, SINGLE);
    assert(one <= c <= 0x80_0000 * one) by (nonlinear_arith)
        requires
            c == count * one,
            1 <= count <= 0x80_0000,
    ;
    lemma_zero_points(whole(count).bits as nat, SINGLE);
    // The width of a column.
    assert(slot.bits <= area.width.bits) by {
        reveal(Single::spec_over);
        assert(w * one <= w * c) by (nonlinear_arith)
            requires
                one <= c,
        ;
        lemma_rounded_at_most(w * one, c, area.width.bits as nat, SINGLE);
        lemma_rounded_is_nearest(w * one, c, SINGLE);
    }
    let h = leading(SINGLE);
    assert(w * one >= h * c) by (nonlinear_arith)
        requires
            w >= one,
            one >= h * h,
            h == 0x80_0000,
            c <= 0x80_0000 * one,
    ;
    lemma_quotient_about(area.width, whole(count));
    let s = points(slot.bits as nat, SINGLE);
    // The places.
    let (a, b) = (whole(i).plus(half), whole(j).plus(half));
    let (x, y) = (points(a.bits as nat, SINGLE), points(b.bits as nat, SINGLE));
    assert(x <= y <= 0x80_0000 * one) by (nonlinear_arith)
        requires
            2 * x == (2 * i + 1) * one,
            2 * y == (2 * j + 1) * one,
            i <= j < 0x80_0000,
    ;
    assert(a.bits <= b.bits) by {
        if b.bits < a.bits {
            crate::ieee::lemma_points_increase(b.bits as nat, a.bits as nat, SINGLE);
        }
    }
    lemma_times_order(a, b, slot);
    lemma_points_order(slot.bits as nat, 0x5f80_0000, SINGLE);
    assert(b.times(slot).bits <= 0x6b80_0000) by {
        reveal(Single::spec_times);
        assert(y * s <= points(0x6b80_0000, SINGLE) * one) by (nonlinear_arith)
            requires
                y <= 0x80_0000 * one,
                s <= 0x1_0000_0000_0000_0000 * one,
                points(0x6b80_0000, SINGLE) == (0x1_0000_0000_0000_0000 * 0x100_0000) * one,
        ;
        lemma_rounded_at_most(y * s, one, 0x6b80_0000, SINGLE);
        lemma_rounded_is_nearest(y * s, one, SINGLE);
    }
    let (p, q) = (a.times(slot), b.times(slot));
    lemma_points_order(p.bits as nat, q.bits as nat, SINGLE);
    lemma_plus_order(area.left, p, q);
    if area.left == Single::zero() {
        let z = points(p.bits as nat, SINGLE);
        assert(size(column_x(area, i, count)) == z) by {
            reveal(Single::spec_plus);
            lemma_zero_points(0, SINGLE);
            lemma_zero_points(p.bits as nat, SINGLE);
            lemma_rounded_points(p.bits as nat, 1, SINGLE);
            assert(z * 1 == z);
        }
        // p one ~ x s, s c ~ w one
        assert(2 * x >= one) by (nonlinear_arith)
            requires
                2 * x == (2 * i + 1) * one,
        ;
        // s 2 c >= w one, so that a column is not too narrow.
        lemma_grown_once((s * c) as int, (w * one) as int);
        assert(s * 0x100_0000 >= one) by (nonlinear_arith)
            requires
                2 * (s * c) >= w * one,
                w >= one,
                c <= 0x80_0000 * one,
                one > 0,
        ;
        assert(s >= 2 * h) by {
            lemma_one_is_large();
        }
        assert(x * s >= h * one) by (nonlinear_arith)
            requires
                2 * x >= one,
                s >= 2 * h,
        ;
        lemma_product_about(a, slot);
        lemma_about_scale((z * one) as int, (x * s) as int, (2 * count) as int, 1);
        lemma_about_scale((s * c) as int, (w * one) as int, (2 * i + 1) as int, 1);
        assert((x * s) * (2 * count) == (s * c) * (2 * i + 1)) by (nonlinear_arith)
            requires
                2 * x == (2 * i + 1) * one,
                c == count * one,
        ;
        assert((z * one) * (2 * count) == (z * (2 * count)) * one && (w * one) * (2 * i + 1) == ((2
            * i + 1) * w) * one) by (nonlinear_arith);
        lemma_about_chain(
            ((z * (2 * count)) * one) as int,
            ((s * c) * (2 * i + 1)) as int,
            (((2 * i + 1) * w) * one) as int,
            1,
            1,
        );
        lemma_about_cancel(
            (z * (2 * count)) as int,
            ((2 * i + 1) * w) as int,
            one as int,
            2,
        );
    }
}

/// What bars use on each side of the middle is 0.46 of the height, up to two roundings.
pub proof fn law_bars_use_most_of_the_height(area: Area)
    requires
        0x2000_0000 <= area.height.bits <= 0x5f80_0000,
    ensures
        about((50 * size(half_height(area))) as int, (23 * size(area.height)) as int, 2),
{
    let one = one_in_points(SINGLE);
    let share = Single { bits: HALF_SHARE };
    let half = half_height(area);
    reveal(Single::spec_abs);
    lemma_leading(SINGLE);
    lemma_pow2_pos(149);
    lemma_pow2_pos(124);
    lemma_pow2_adds(124, 25);
    vstd::arithmetic::power2::lemma2_to64();
    vstd::arithmetic::power2::lemma2_to64_rest();
    let u = pow2(124);
    let k = points(HALF_SHARE as nat, SINGLE);
    assert(k == 0xeb_851f * u);
    assert(one == u * 0x200_0000);
    lemma_grown(0);
    assert(ungrown(1) == 0x100_0000 && grown(1) == 0x100_0001);
    let (a, b) = ((50 * k) as int, (23 * one) as int);
    assert(a * 0x100_0000 <= b * 0x100_0001 && b * 0x100_0000 <= a * 0x100_0001 && 4 * k >= one)
        by (nonlinear_arith)
        requires
            a == 50 * k,
            k == 0xeb_851f * u,
            one == u * 0x200_0000,
            b == 23 * one,
            u > 0,
    ;
    let x = points(area.height.bits as nat, SINGLE);
    let h = leading(SINGLE);
    crate::ieee::lemma_compose(h, 63, SINGLE);
    assert(h + h * 63 == 0x2000_0000);
    lemma_points_order(0x2000_0000, area.height.bits as nat, SINGLE);
    assert(x >= 4 * h);
    assert(x * k >= h * one) by (nonlinear_arith)
        requires
            4 * k >= one,
            x >= 4 * h,
    ;
    lemma_times_at_most(area.height, share);
    lemma_product_about(area.height, share);
    let y = points(half.bits as nat, SINGLE);
    lemma_about_scale((y * one) as int, (x * k) as int, 50, 1);
    lemma_about_scale((50 * k) as int, (23 * one) as int, x as int, 1);
    assert((y * one) * 50 == (50 * y) * one && (x * k) * 50 == (50 * k) * x && (23 * one) * x == (23
        * x) * one) by (nonlinear_arith);
    lemma_about_chain(((50 * y) * one) as int, ((50 * k) * x) as int, ((23 * x) * one) as int, 1, 1);
    lemma_about_cancel((50 * y) as int, (23 * x) as int, one as int, 2);
}

/// A louder column is not drawn lower; none is lower than half a pixel, and none higher than the
/// room there is, where that is more. At a scale of one a bar has its share of the room, up to one
/// rounding.
pub proof fn law_bars_grow_with_the_level(area: Area, params: WaveformParams, a: Single, b: Single)
    requires
        HALF <= half_height(area).bits <= 0x5f80_0000,
        params.height_scale.bits <= 0x5f80_0000,
        a.bits <= b.bits <= Single::one().bits,
    ensures
        ({
            let (low, high) = (bar_height(area, params, a), bar_height(area, params, b));
            &&& (Single { bits: HALF }).at_most(low)
            &&& low.at_most(high)
            &&& high.at_most(half_height(area))
        }),
        params.height_scale == Single::one() && (Single { bits: HALF }).at_most(
            a.times(half_height(area)),
        ) ==> about(
            (size(bar_height(area, params, a)) * one_in_points(SINGLE)) as int,
            (size(a) * size(half_height(area))) as int,
            1,
        ),
{
    let half = half_height(area);
    let small = Single { bits: HALF };
    let scale = params.height_scale;
    reveal(Single::spec_abs);
    lemma_times_order(a, b, half);
    lemma_times_commutes(b, half);
    lemma_times_at_most(half, b);
    let (x, y) = (a.times(half), b.times(half));
    lemma_times_order(x, y, scale);
    let (p, q) = (x.times(scale), y.times(scale));
    lemma_level_order(p, Single::zero());
    lemma_level_order(q, Single::zero());
    lemma_level_order(half, p);
    lemma_level_order(half, q);
    let (c, d) = (p.clamp(Single::zero(), half), q.clamp(Single::zero(), half));
    lemma_level_order(c, small);
    lemma_level_order(d, small);
    let (low, high) = (bar_height(area, params, a), bar_height(area, params, b));
    lemma_level_order(small, low);
    lemma_level_order(low, high);
    lemma_level_order(high, half);
    if scale == Single::one() && small.at_most(x) {
        lemma_times_one(x);
        lemma_level_order(small, x);
        lemma_level_order(x, small);
        lemma_level_order(half, x);
        assert(low == x);
        let one = one_in_points(SINGLE);
        let (u, v) = (points(a.bits as nat, SINGLE), points(half.bits as nat, SINGLE));
        lemma_leading(SINGLE);
        lemma_pow2_pos(149);
        assert(u * v >= leading(SINGLE) * one) by {
            if u * v < leading(SINGLE) * one {
                reveal(Single::spec_times);
                crate::bounds::lemma_small_points(leading(SINGLE), SINGLE);
                lemma_rounded_at_most(u * v, one, leading(SINGLE), SINGLE);
                lemma_rounded_is_nearest(u * v, one, SINGLE);
            }
        }
        lemma_product_about(a, half);
    }
}

/// A mirrored bar reaches as far above the middle as below it; one that is not mirrored stands on
/// a common line, as high as a mirrored one is in all. A bar counts as played where it stands at
/// the edge of what has played or left of it.
pub proof fn law_bars_stand_on_their_line(
    area: Area,
    params: WaveformParams,
    traktor_analyzed: bool,
    played_x: Single,
    columns: Seq<Column>,
    shaped: Single,
    shades: BandLevels,
    i: int,
)
    requires
        0 <= i < columns.len(),
        HALF <= bar_height(area, params, shaped).bits <= 0x5f80_0000,
    ensures
        ({
            let bar = bar_of(
                area,
                params,
                traktor_analyzed,
                played_x,
                columns,
                shaped,
                shades,
                i,
            );
            let height = bar_height(area, params, shaped);
            let line = area.center_y.plus(half_height(area));
            &&& params.mirror ==> bar.top == area.center_y.minus(height) && bar.bottom
                == area.center_y.plus(height)
            &&& !params.mirror ==> bar.bottom == line && exists|twice: Single|
                twice.value() == 2 * height.value() && bar.top == #[trigger] line.minus(twice)
            &&& bar.x == column_x(area, i as nat, columns.len())
            &&& !(traktor_analyzed && params.color_mode == ColorMode::Spectral) ==> (bar.color == (
            Color { r: 96, g: 158, b: 184 }) <==> bar.x.at_most(played_x))
            &&& traktor_analyzed && params.color_mode == ColorMode::Spectral ==> bar.color
                == color_of_bands(columns[i].bands, shades, bar.x.at_most(played_x))
        }),
{
    let height = bar_height(area, params, shaped);
    let twice = (Single { bits: TWO }).times(height);
    lemma_twice(height);
    let line = area.center_y.plus(half_height(area));
    assert(line.minus(twice) == line.minus((Single { bits: TWO }).times(height)));
}

/// Two times a level is twice the level.
proof fn lemma_twice(a: Single)
    requires
        HALF <= a.bits <= 0x5f80_0000,
    ensures
        (Single { bits: TWO }).times(a).value() == 2 * a.value(),
{
    let one = one_in_points(SINGLE);
    let higher = (a.bits + 0x80_0000) as nat;
    let x = points(a.bits as nat, SINGLE);
    lemma_leading(SINGLE);
    lemma_pow2_pos(149);
    lemma_power_magnitude(1, TWO as nat, SINGLE);
    vstd::arithmetic::power2::lemma2_to64();
    lemma_lower(higher);
    assert((2 * one) * x == (x * 2) * one) by (nonlinear_arith);
    lemma_rounded_points(higher, one, SINGLE);
    reveal(Single::spec_times);
}

/// What a bar or a point of the strip shows of some bars and their caps: the loudest of the bars as
/// its height and its color, and the highest of the caps where caps are drawn.
pub open spec fn shows_column(
    area: Area,
    params: SpectrumParams,
    top: Single,
    color: Color,
    cap: Option<Single>,
    bars: Seq<Single>,
    peaks: Seq<Single>,
) -> bool {
    &&& exists|value: Single| #[trigger]
        shows_loudest(value, bars) && top == height_y(area, value) && color == color_of_level(value)
    &&& params.peak_caps ==> exists|value: Single| #[trigger]
        shows_loudest(value, peaks) && cap == Some(height_y(area, value))
    &&& !params.peak_caps ==> cap is None
}

/// Which column stands at a place of the strip, counted from the left: one after the other from the
/// lowest frequencies on, or, where the halves mirror each other, from the highest down to the
/// lowest in the middle and up again.
pub open spec fn column_at(place: int, symmetric: bool, count: nat) -> int {
    if !symmetric {
        place
    } else if place < count {
        count - 1 - place
    } else {
        place - count
    }
}

/// Each point of the mountain shows the bars that feed its column.
pub proof fn law_ridge_shows_its_bars(
    area: Area,
    params: SpectrumParams,
    bars: Seq<Single>,
    peaks: Seq<Single>,
    place: int,
)
    requires
        bars.len() > 0,
        peaks.len() == bars.len(),
        0 <= place < strip_ridge(area, params, bars, peaks).len(),
    ensures
        ({
            let count = shared_columns(area, params.symmetric, bars.len());
            let point = strip_ridge(area, params, bars, peaks)[place];
            let column = column_at(place, params.symmetric, count);
            &&& strip_ridge(area, params, bars, peaks).len() == if params.symmetric {
                2 * count
            } else {
                count
            }
            &&& 0 <= column < count
            &&& shows_column(
                area,
                params,
                point.y,
                point.color,
                point.cap,
                feeding(bars, column, count),
                feeding(peaks, column, count),
            )
        }),
{
    let count = shared_columns(area, params.symmetric, bars.len());
    let column = column_at(place, params.symmetric, count);
    lemma_bucket_shows(bars, column as nat, count);
    lemma_bucket_shows(peaks, column as nat, count);
}

/// Each bar of the strip shows the bars that feed its column. Where the halves mirror each other,
/// the bars come in pairs: the one from the left edge on, and the one from the middle on.
pub proof fn law_strip_shows_its_bars(
    area: Area,
    params: SpectrumParams,
    bars: Seq<Single>,
    peaks: Seq<Single>,
    i: int,
)
    requires
        bars.len() > 0,
        peaks.len() == bars.len(),
        0 <= i < strip_bars(area, params, bars, peaks).len(),
    ensures
        ({
            let count = shared_columns(area, params.symmetric, bars.len());
            let bar = strip_bars(area, params, bars, peaks)[i];
            let place = if !params.symmetric {
                i
            } else if i % 2 == 0 {
                i / 2
            } else {
                count + i / 2
            };
            let column = column_at(place, params.symmetric, count);
            &&& strip_bars(area, params, bars, peaks).len() == if params.symmetric {
                2 * count
            } else {
                count
            }
            &&& 0 <= column < count
            &&& shows_column(
                area,
                params,
                bar.top,
                bar.color,
                bar.cap,
                feeding(bars, column, count),
                feeding(peaks, column, count),
            )
        }),
{
    let count = shared_columns(area, params.symmetric, bars.len());
    let place = if !params.symmetric {
        i
    } else if i % 2 == 0 {
        i / 2
    } else {
        count + i / 2
    };
    let column = column_at(place, params.symmetric, count);
    lemma_bucket_shows(bars, column as nat, count);
    lemma_bucket_shows(peaks, column as nat, count);
}

/// A higher value ends no lower on the screen; nothing ends on the line that bars stand on, and the
/// full height ends the whole room above it.
pub proof fn law_heights_rise_from_the_line(area: Area, a: Single, b: Single)
    requires
        is_finite(baseline(area)),
        0 < usable(area).bits < 0x7f80_0000,
        a.bits <= b.bits <= Single::one().bits,
    ensures
        height_y(area, b).at_most(height_y(area, a)),
        height_y(area, Single::zero()).same_value(baseline(area)),
        height_y(area, Single::one()) == baseline(area).minus(usable(area)),
{
    let room = usable(area);
    lemma_unit_order(a, b);
    lemma_level_order(a, Single::zero());
    lemma_level_order(b, Single::zero());
    lemma_level_order(Single::one(), a);
    lemma_level_order(Single::one(), b);
    lemma_level_order(Single::one(), Single::one());
    lemma_level_order(Single::one(), Single::zero());
    lemma_level_order(Single::zero(), Single::zero());
    lemma_times_order(a, b, room);
    lemma_times_commutes(b, room);
    lemma_times_at_most(room, b);
    lemma_points_order(a.times(room).bits as nat, b.times(room).bits as nat, SINGLE);
    lemma_minus_order(baseline(area), a.times(room), b.times(room));
    lemma_zero_times(room);
    crate::single::lemma_one_times(room);
    assert(baseline(area).minus(Single::zero()).same_value(baseline(area))) by {
        reveal(Single::spec_minus);
        reveal(Single::spec_negated);
        let zero = Single::zero().negated();
        lemma_zero_points(0, SINGLE);
        assert(zero.parts().magnitude == 0);
        crate::single::law_exact_sum(baseline(area), zero, baseline(area));
    }
}

/// Places of one width, one after the other.
proof fn lemma_places_in_order(left: Single, slot: Single, i: nat, j: nat, gap: Single)
    requires
        i <= j < 0x80_0000,
        is_finite(left),
        left.abs().bits <= 0x5f80_0000,
        slot.bits <= 0x5f80_0000,
        gap.bits < 0x7f80_0000,
    ensures
        left.plus(whole(i).plus(Single { bits: HALF }).times(slot)).at_most(
            left.plus(whole(j).plus(Single { bits: HALF }).times(slot)),
        ),
        left.plus(whole(i).times(slot)).plus(gap).at_most(
            left.plus(whole(j).times(slot)).plus(gap),
        ),
{
    let one = one_in_points(SINGLE);
    let half = Single { bits: HALF };
    lemma_pow2_pos(149);
    lemma_middle(i);
    lemma_middle(j);
    lemma_small_whole(i);
    lemma_small_whole(j);
    let (a, b) = (whole(i).plus(half), whole(j).plus(half));
    let (x, y) = (points(a.bits as nat, SINGLE), points(b.bits as nat, SINGLE));
    let (c, d) = (whole(i), whole(j));
    let (v, w) = (points(c.bits as nat, SINGLE), points(d.bits as nat, SINGLE));
    assert(x <= y <= 0x80_0000 * one && v <= w <= 0x80_0000 * one) by (nonlinear_arith)
        requires
            2 * x == (2 * i + 1) * one,
            2 * y == (2 * j + 1) * one,
            v == i * one,
            w == j * one,
            i <= j < 0x80_0000,
    ;
    lemma_moved_order(left, slot, a, b);
    lemma_moved_order(left, slot, c, d);
    lemma_added_order(left.plus(c.times(slot)), left.plus(d.times(slot)), gap);
}

/// The more columns lie before a place, the further to the right it is.
proof fn lemma_moved_order(left: Single, slot: Single, a: Single, b: Single)
    requires
        is_finite(left),
        left.abs().bits <= 0x5f80_0000,
        slot.bits <= 0x5f80_0000,
        a.bits < 0x7f80_0000,
        b.bits < 0x7f80_0000,
        points(a.bits as nat, SINGLE) <= points(b.bits as nat, SINGLE) <= 0x80_0000
            * one_in_points(SINGLE),
    ensures
        left.plus(a.times(slot)).at_most(left.plus(b.times(slot))),
        is_finite(left.plus(a.times(slot))),
        is_finite(left.plus(b.times(slot))),
{
    let one = one_in_points(SINGLE);
    let (x, y) = (points(a.bits as nat, SINGLE), points(b.bits as nat, SINGLE));
    lemma_leading(SINGLE);
    lemma_pow2_pos(149);
    lemma_power_magnitude(64, 0x5f80_0000, SINGLE);
    lemma_power_magnitude(87, 0x6b00_0000, SINGLE);
    lemma_power_magnitude(88, 0x6b80_0000, SINGLE);
    vstd::arithmetic::power2::lemma2_to64();
    vstd::arithmetic::power2::lemma2_to64_rest();
    lemma_pow2_adds(64, 23);
    lemma_pow2_adds(64, 24);
    if b.bits < a.bits {
        crate::ieee::lemma_points_increase(b.bits as nat, a.bits as nat, SINGLE);
    }
    lemma_times_order(a, b, slot);
    lemma_points_order(slot.bits as nat, 0x5f80_0000, SINGLE);
    let s = points(slot.bits as nat, SINGLE);
    let (p, q) = (a.times(slot), b.times(slot));
    assert(q.bits <= 0x6b00_0000) by {
        reveal(Single::spec_times);
        assert(y * s <= points(0x6b00_0000, SINGLE) * one) by (nonlinear_arith)
            requires
                y <= 0x80_0000 * one,
                s <= 0x1_0000_0000_0000_0000 * one,
                points(0x6b00_0000, SINGLE) == (0x1_0000_0000_0000_0000 * 0x80_0000) * one,
        ;
        lemma_rounded_at_most(y * s, one, 0x6b00_0000, SINGLE);
        lemma_rounded_is_nearest(y * s, one, SINGLE);
    }
    lemma_points_order(p.bits as nat, q.bits as nat, SINGLE);
    lemma_points_order(q.bits as nat, 0x6b00_0000, SINGLE);
    lemma_plus_order(left, p, q);
    lemma_small_sum(left, p);
    lemma_small_sum(left, q);
}

/// A sum of values that are not too large is finite.
proof fn lemma_small_sum(a: Single, b: Single)
    requires
        is_finite(a),
        a.abs().bits <= 0x5f80_0000,
        b.bits <= 0x6b00_0000,
    ensures
        is_finite(a.plus(b)),
{
    let one = one_in_points(SINGLE);
    reveal(Single::spec_abs);
    reveal(Single::spec_plus);
    lemma_leading(SINGLE);
    lemma_power_magnitude(64, 0x5f80_0000, SINGLE);
    lemma_power_magnitude(87, 0x6b00_0000, SINGLE);
    lemma_power_magnitude(88, 0x6b80_0000, SINGLE);
    lemma_pow2_adds(64, 23);
    lemma_pow2_adds(64, 24);
    vstd::arithmetic::power2::lemma2_to64();
    lemma_points_order(a.abs().bits as nat, 0x5f80_0000, SINGLE);
    lemma_points_order(b.bits as nat, 0x6b00_0000, SINGLE);
    let exact = a.value() + b.value();
    let x: nat = if exact >= 0 {
        exact as nat
    } else {
        (-exact) as nat
    };
    lemma_pow2_pos(149);
    lemma_pow2_pos(64);
    let f = pow2(64);
    assert(f * one + (f * 0x80_0000) * one <= (f * 0x100_0000) * one) by (nonlinear_arith);
    lemma_rounded_at_most(x, 1, 0x6b80_0000, SINGLE);
    lemma_rounded_is_nearest(x, 1, SINGLE);
}

/// Adding one value to two others keeps their order.
proof fn lemma_added_order(a: Single, b: Single, c: Single)
    requires
        is_finite(a),
        is_finite(b),
        is_finite(c),
        a.at_most(b),
    ensures
        a.plus(c).at_most(b.plus(c)),
{
    assert(a.plus(c) == c.plus(a) && b.plus(c) == c.plus(b)) by {
        reveal(Single::spec_plus);
    }
    assert(a.value() <= b.value()) by {
        reveal(Single::spec_at_most);
    }
    lemma_plus_order(c, a, b);
}

/// What the strip shows lies from the left to the right: the points of the mountain, and the left
/// edges of the bars. Where the halves mirror each other, this holds of each half.
pub proof fn law_strip_lies_from_left_to_right(
    area: Area,
    params: SpectrumParams,
    bars: Seq<Single>,
    peaks: Seq<Single>,
    i: int,
    j: int,
)
    requires
        0 < bars.len() < 0x80_0000,
        is_finite(area.left),
        area.left.abs().bits <= 0x5f80_0000,
        is_finite(half_left(area, true)),
        half_left(area, true).abs().bits <= 0x5f80_0000,
        strip_slot(
            area,
            params.symmetric,
            shared_columns(area, params.symmetric, bars.len()),
        ).bits <= 0x5f80_0000,
        0 <= i <= j < shared_columns(area, params.symmetric, bars.len()),
    ensures
        ({
            let count = shared_columns(area, params.symmetric, bars.len());
            let (ridge, drawn) = (
                strip_ridge(area, params, bars, peaks),
                strip_bars(area, params, bars, peaks),
            );
            &&& ridge[i].x.at_most(ridge[j].x)
            &&& params.symmetric ==> ridge[count + i].x.at_most(ridge[count + j].x)
            &&& !params.symmetric ==> drawn[i].left.at_most(drawn[j].left)
            &&& params.symmetric ==> drawn[2 * i].left.at_most(drawn[2 * j].left) && drawn[2 * i
                + 1].left.at_most(drawn[2 * j + 1].left)
        }),
{
    let count = shared_columns(area, params.symmetric, bars.len());
    let slot = strip_slot(area, params.symmetric, count);
    let half = Single { bits: HALF };
    let gap = strip_gap(slot).times(half);
    lemma_level_order(half, Single { bits: WIDEST_GAP });
    let wide = slot.times(Single { bits: GAP_SHARE });
    crate::single::lemma_times_level(slot, Single { bits: GAP_SHARE });
    crate::single::lemma_clamp_level(wide, half, Single { bits: WIDEST_GAP });
    lemma_times_at_most(strip_gap(slot), half);
    lemma_places_in_order(area.left, slot, i as nat, j as nat, gap);
    lemma_places_in_order(half_left(area, true), slot, i as nat, j as nat, gap);
    let (drawn, ridge) = (
        strip_bars(area, params, bars, peaks),
        strip_ridge(area, params, bars, peaks),
    );
    assert((2 * i) / 2 == i && (2 * j) / 2 == j && (2 * i + 1) / 2 == i && (2 * j + 1) / 2 == j);
    assert((2 * i) % 2 == 0 && (2 * j) % 2 == 0 && (2 * i + 1) % 2 == 1 && (2 * j + 1) % 2 == 1);
}

} // verus!
