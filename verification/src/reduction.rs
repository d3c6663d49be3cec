//! What the columns of the waveform show of the bins that feed them.
use crate::bounds::{lemma_points_order, lemma_root_at_most};
use crate::closeness::{
    about, lemma_about_chain, lemma_about_itself, lemma_about_scale, lemma_about_weaken,
    lemma_one_is_normal, lemma_product_about, lemma_quotient_about, lemma_rounded_about,
};
use crate::columns::{
    bucket, column_count, columns_of, drawn_width, is_spectral, neighborhood, reduced, smoothed,
};
use crate::frequencies::lemma_small_whole;
use crate::ieee::{
    leading, lemma_compose, lemma_leading, lemma_power_magnitude, lemma_rounded_at_least,
    lemma_rounded_at_most, lemma_rounded_is_nearest, one_in_points, points, rounded, rounded_root,
    SINGLE,
};
use crate::audio::{frames_in, lemma_frame_in};
use crate::levels::{run_within, size, LONGEST_RUN};
use crate::mixing::{is_average, law_mono_is_the_average};
use crate::parts::lemma_zero_points;
use crate::rms::{
    is_measurable, is_root_mean_square, law_bins_show_root_mean_squares, lemma_about_sum,
    lemma_root_about, lemma_root_at_least, square_sum,
};
use crate::signal::{energy, largest, lemma_largest, lemma_loudest, loudest, sum_start};
use crate::single::{lemma_level_order, whole, Single};
use crate::waveform::{
    band_levels, bin_end, bin_levels, bin_peaks, bin_samples, bin_start, lemma_bin_range, unit,
    ReductionMode, WaveformAnalysis, WaveformParams,
};
use vstd::arithmetic::power2::{
    lemma_pow2_adds, lemma_pow2_pos, lemma_pow2_strictly_increases, pow2,
};
use vstd::prelude::*;

verus! {

/// Bits of two to the power of minus 50: levels below it cannot be seen.
pub const FAINTEST_SHOWN: u32 = 0x2680_0000;

/// Values that a column can be made of: none is above full scale, and each is silence or not too
/// faint.
pub open spec fn is_showable(values: Seq<Single>) -> bool {
    forall|i: int|
        0 <= i < values.len() ==> (#[trigger] values[i]).bits <= Single::one().bits && (
        values[i].bits == 0 || values[i].bits >= FAINTEST_SHOWN)
}

/// The square of a level is about the exact square.
pub(crate) proof fn lemma_square_about(v: Single)
    requires
        v.bits <= Single::one().bits,
        v.bits == 0 || v.bits >= FAINTEST_SHOWN,
    ensures
        v.times(v).bits <= Single::one().bits,
        about(
            (points(v.times(v).bits as nat, SINGLE) * one_in_points(SINGLE)) as int,
            (size(v) * size(v)) as int,
            1,
        ),
        v.bits > 0 ==> points(v.times(v).bits as nat, SINGLE) >= pow2(49),
        v.bits == 0 ==> v.times(v).bits == 0,
        v.bits == 0 ==> size(v) == 0,
{
    reveal(Single::spec_abs);
    let one = one_in_points(SINGLE);
    crate::single::lemma_times_at_most(v, v);
    lemma_zero_points(0, SINGLE);
    if v.bits == 0 {
        crate::single::lemma_zero_times(v);
        assert(0 * one == 0 && 0nat * 0nat == 0);
        lemma_about_itself(0, 1);
    } else {
        lemma_pow2_pos(149);
        lemma_one_is_normal();
        lemma_leading(SINGLE);
        lemma_compose(leading(SINGLE), 76, SINGLE);
        assert(leading(SINGLE) + leading(SINGLE) * 76 == FAINTEST_SHOWN);
        lemma_points_order(FAINTEST_SHOWN as nat, v.bits as nat, SINGLE);
        lemma_pow2_adds(23, 76);
        lemma_pow2_adds(99, 99);
        lemma_pow2_adds(49, 149);
        lemma_compose(leading(SINGLE), 26, SINGLE);
        lemma_pow2_adds(23, 26);
        let least = (leading(SINGLE) + leading(SINGLE) * 26) as nat;
        let x = points(v.bits as nat, SINGLE);
        let f = pow2(99);
        assert(x * x >= f * f) by (nonlinear_arith)
            requires
                x >= f,
        ;
        lemma_pow2_strictly_increases(23, 49);
        let (h, g) = (leading(SINGLE), pow2(49));
        assert(g * one >= h * one) by (nonlinear_arith)
            requires
                g >= h,
        ;
        lemma_product_about(v, v);
        reveal(Single::spec_times);
        lemma_rounded_is_nearest(x * x, one, SINGLE);
        assert(points(least, SINGLE) == g);
        lemma_rounded_at_least(x * x, one, least, SINGLE);
        lemma_points_order(least, v.times(v).bits as nat, SINGLE);
    }
}

/// The squares, as they are added up, are about their exact sum.
proof fn lemma_energy_about(values: Seq<Single>)
    requires
        is_showable(values),
        values.len() < 0x100_0000,
    ensures
        ({
            let s = energy(sum_start(), values);
            &&& values.len() > 0 ==> s.bits < 0x7f80_0000
            &&& values.len() == 0 ==> s.bits == 0x8000_0000
            &&& s.parts().magnitude < 0x7f80_0000
            &&& points(s.parts().magnitude as nat, SINGLE) <= values.len() * one_in_points(SINGLE)
            &&& about(
                (points(s.parts().magnitude as nat, SINGLE) * one_in_points(SINGLE)) as int,
                square_sum(values) as int,
                values.len() + 1,
            )
            &&& square_sum(values) > 0 ==> points(s.parts().magnitude as nat, SINGLE) >= pow2(49)
            &&& square_sum(values) == 0 ==> s.parts().magnitude == 0
        }),
    decreases values.len(),
{
    let one = one_in_points(SINGLE);
    let n = values.len();
    lemma_zero_points(0, SINGLE);
    if n == 0 {
        assert(0 * one == 0);
        lemma_about_itself(0, 1);
    } else {
        let rest = values.drop_last();
        let v = values.last();
        assert(v == values[n - 1]);
        assert forall|i: int| 0 <= i < rest.len() implies (#[trigger] rest[i]).bits
            <= Single::one().bits && (rest[i].bits == 0 || rest[i].bits >= FAINTEST_SHOWN) by {
            assert(rest[i] == values[i]);
        }
        lemma_energy_about(rest);
        lemma_square_about(v);
        lemma_leading(SINGLE);
        let a = energy(sum_start(), rest);
        let b = v.times(v);
        let s = energy(sum_start(), values);
        let pa = points(a.parts().magnitude as nat, SINGLE);
        let pb = points(b.bits as nat, SINGLE);
        assert(s.bits == if pa + pb == 0 { 0 } else { rounded(pa + pb, 1, SINGLE) } && s.bits
            <= 0x7f80_0000) by {
            reveal(Single::spec_plus);
            assert(b.parts().magnitude == b.bits);
            lemma_zero_points(a.parts().magnitude as nat, SINGLE);
            lemma_zero_points(b.bits as nat, SINGLE);
            lemma_rounded_is_nearest(pa + pb, 1, SINGLE);
        }
        // It does not pass the number of values.
        lemma_power_magnitude(0, 0x3f80_0000, SINGLE);
        vstd::arithmetic::power2::lemma2_to64();
        lemma_points_order(b.bits as nat, 0x3f80_0000, SINGLE);
        lemma_small_whole(n);
        assert((n - 1) * one + one == n * one) by (nonlinear_arith);
        lemma_rounded_at_most(pa + pb, 1, whole(n).bits as nat, SINGLE);
        assert(s.bits < 0x7f80_0000);
        lemma_points_order(s.bits as nat, whole(n).bits as nat, SINGLE);
        let ps = points(s.bits as nat, SINGLE);
        let (x, y) = (square_sum(rest), size(v) * size(v));
        let k = n;
        lemma_about_weaken((pb * one) as int, y as int, 1, k);
        lemma_about_sum((pa * one) as int, x as int, (pb * one) as int, y as int, k);
        assert(pa * one + pb * one == (pa + pb) * one) by (nonlinear_arith);
        assert(y == 0 <==> v.bits == 0) by {
            reveal(Single::spec_abs);
            lemma_zero_points(v.bits as nat, SINGLE);
            let z = size(v);
            assert(z * z == 0 <==> z == 0) by (nonlinear_arith);
        }
        if x + y == 0 {
            lemma_zero_points(b.bits as nat, SINGLE);
            lemma_zero_points(a.parts().magnitude as nat, SINGLE);
            assert(pa == 0 && pb == 0);
            assert(0 * one == 0);
            lemma_about_itself(0, n + 1);
        } else {
            lemma_pow2_strictly_increases(23, 49);
            assert(pa + pb >= pow2(49));
            lemma_rounded_about(pa + pb, 1);
            assert(points(rounded(pa + pb, 1, SINGLE), SINGLE) * 1 == ps);
            lemma_pow2_pos(149);
            lemma_about_scale(ps as int, (pa + pb) as int, one as int, 1);
            lemma_about_chain((ps * one) as int, ((pa + pb) * one) as int, (x + y) as int, 1, k);
            if pa >= pow2(49) {
                lemma_rounded_at_least(pa + pb, 1, a.parts().magnitude as nat, SINGLE);
                lemma_points_order(a.parts().magnitude as nat, s.bits as nat, SINGLE);
            } else {
                lemma_rounded_at_least(pa + pb, 1, b.bits as nat, SINGLE);
                lemma_points_order(b.bits as nat, s.bits as nat, SINGLE);
            }
        }
    }
}

/// The root of the mean of the squares of levels is what it says, and is a level itself.
proof fn lemma_root_mean_square(values: Seq<Single>)
    requires
        is_showable(values),
        0 < values.len() < 0x100_0000,
    ensures
        ({
            let r = energy(sum_start(), values).over(whole(values.len())).sqrt();
            r.bits <= Single::one().bits && is_root_mean_square(r, values)
        }),
{
    let one = one_in_points(SINGLE);
    let n = values.len();
    let s = energy(sum_start(), values);
    let w = whole(n);
    let mean = s.over(w);
    let r = mean.sqrt();
    reveal(Single::spec_abs);
    lemma_energy_about(values);
    lemma_small_whole(n);
    lemma_pow2_pos(149);
    lemma_one_is_normal();
    lemma_leading(SINGLE);
    lemma_zero_points(0, SINGLE);
    lemma_zero_points(w.bits as nat, SINGLE);
    lemma_power_magnitude(0, 0x3f80_0000, SINGLE);
    vstd::arithmetic::power2::lemma2_to64();
    let ps = points(s.bits as nat, SINGLE);
    let pw = points(w.bits as nat, SINGLE);
    assert(pw > 0) by (nonlinear_arith)
        requires
            pw == n * one,
            n > 0,
            one > 0,
    ;
    let h = leading(SINGLE);
    if square_sum(values) == 0 {
        assert(mean.bits == 0) by {
            crate::single::lemma_zero_over(w);
        }
        assert(r.bits == 0) by {
            reveal(Single::spec_sqrt);
        }
        assert(n * (0nat * 0nat) == 0) by (nonlinear_arith);
        lemma_about_itself(0, n + 7);
    } else {
        // The mean.
        lemma_pow2_adds(49, 149);
        lemma_pow2_adds(24, 25);
        lemma_pow2_adds(23, 2);
        let least = (h + h * 2) as nat;
        lemma_compose(h, 2, SINGLE);
        assert(h * pow2(2) == pow2(25));
        assert(points(least, SINGLE) == pow2(25));
        let (c, d) = (pow2(25), pow2(49));
        assert(ps * one >= c * pw) by (nonlinear_arith)
            requires
                ps >= d,
                d == 0x100_0000 * c,
                pw == n * one,
                n < 0x100_0000,
        ;
        assert(c * pw >= h * pw) by (nonlinear_arith)
            requires
                c >= h,
        ;
        assert(ps * one <= points(0x3f80_0000, SINGLE) * pw) by (nonlinear_arith)
            requires
                ps <= n * one,
                pw == n * one,
                points(0x3f80_0000, SINGLE) == one,
        ;
        assert(least <= mean.bits <= 0x3f80_0000) by {
            reveal(Single::spec_over);
            assert(s.parts().magnitude == s.bits && w.parts().magnitude == w.bits);
            lemma_rounded_is_nearest(ps * one, pw, SINGLE);
            lemma_rounded_at_most(ps * one, pw, 0x3f80_0000, SINGLE);
            lemma_rounded_at_least(ps * one, pw, least, SINGLE);
        }
        lemma_points_order(least, mean.bits as nat, SINGLE);
        lemma_points_order(mean.bits as nat, 0x3f80_0000, SINGLE);
        lemma_quotient_about(s, w);
        let m = points(mean.bits as nat, SINGLE);
        // The root.
        lemma_pow2_adds(25, 149);
        lemma_pow2_adds(87, 87);
        lemma_pow2_adds(23, 64);
        lemma_compose(h, 64, SINGLE);
        let low = (h + h * 64) as nat;
        let f = pow2(87);
        assert(points(low, SINGLE) == f);
        assert(m * one >= c * one) by (nonlinear_arith)
            requires
                m >= c,
        ;
        lemma_root_at_least(m * one, low, SINGLE);
        assert(m * one <= points(0x3f80_0000, SINGLE) * points(0x3f80_0000, SINGLE))
            by (nonlinear_arith)
            requires
                m <= one,
                points(0x3f80_0000, SINGLE) == one,
        ;
        lemma_root_at_most(m * one, 0x3f80_0000, SINGLE);
        assert(r.bits == rounded_root(m * one, SINGLE)) by {
            reveal(Single::spec_sqrt);
            assert(mean.parts().magnitude == mean.bits);
        }
        lemma_root_about(m * one, SINGLE);
        let y = points(r.bits as nat, SINGLE);
        // n y y ~ n m one = m w ~ s one ~ the sum of the squares
        lemma_about_scale((y * y) as int, (m * one) as int, n as int, 2);
        assert((y * y) * n == n * (y * y) && (m * one) * n == m * pw) by (nonlinear_arith)
            requires
                pw == n * one,
        ;
        lemma_about_chain((n * (y * y)) as int, (m * pw) as int, (ps * one) as int, 2, 1);
        lemma_about_chain(
            (n * (y * y)) as int,
            (ps * one) as int,
            square_sum(values) as int,
            3,
            n + 1,
        );
        assert(n * (y * y) >= 0) by (nonlinear_arith);
        lemma_about_weaken((n * (y * y)) as int, square_sum(values) as int, n + 4, n + 7);
    }
}

/// A column stands for the loudest of some values: it passes none of them by, and is one of them,
/// or silence.
pub open spec fn shows_loudest(shown: Single, values: Seq<Single>) -> bool {
    &&& forall|i: int|
        0 <= i < values.len() && !values[i].is_nan() ==> (#[trigger] values[i]).at_most(shown)
    &&& shown == Single::zero() || values.contains(shown)
}

/// The bins that feed a column: those from its share of the series up to the next column's.
pub open spec fn feeding(values: Seq<Single>, column: int, count: nat) -> Seq<Single> {
    let start = column * values.len() / (count as int);
    let next = (column + 1) * values.len() / (count as int);
    values.subrange(start, if next > start { next } else { start + 1 })
}

pub(crate) proof fn lemma_bucket_shows(values: Seq<Single>, column: nat, count: nat)
    requires
        column < count <= values.len(),
    ensures
        shows_loudest(bucket(values, column, count), feeding(values, column as int, count)),
        bucket(values, column, count).is_level(),
        feeding(values, column as int, count) == values.subrange(
            bin_start(column, values.len(), count) as int,
            bin_end(column, values.len(), count) as int,
        ),
        0 < feeding(values, column as int, count).len() <= values.len(),
{
    lemma_bin_range(column, values.len(), count);
    let fed = feeding(values, column as int, count);
    assert(fed =~= values.subrange(
        bin_start(column, values.len(), count) as int,
        bin_end(column, values.len(), count) as int,
    ));
    lemma_largest(fed);
    let shown = largest(fed);
    if shown != Single::zero() {
        let i = choose|i: int| 0 <= i < fed.len() && shown == #[trigger] fed[i];
        assert(fed.contains(shown));
    }
}

/// A column of the unsmoothed waveform shows the bins that feed it: the loudest of their peaks, or
/// the root of the mean square of their levels; and, in spectral colors, the loudest of each band.
pub proof fn law_columns_show_their_bins(
    analysis: WaveformAnalysis,
    params: WaveformParams,
    width: Single,
    traktor_analyzed: bool,
    column: int,
)
    requires
        analysis.wf(),
        0 < analysis.peak@.len() < 0x100_0000,
        is_showable(analysis.peak@),
        is_showable(analysis.rms@),
        params.smoothing == 0,
        0 <= column < columns_of(analysis, params, width, traktor_analyzed).len(),
    ensures
        ({
            let columns = columns_of(analysis, params, width, traktor_analyzed);
            let (shown, count) = (columns[column], columns.len());
            &&& params.mode == ReductionMode::Peak ==> shows_loudest(
                shown.amplitude,
                feeding(analysis.peak@, column, count),
            )
            &&& params.mode == ReductionMode::Rms ==> is_root_mean_square(
                shown.amplitude,
                feeding(analysis.rms@, column, count),
            )
            &&& is_spectral(params, traktor_analyzed) ==> {
                &&& shows_loudest(shown.bands.low, feeding(analysis.low@, column, count))
                &&& shows_loudest(shown.bands.mid, feeding(analysis.mid@, column, count))
                &&& shows_loudest(shown.bands.high, feeding(analysis.high@, column, count))
            }
        }),
{
    let count = column_count(params.bins as nat, analysis.peak@.len(), drawn_width(width));
    let columns = columns_of(analysis, params, width, traktor_analyzed);
    let values = analysis.series(params.mode);
    let c = column as nat;
    assert(columns.len() == count);
    lemma_bucket_shows(values, c, count);
    lemma_bucket_shows(analysis.low@, c, count);
    lemma_bucket_shows(analysis.mid@, c, count);
    lemma_bucket_shows(analysis.high@, c, count);
    let fed = feeding(values, column, count);
    lemma_bin_range(c, values.len(), count);
    assert(is_showable(fed)) by {
        let start = bin_start(c, values.len(), count) as int;
        assert forall|i: int| 0 <= i < fed.len() implies (#[trigger] fed[i]).bits
            <= Single::one().bits && (fed[i].bits == 0 || fed[i].bits >= FAINTEST_SHOWN) by {
            assert(fed[i] == values[start + i]);
        }
    }
    let raw = reduced(values, params.mode, c, count);
    match params.mode {
        ReductionMode::Peak => {
            if raw != Single::zero() {
                let i = choose|i: int| 0 <= i < fed.len() && fed[i] == raw;
                assert(fed[i].bits <= Single::one().bits);
            }
        },
        ReductionMode::Rms => {
            lemma_root_mean_square(fed);
            assert(raw == energy(sum_start(), fed).over(whole(fed.len())).sqrt());
        },
    }
    assert(raw.bits <= Single::one().bits);
    lemma_level_order(raw, Single::zero());
    lemma_level_order(Single::one(), raw);
    assert(unit(raw) == raw);
    assert(columns[column].amplitude == raw);
}

/// Smoothing replaces each value by the average of those that are at most the radius away from it,
/// itself among them.
pub proof fn law_smoothing_averages(values: Seq<Single>, radius: nat, i: int)
    requires
        radius > 0,
        run_within(values, Single::one()),
        values.len() <= 0x1_0000_0000_0000_0000,
        0 <= i < values.len(),
    ensures
        smoothed(values, radius).len() == values.len(),
        ({
            let hood = neighborhood(values, i, radius);
            let start = if i < radius { 0 } else { i - radius };
            &&& is_average(smoothed(values, radius)[i], hood)
            &&& forall|j: int|
                0 <= j < values.len() ==> (i - radius <= j <= i + radius <==> start <= j < start
                    + hood.len()) && (i - radius <= j <= i + radius ==> #[trigger] values[j]
                    == hood[j - start])
        }),
        smoothed(values, 0) == values,
{
    let hood = neighborhood(values, i, radius);
    assert(run_within(hood, Single::one())) by {
        let start = if i < radius { 0 } else { i - radius };
        assert forall|j: int| 0 <= j < hood.len() implies crate::single::is_finite(
            #[trigger] hood[j],
        ) && hood[j].abs().bits <= Single::one().bits by {
            assert(hood[j] == values[start + j]);
        }
    }
    law_mono_is_the_average(hood);
}

/// As many columns are drawn as are asked for, as there are bins, and as there are pixels, whichever
/// is the least; but one at least.
pub proof fn law_columns_fit(wanted: nat, bins: nat, width: Single, n: nat)
    requires
        n > 1,
    ensures
        n <= column_count(wanted, bins, width) <==> n <= wanted && n <= bins && n
            <= width.round_to_word(),
        column_count(wanted, bins, width) >= 1,
{
}

/// Levels show a signal: each is the root of the mean square of the values of its share of it. Of
/// signals that are too faint, too loud or too long nothing is said.
pub open spec fn shows_root_mean_squares(levels: Seq<Single>, signal: Seq<Single>) -> bool {
    0 < signal.len() <= LONGEST_RUN && is_measurable(signal) ==> forall|bin: int|
        0 <= bin < levels.len() ==> is_root_mean_square(
            #[trigger] levels[bin],
            feeding(signal, bin, levels.len()),
        )
}

/// The levels of a signal, and of a band, show it.
pub proof fn law_levels_show_their_signal(signal: Vec<Single>, bins: nat)
    ensures
        shows_root_mean_squares(bin_levels(signal@, bins), signal@),
        shows_root_mean_squares(band_levels(Some(signal), bins), signal@),
{
    if 0 < signal@.len() <= LONGEST_RUN && is_measurable(signal@) {
        let (levels, band) = (bin_levels(signal@, bins), band_levels(Some(signal), bins));
        assert(levels.len() == bins && band.len() == bins);
        assert forall|bin: int| 0 <= bin < bins implies is_root_mean_square(
            #[trigger] levels[bin],
            feeding(signal@, bin, bins),
        ) && is_root_mean_square(band[bin], feeding(signal@, bin, bins)) by {
            lemma_bin_range(bin as nat, signal@.len(), bins);
            law_bins_show_root_mean_squares(signal, bins, bin as nat);
        }
    }
}

/// Each bin of the peaks shows its own share of the frames: none of their samples passes it, up to
/// full scale, and one of them reaches it, or it is silence.
pub proof fn law_bins_show_the_peaks_of_their_frames(
    samples: Seq<Single>,
    channels: usize,
    bins: nat,
    bin: int,
)
    requires
        channels > 0,
        samples.len() >= channels,
        0 <= bin < bins,
    ensures
        ({
            let frames = samples.len() / (channels as nat);
            let start = bin * frames / (bins as int);
            let next = (bin + 1) * frames / (bins as int);
            let end = if next > start {
                next
            } else {
                start + 1
            };
            let peak = bin_peaks(samples, channels, bins)[bin];
            &&& 0 <= start < end <= frames
            &&& forall|i: int|
                start * channels <= i < end * channels && !samples[i].is_nan() ==> unit(
                    (#[trigger] samples[i]).abs(),
                ).at_most(peak)
            &&& peak == Single::zero() || exists|i: int|
                start * channels <= i < end * channels && peak == unit(
                    (#[trigger] samples[i]).abs(),
                )
        }),
{
    let frames = frames_in(samples.len(), channels);
    assert(frames > 0) by (nonlinear_arith)
        requires
            frames == samples.len() / (channels as nat),
            samples.len() >= channels,
            channels > 0,
    ;
    let b = bin as nat;
    lemma_bin_range(b, frames, bins);
    let (start, end) = (bin_start(b, frames, bins) as int, bin_end(b, frames, bins) as int);
    let taken = bin_samples(samples, channels, b, bins);
    lemma_frame_in(end - 1, samples.len() as int, channels as int);
    assert(0 <= start * channels <= end * channels && end * channels == (end - 1) * channels
        + channels) by (nonlinear_arith)
        requires
            0 <= start < end,
            channels > 0,
    ;
    lemma_loudest(taken);
    let top = loudest(taken);
    let peak = bin_peaks(samples, channels, bins)[bin];
    assert(peak == unit(top));
    assert forall|i: int| start * channels <= i < end * channels && !samples[i].is_nan() implies unit(
        (#[trigger] samples[i]).abs(),
    ).at_most(peak) by {
        assert(taken[i - start * channels] == samples[i]);
        let own = samples[i].abs();
        crate::single::lemma_abs_level(samples[i]);
        lemma_level_order(own, top);
        crate::layout::lemma_unit_order(own, top);
        lemma_level_order(unit(own), peak);
    }
    lemma_level_order(Single::zero(), Single::zero());
    lemma_level_order(Single::one(), Single::zero());
    if top != Single::zero() {
        let at = choose|i: int| 0 <= i < taken.len() && top == (#[trigger] taken[i]).abs();
        assert(samples[start * channels + at] == taken[at]);
    }
}

} // verus!
