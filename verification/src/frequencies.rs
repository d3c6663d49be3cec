//! Which frequencies the bars of the spectrum stand for.
use crate::audio::safe_rate;
use crate::bounds::{lemma_points_order, lemma_representable};
use crate::closeness::{
    about, at_most_about, lemma_about_cancel, lemma_about_chain, lemma_about_scale,
    lemma_at_most_chain, lemma_at_most_exact, lemma_one_is_normal, lemma_product_about,
    lemma_quotient_about,
};
use crate::ieee::{
    leading, lemma_leading, lemma_power_magnitude, lemma_rounded_at_least, lemma_rounded_at_most,
    lemma_rounded_is_nearest, lemma_rounded_points, one_in_points, points, rounded, whole_part,
    SINGLE,
};
use crate::levels::size;
use crate::parts::lemma_zero_points;
use crate::seeking::{lemma_count_over_rate_about, lemma_rate_bound, lemma_round_to_word};
use crate::single::{lemma_level_order, lemma_over_itself, lemma_whole_level, whole, Single, HALF};
use crate::spectrum::{
    bin_hz, edge_end, edge_exponent, edge_start, frequency_ratio, BAR_COUNT, FFT_SIZE, LEAST_TOP_HZ,
    LOWEST_HZ, MAX_BIN, TOP_HZ,
};
use vstd::arithmetic::power2::{
    lemma_pow2_adds, lemma_pow2_pos, lemma_pow2_strictly_increases, pow2,
};
use vstd::prelude::*;

verus! {

/// A whole number that the significand can hold is held as it is.
pub proof fn lemma_small_whole(n: nat)
    requires
        n < 0x100_0000,
    ensures
        points(whole(n).bits as nat, SINGLE) == n * one_in_points(SINGLE),
        whole(n).bits < 0x7f80_0000,
{
    reveal(whole);
    lemma_leading(SINGLE);
    let mag = lemma_representable(n, 149, SINGLE);
    lemma_rounded_points(mag, 1, SINGLE);
}

/// The lowest frequency shown is thirty hertz.
proof fn lemma_lowest()
    ensures
        points(LOWEST_HZ as nat, SINGLE) == 30 * one_in_points(SINGLE),
{
    lemma_leading(SINGLE);
    // 30 is 15 of the leading bit's eighths, four exponents up.
    let unit = pow2(130);
    lemma_pow2_adds(130, 19);
    vstd::arithmetic::power2::lemma2_to64();
    assert(points(LOWEST_HZ as nat, SINGLE) == 0xf0_0000 * unit);
    assert(one_in_points(SINGLE) == unit * 0x8_0000);
    assert(0xf0_0000 * unit == 30 * (unit * 0x8_0000)) by (nonlinear_arith);
}

/// A power at which the upper edge of a bar is placed: of a ratio that is not below one.
pub open spec fn is_edge_power(power: Single) -> bool {
    Single::one().bits <= power.bits <= 0x4f80_0000
}

/// The bin's width in hertz, times the length of the transform, is the sample rate, up to three
/// roundings.
proof fn lemma_bin_width(sample_rate: u32)
    ensures
        about(
            (size(bin_hz(sample_rate)) * FFT_SIZE) as int,
            (safe_rate(sample_rate) * one_in_points(SINGLE)) as int,
            3,
        ),
        0 < bin_hz(sample_rate).bits < 0x7f80_0000,
        points(bin_hz(sample_rate).bits as nat, SINGLE) >= pow2(138),
        points(bin_hz(sample_rate).bits as nat, SINGLE) <= pow2(181),
{
    let rate = safe_rate(sample_rate);
    let one = one_in_points(SINGLE);
    let w = whole(rate);
    let n = whole(FFT_SIZE as nat);
    let width = w.over(n);
    reveal(Single::spec_abs);
    lemma_count_over_rate_about(rate, FFT_SIZE as nat);
    lemma_whole_level(rate);
    lemma_rate_bound(rate);
    lemma_small_whole(FFT_SIZE as nat);
    lemma_leading(SINGLE);
    lemma_power_magnitude(0, 0x3f80_0000, SINGLE);
    lemma_power_magnitude(32, 0x4f80_0000, SINGLE);
    vstd::arithmetic::power2::lemma2_to64();
    lemma_points_order(0x3f80_0000, w.bits as nat, SINGLE);
    lemma_points_order(w.bits as nat, 0x4f80_0000, SINGLE);
    lemma_pow2_pos(149);
    reveal(Single::spec_over);
    let x = points(w.bits as nat, SINGLE);
    let den = points(n.bits as nat, SINGLE);
    lemma_zero_points(n.bits as nat, SINGLE);
    lemma_rounded_is_nearest(x * one, den, SINGLE);
    // At least one over the length.
    let low = lemma_representable(1, 138, SINGLE);
    lemma_pow2_adds(138, 11);
    assert(points(low, SINGLE) == pow2(138));
    assert(x * one >= points(low, SINGLE) * den) by (nonlinear_arith)
        requires
            x >= one,
            points(low, SINGLE) == pow2(138),
            one == pow2(138) * 2048,
            den == 2048 * one,
    ;
    lemma_rounded_at_least(x * one, den, low, SINGLE);
    lemma_points_order(low, width.bits as nat, SINGLE);
    lemma_points_order(width.bits as nat, w.bits as nat, SINGLE);
    assert(width.bits <= w.bits) by {
        assert(x * one <= x * den) by (nonlinear_arith)
            requires
                one <= den,
        ;
        lemma_rounded_at_most(x * one, den, w.bits as nat, SINGLE);
    }
    lemma_zero_points(width.bits as nat, SINGLE);
    lemma_pow2_adds(32, 149);
}

/// A frequency of thirty hertz times a power, in widths of a bin, up to five roundings.
proof fn lemma_edge_in_bins(sample_rate: u32, power: Single)
    requires
        is_edge_power(power),
    ensures
        ({
            let frequency = (Single { bits: LOWEST_HZ }).times(power);
            let bins = frequency.over(bin_hz(sample_rate));
            &&& bins.bits <= 0x5e80_0000
            &&& about(
                (size(bins) * safe_rate(sample_rate)) as int,
                (FFT_SIZE * 30 * size(power)) as int,
                5,
            )
        }),
{
    let rate = safe_rate(sample_rate);
    let one = one_in_points(SINGLE);
    let lowest = Single { bits: LOWEST_HZ };
    let f = lowest.times(power);
    let width = bin_hz(sample_rate);
    let bins = f.over(width);
    reveal(Single::spec_abs);
    lemma_lowest();
    lemma_one_is_normal();
    lemma_bin_width(sample_rate);
    lemma_leading(SINGLE);
    lemma_power_magnitude(0, 0x3f80_0000, SINGLE);
    lemma_power_magnitude(32, 0x4f80_0000, SINGLE);
    lemma_power_magnitude(37, 0x5200_0000, SINGLE);
    vstd::arithmetic::power2::lemma2_to64();
    lemma_pow2_adds(32, 5);
    lemma_points_order(0x3f80_0000, power.bits as nat, SINGLE);
    lemma_points_order(power.bits as nat, 0x4f80_0000, SINGLE);
    lemma_pow2_pos(149);
    let p = points(power.bits as nat, SINGLE);
    let l = points(LOWEST_HZ as nat, SINGLE);
    let h = leading(SINGLE);
    assert(l * p >= h * one) by (nonlinear_arith)
        requires
            l >= h,
            p >= one,
    ;
    // The frequency.
    assert(f.bits <= 0x5200_0000) by {
        reveal(Single::spec_times);
        let z = pow2(32);
        assert(l * p <= (z * 32 * one) * one) by (nonlinear_arith)
            requires
                l == 30 * one,
                p <= z * one,
        ;
        lemma_rounded_at_most(l * p, one, 0x5200_0000, SINGLE);
    }
    lemma_product_about(lowest, power);
    let x = points(f.bits as nat, SINGLE);
    assert(l * p == (30 * p) * one) by (nonlinear_arith)
        requires
            l == 30 * one,
    ;
    lemma_about_cancel(x as int, (30 * p) as int, one as int, 1);
    // It is at least thirty hertz, and so a normal number of bins.
    assert(x >= one) by {
        reveal(Single::spec_times);
        assert(l * p >= points(0x3f80_0000, SINGLE) * one) by (nonlinear_arith)
            requires
                l == 30 * one,
                p >= one,
                points(0x3f80_0000, SINGLE) == 1 * one,
        ;
        lemma_rounded_at_least(l * p, one, 0x3f80_0000, SINGLE);
        lemma_rounded_is_nearest(l * p, one, SINGLE);
        assert(f.bits == rounded(l * p, one, SINGLE));
        lemma_points_order(0x3f80_0000, f.bits as nat, SINGLE);
    }
    let y = points(width.bits as nat, SINGLE);
    lemma_pow2_adds(181, 23);
    lemma_pow2_adds(149, 149);
    lemma_pow2_strictly_increases(204, 298);
    assert(x * one >= h * y) by (nonlinear_arith)
        requires
            x >= one,
            one * one >= pow2(181) * h,
            y <= pow2(181),
    ;
    assert(bins.bits <= 0x5e80_0000) by {
        reveal(Single::spec_over);
        lemma_zero_points(width.bits as nat, SINGLE);
        lemma_power_magnitude(62, 0x5e80_0000, SINGLE);
        lemma_points_order(f.bits as nat, 0x5200_0000, SINGLE);
        lemma_pow2_adds(37, 149);
        lemma_pow2_adds(186, 149);
        lemma_pow2_adds(62, 149);
        lemma_pow2_adds(211, 138);
        lemma_pow2_strictly_increases(335, 349);
        let top = points(0x5e80_0000, SINGLE);
        assert(x * one <= top * y) by (nonlinear_arith)
            requires
                x <= pow2(37) * one,
                one == pow2(149),
                top == pow2(211),
                y >= pow2(138),
                pow2(186) == pow2(37) * pow2(149),
                pow2(335) == pow2(186) * pow2(149),
                pow2(349) == pow2(211) * pow2(138),
                pow2(335) <= pow2(349),
        ;
        lemma_rounded_at_most(x * one, y, 0x5e80_0000, SINGLE);
    }
    lemma_quotient_about(f, width);
    let q = points(bins.bits as nat, SINGLE);
    // q y ~ x one, y n ~ rate one, x ~ 30 p
    let n = FFT_SIZE as nat;
    lemma_about_scale((q * y) as int, (x * one) as int, n as int, 1);
    lemma_about_scale((y * n) as int, (rate * one) as int, q as int, 3);
    assert((y * n) * q == (q * y) * n && (rate * one) * q == (q * rate) * one && (x * one) * n == (n
        * x) * one) by (nonlinear_arith);
    lemma_about_chain(
        ((q * rate) * one) as int,
        ((q * y) * n) as int,
        ((n * x) * one) as int,
        3,
        1,
    );
    lemma_about_cancel((q * rate) as int, (n * x) as int, one as int, 4);
    lemma_about_scale(x as int, (30 * p) as int, n as int, 1);
    assert(x * n == n * x && (30 * p) * n == FFT_SIZE * 30 * p) by (nonlinear_arith)
        requires
            n == FFT_SIZE,
    ;
    lemma_about_chain((q * rate) as int, (n * x) as int, (FFT_SIZE * 30 * p) as int, 4, 1);
}

/// A bar that reads the bins from `start` up to `end` ends at the bin nearest to the frequency of
/// thirty hertz times its power: bin `k` stands for `k` times the sample rate over the length of
/// the transform. It may end higher only to have a bin at all, and lower only where the bins end.
pub open spec fn ends_nearest(start: int, end: int, sample_rate: u32, power: Single) -> bool {
    let one = one_in_points(SINGLE) as int;
    let rate = safe_rate(sample_rate) as int;
    let exact = (FFT_SIZE * 30 * size(power)) as int;
    &&& end > start + 1 ==> at_most_about((2 * end - 1) * one * rate, 2 * exact, 5)
    &&& end < MAX_BIN + 1 ==> at_most_about(2 * exact, (2 * end + 1) * one * rate, 5)
}

/// Every bar ends at the bin nearest to the frequency of its upper edge.
pub proof fn law_bars_end_at_their_frequency(sample_rate: u32, powers: Seq<Single>, bar: nat)
    requires
        is_edge_power(powers[bar as int]),
    ensures
        ends_nearest(
            edge_start(sample_rate, powers, bar) as int,
            edge_end(sample_rate, powers, bar) as int,
            sample_rate,
            powers[bar as int],
        ),
{
    let power = powers[bar as int];
    let rate = safe_rate(sample_rate) as int;
    let one = one_in_points(SINGLE) as int;
    let frequency = (Single { bits: LOWEST_HZ }).times(power);
    let bins = frequency.over(bin_hz(sample_rate));
    let n = bins.round_to_word();
    let start = edge_start(sample_rate, powers, bar) as int;
    let end = edge_end(sample_rate, powers, bar) as int;
    let exact = (FFT_SIZE * 30 * size(power)) as int;
    reveal(Single::spec_abs);
    lemma_edge_in_bins(sample_rate, power);
    lemma_round_to_word(bins);
    lemma_pow2_pos(149);
    let q = points(bins.bits as nat, SINGLE) as int;
    lemma_about_scale((q * rate), exact, 2, 5);
    if end > start + 1 {
        assert(end <= n);
        assert((2 * end - 1) * one * rate <= (q * rate) * 2) by (nonlinear_arith)
            requires
                (2 * n - 1) * one <= 2 * q,
                end <= n,
                one > 0,
                rate > 0,
        ;
        assert(0 <= q * rate) by (nonlinear_arith)
            requires
                0 <= q,
                rate > 0,
        ;
        lemma_at_most_exact((2 * end - 1) * one * rate, (q * rate) * 2, 0);
        lemma_at_most_chain((2 * end - 1) * one * rate, (q * rate) * 2, exact * 2, 0, 5);
    }
    if end < MAX_BIN + 1 {
        assert(n <= end);
        assert((q * rate) * 2 <= (2 * end + 1) * one * rate && 0 <= (2 * end + 1) * one * rate)
            by (nonlinear_arith)
            requires
                2 * q < (2 * n + 1) * one,
                0 <= n <= end,
                one > 0,
                rate > 0,
        ;
        lemma_at_most_exact((q * rate) * 2, (2 * end + 1) * one * rate, 0);
        lemma_at_most_chain(exact * 2, (q * rate) * 2, (2 * end + 1) * one * rate, 5, 0);
    }
}

/// The ratio of the highest frequency shown to thirty hertz: up to 18 kHz where the sample rate
/// allows it, and up to half the sample rate below that.
pub proof fn law_ratio_reaches_the_top(sample_rate: u32)
    ensures
        36000 <= sample_rate < 0x100_0000 ==> about(
            (30 * size(frequency_ratio(sample_rate))) as int,
            (18000 * one_in_points(SINGLE)) as int,
            1,
        ),
        120 <= sample_rate <= 36000 ==> about(
            (60 * size(frequency_ratio(sample_rate))) as int,
            (sample_rate * one_in_points(SINGLE)) as int,
            1,
        ),
        120 <= sample_rate < 0x100_0000 ==> is_edge_power(frequency_ratio(sample_rate)),
{
    if 120 <= sample_rate < 0x100_0000 {
        let rate = safe_rate(sample_rate);
        let one = one_in_points(SINGLE);
        let w = whole(rate);
        let half = w.times(Single { bits: HALF });
        let top = Single { bits: TOP_HZ };
        let least = Single { bits: LEAST_TOP_HZ };
        let lowest = Single { bits: LOWEST_HZ };
        let shown = half.min(top).max(least);
        let ratio = shown.over(lowest);
        reveal(Single::spec_abs);
        lemma_pow2_pos(149);
        lemma_one_is_normal();
        lemma_lowest();
        lemma_frequencies();
        lemma_small_whole(rate);
        lemma_half(w, rate);
        lemma_points_order(half.bits as nat, TOP_HZ as nat, SINGLE);
        lemma_points_order(TOP_HZ as nat, half.bits as nat, SINGLE);
        lemma_points_order(LEAST_TOP_HZ as nat, half.bits as nat, SINGLE);
        assert(rate * one <= 36000 * one <==> rate <= 36000) by (nonlinear_arith)
            requires
                one > 0,
        ;
        assert(120 * one <= rate * one) by (nonlinear_arith)
            requires
                rate >= 120,
        ;
        lemma_level_order(top, half);
        lemma_level_order(half, half);
        lemma_level_order(half, least);
        lemma_level_order(top, least);
        assert(shown == if TOP_HZ < half.bits { top } else { half });
        let x = points(shown.bits as nat, SINGLE);
        let y = points(LOWEST_HZ as nat, SINGLE);
        let h = leading(SINGLE);
        assert(x >= 60 * one && x <= 18000 * one);
        assert(x * one >= h * y) by (nonlinear_arith)
            requires
                x >= 60 * one,
                y == 30 * one,
                one >= h,
        ;
        lemma_leading(SINGLE);
        lemma_power_magnitude(0, 0x3f80_0000, SINGLE);
        lemma_power_magnitude(32, 0x4f80_0000, SINGLE);
        vstd::arithmetic::power2::lemma2_to64();
        assert(is_edge_power(ratio)) by {
            reveal(Single::spec_over);
            lemma_zero_points(LOWEST_HZ as nat, SINGLE);
            lemma_rounded_is_nearest(x * one, y, SINGLE);
            assert(x * one >= points(0x3f80_0000, SINGLE) * y) by (nonlinear_arith)
                requires
                    x >= 60 * one,
                    y == 30 * one,
                    points(0x3f80_0000, SINGLE) == 1 * one,
            ;
            lemma_rounded_at_least(x * one, y, 0x3f80_0000, SINGLE);
            assert(x * one <= points(0x4f80_0000, SINGLE) * y) by (nonlinear_arith)
                requires
                    x <= 18000 * one,
                    y == 30 * one,
                    points(0x4f80_0000, SINGLE) == 0x1_0000_0000 * one,
            ;
            lemma_rounded_at_most(x * one, y, 0x4f80_0000, SINGLE);
        }
        lemma_quotient_about(shown, lowest);
        let q = points(ratio.bits as nat, SINGLE);
        assert(q * y == (30 * q) * one) by (nonlinear_arith)
            requires
                y == 30 * one,
        ;
        lemma_about_cancel((30 * q) as int, x as int, one as int, 1);
        lemma_about_scale((30 * q) as int, x as int, 2, 1);
    }
}

/// The other frequencies in points.
proof fn lemma_frequencies()
    ensures
        points(TOP_HZ as nat, SINGLE) == 18000 * one_in_points(SINGLE),
        points(LEAST_TOP_HZ as nat, SINGLE) == 60 * one_in_points(SINGLE),
{
    lemma_leading(SINGLE);
    let unit = pow2(131);
    lemma_pow2_adds(131, 18);
    lemma_pow2_adds(131, 9);
    vstd::arithmetic::power2::lemma2_to64();
    assert(points(LEAST_TOP_HZ as nat, SINGLE) == 0xf0_0000 * unit);
    assert(points(TOP_HZ as nat, SINGLE) == 0x8c_a000 * (unit * 512));
    assert(one_in_points(SINGLE) == unit * 0x4_0000);
    assert(0xf0_0000 * unit == 60 * (unit * 0x4_0000)) by (nonlinear_arith);
    assert(0x8c_a000 * (unit * 512) == 18000 * (unit * 0x4_0000)) by (nonlinear_arith);
}

/// Half of a whole number is not rounded.
proof fn lemma_half(w: Single, n: nat)
    requires
        w == whole(n),
        0 < n < 0x100_0000,
    ensures
        2 * points(w.times(Single { bits: HALF }).bits as nat, SINGLE) == n * one_in_points(SINGLE),
        w.times(Single { bits: HALF }).bits < 0x7f80_0000,
{
    reveal(Single::spec_times);
    let one = one_in_points(SINGLE);
    lemma_small_whole(n);
    lemma_leading(SINGLE);
    lemma_pow2_pos(149);
    lemma_pow2_adds(148, 1);
    lemma_pow2_adds(125, 23);
    vstd::arithmetic::power2::lemma2_to64();
    let half = points(HALF as nat, SINGLE);
    assert(half == 0x80_0000 * pow2(125));
    assert(half == pow2(148));
    let mag = lemma_representable(n, 148, SINGLE);
    lemma_rounded_points(mag, one, SINGLE);
    let x = points(w.bits as nat, SINGLE);
    assert(x * half == (n * pow2(148)) * one) by (nonlinear_arith)
        requires
            x == n * one,
            half == pow2(148),
    ;
    assert(2 * (n * pow2(148)) == n * (pow2(148) * 2)) by (nonlinear_arith);
}

/// The upper edges are spread over the ratio by its powers from a first small one up to the first:
/// the exponent of a bar is its number over the number of bars, up to three roundings, and that of
/// the last is one.
pub proof fn law_exponents_are_spread(bar: nat)
    requires
        bar < BAR_COUNT,
    ensures
        about(
            (size(edge_exponent(bar)) * BAR_COUNT) as int,
            ((bar + 1) * one_in_points(SINGLE)) as int,
            3,
        ),
        edge_exponent((BAR_COUNT - 1) as nat) == Single::one(),
{
    lemma_count_over_rate_about(bar + 1, BAR_COUNT as nat);
    lemma_whole_level(BAR_COUNT as nat);
    lemma_over_itself(whole(BAR_COUNT as nat));
}

/// The last bar, whose power is the ratio itself, ends at the highest frequency shown: at the bin
/// nearest to 18 kHz where the sample rate allows that, and to half the sample rate below.
pub proof fn law_last_bar_ends_at_the_top(sample_rate: u32, powers: Seq<Single>)
    requires
        120 <= sample_rate < 0x100_0000,
        powers.len() == BAR_COUNT,
        powers[BAR_COUNT - 1] == frequency_ratio(sample_rate),
    ensures
        ({
            let one = one_in_points(SINGLE) as int;
            let rate = sample_rate as int;
            let start = edge_start(sample_rate, powers, (BAR_COUNT - 1) as nat) as int;
            let end = edge_end(sample_rate, powers, (BAR_COUNT - 1) as nat) as int;
            let top = if sample_rate >= 36000 {
                36000int
            } else {
                rate
            };
            &&& end > start + 1 ==> at_most_about((2 * end - 1) * rate * one, FFT_SIZE * top * one, 6)
            &&& end < MAX_BIN + 1 ==> at_most_about(
                FFT_SIZE * top * one,
                (2 * end + 1) * rate * one,
                6,
            )
        }),
{
    let bar = (BAR_COUNT - 1) as nat;
    let one = one_in_points(SINGLE) as int;
    let rate = sample_rate as int;
    let n = FFT_SIZE as int;
    let start = edge_start(sample_rate, powers, bar) as int;
    let end = edge_end(sample_rate, powers, bar) as int;
    let top = if sample_rate >= 36000 {
        36000int
    } else {
        rate
    };
    let p = size(frequency_ratio(sample_rate)) as int;
    law_ratio_reaches_the_top(sample_rate);
    law_bars_end_at_their_frequency(sample_rate, powers, bar);
    lemma_pow2_pos(149);
    lemma_grown_top(sample_rate, top);
    // 60 p ~ top one
    lemma_about_scale(60 * p, top * one, n, 1);
    assert((60 * p) * n == 2 * (FFT_SIZE * 30 * p) && (top * one) * n == FFT_SIZE * top * one)
        by (nonlinear_arith)
        requires
            n == FFT_SIZE,
    ;
    assert((2 * end - 1) * one * rate == (2 * end - 1) * rate * one) by (nonlinear_arith);
    assert((2 * end + 1) * one * rate == (2 * end + 1) * rate * one) by (nonlinear_arith);
    if end > start + 1 {
        lemma_at_most_chain(
            (2 * end - 1) * rate * one,
            2 * (FFT_SIZE * 30 * p),
            FFT_SIZE * top * one,
            5,
            1,
        );
    }
    if end < MAX_BIN + 1 {
        lemma_at_most_chain(
            FFT_SIZE * top * one,
            2 * (FFT_SIZE * 30 * p),
            (2 * end + 1) * rate * one,
            1,
            5,
        );
    }
}

/// Sixty times the ratio is twice the highest frequency shown.
proof fn lemma_grown_top(sample_rate: u32, top: int)
    requires
        120 <= sample_rate < 0x100_0000,
        top == if sample_rate >= 36000 {
            36000int
        } else {
            sample_rate as int
        },
    ensures
        about(60 * size(frequency_ratio(sample_rate)) as int, top * one_in_points(SINGLE), 1),
{
    law_ratio_reaches_the_top(sample_rate);
    let p = size(frequency_ratio(sample_rate)) as int;
    let one = one_in_points(SINGLE) as int;
    if sample_rate >= 36000 {
        lemma_about_scale(30 * p, 18000 * one, 2, 1);
    }
}

/// The lowest bar starts at the bin that thirty hertz falls in, but not at the first of all, and
/// not past the last.
pub proof fn law_lowest_bar_starts_at_thirty_hertz(sample_rate: u32, powers: Seq<Single>)
    ensures
        ({
            let one = one_in_points(SINGLE) as int;
            let rate = safe_rate(sample_rate) as int;
            let start = edge_start(sample_rate, powers, 0) as int;
            &&& 1 <= start <= MAX_BIN
            &&& start > 1 ==> at_most_about(start * rate * one, FFT_SIZE * 30 * one, 5)
            &&& start < MAX_BIN ==> at_most_about(FFT_SIZE * 30 * one, (start + 1) * rate * one, 5)
        }),
{
    let one = one_in_points(SINGLE) as int;
    let rate = safe_rate(sample_rate) as int;
    let lowest = Single { bits: LOWEST_HZ };
    let unit = Single::one();
    let bins = lowest.over(bin_hz(sample_rate));
    lemma_leading(SINGLE);
    lemma_pow2_pos(149);
    lemma_power_magnitude(0, 0x3f80_0000, SINGLE);
    vstd::arithmetic::power2::lemma2_to64();
    reveal(Single::spec_abs);
    assert(lowest.times(unit) == lowest) by {
        reveal(Single::spec_times);
        let l = points(LOWEST_HZ as nat, SINGLE);
        assert(l * (1 * one_in_points(SINGLE)) == l * one_in_points(SINGLE)) by (nonlinear_arith);
        lemma_rounded_points(LOWEST_HZ as nat, one_in_points(SINGLE), SINGLE);
    }
    lemma_edge_in_bins(sample_rate, unit);
    let q = points(bins.bits as nat, SINGLE) as int;
    let n = bins.to_word() as int;
    lemma_to_word(bins);
    let start = edge_start(sample_rate, powers, 0) as int;
    if start > 1 {
        assert(start * rate * one <= q * rate && 0 <= q * rate) by (nonlinear_arith)
            requires
                0 <= start <= n,
                n * one <= q,
                rate > 0,
                one > 0,
        ;
        lemma_at_most_exact(start * rate * one, q * rate, 0);
        lemma_at_most_chain(start * rate * one, q * rate, FFT_SIZE * 30 * one, 0, 5);
    }
    if start < MAX_BIN {
        assert(q * rate <= (start + 1) * rate * one && 0 <= (start + 1) * rate * one)
            by (nonlinear_arith)
            requires
                0 <= n <= start,
                q < (n + 1) * one,
                rate > 0,
                one > 0,
        ;
        lemma_at_most_exact(q * rate, (start + 1) * rate * one, 0);
        lemma_at_most_chain(FFT_SIZE * 30 * one, q * rate, (start + 1) * rate * one, 5, 0);
    }
}

/// The whole part of a level that a word can hold is not above it, and less than one below.
pub proof fn lemma_to_word(p: Single)
    requires
        p.bits <= 0x5e80_0000,
    ensures
        p.to_word() * one_in_points(SINGLE) <= points(p.bits as nat, SINGLE),
        points(p.bits as nat, SINGLE) < (p.to_word() + 1) * one_in_points(SINGLE),
{
    reveal(Single::spec_to_word);
    let one = one_in_points(SINGLE);
    let x = points(p.bits as nat, SINGLE);
    let n = whole_part(p.bits as nat, SINGLE);
    lemma_pow2_pos(149);
    lemma_leading(SINGLE);
    lemma_power_magnitude(62, 0x5e80_0000, SINGLE);
    vstd::arithmetic::power2::lemma2_to64_rest();
    lemma_points_order(p.bits as nat, 0x5e80_0000, SINGLE);
    vstd::arithmetic::div_mod::lemma_fundamental_div_mod(x as int, one as int);
    assert(n * one <= x && x < (n + 1) * one) by (nonlinear_arith)
        requires
            x as int == one * n + x as int % one as int,
            0 <= x as int % (one as int) < one,
    ;
    let top = pow2(62);
    assert(n <= top) by (nonlinear_arith)
        requires
            n * one <= x,
            x <= top * one,
            one > 0,
    ;
}

} // verus!
