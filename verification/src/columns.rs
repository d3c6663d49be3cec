//! Drawing the waveform: its columns, and the lines they become.
use crate::color::{color_of_bands, spectral_color, BandLevels, Color};
use crate::signal::{
    add_range, added, energy, energy_range, largest, largest_range, lemma_largest, sum_start,
};
use crate::single::{lemma_level_order, whole, Single, HALF, TWO};
use crate::time::Duration;
use crate::waveform::{
    bin_end, bin_start, lemma_bin_range, lemma_frame_has_bin, to_unit, unit, ColorMode,
    ReductionMode, WaveformAnalysis, WaveformParams,
};
use vstd::prelude::*;

verus! {

/// The values around one, as far as a radius reaches.
pub open spec fn neighborhood(values: Seq<Single>, index: int, radius: nat) -> Seq<Single> {
    let start = if index < radius {
        0
    } else {
        index - radius
    };
    let end = if index + radius + 1 < values.len() {
        index + radius + 1
    } else {
        values.len() as int
    };
    values.subrange(start, end)
}

/// The average of values.
pub open spec fn average(values: Seq<Single>) -> Single {
    added(sum_start(), values).over(whole(values.len()))
}

/// Each value averaged with those around it; a radius of zero leaves the values as they are.
pub open spec fn smoothed(values: Seq<Single>, radius: nat) -> Seq<Single> {
    if radius == 0 {
        values
    } else {
        Seq::new(values.len(), |i: int| average(neighborhood(values, i, radius)))
    }
}

/// Averages each value with those around it.
pub fn smooth(values: &[Single], radius: usize) -> (r: Vec<Single>)
    requires
        values@.len() + radius < usize::MAX,
    ensures
        r@ == smoothed(values@, radius as nat),
{
    let len = values.len();
    let mut out: Vec<Single> = Vec::new();
    let mut i: usize = 0;
    while i < len
        invariant
            i <= len == values@.len(),
            i == out@.len(),
            values@.len() + radius < usize::MAX,
            forall|j: int| 0 <= j < i ==> out@[j] == smoothed(values@, radius as nat)[j],
        decreases len - i,
    {
        if radius == 0 {
            out.push(values[i]);
        } else {
            let start = if i < radius {
                0
            } else {
                i - radius
            };
            let end = if i + radius + 1 < len {
                i + radius + 1
            } else {
                len
            };
            let sum = add_range(sum_start(), values, start, end);
            out.push(sum.over(Single::of_word((end - start) as u64)));
        }
        i = i + 1;
    }
    assert(out@ =~= smoothed(values@, radius as nat));
    out
}

/// The largest of the values that feed one of `count` columns, and zero where none is above it.
pub open spec fn bucket(values: Seq<Single>, column: nat, count: nat) -> Single {
    largest(
        values.subrange(
            bin_start(column, values.len(), count) as int,
            bin_end(column, values.len(), count) as int,
        ),
    )
}

/// The first and the last but one of the values that feed a column.
fn bucket_range(len: usize, column: usize, count: usize) -> (r: (usize, usize))
    requires
        column < count,
        0 < len,
        len * count <= usize::MAX,
    ensures
        r.0 == bin_start(column as nat, len as nat, count as nat),
        r.1 == bin_end(column as nat, len as nat, count as nat),
        r.0 < r.1 <= len,
{
    proof {
        lemma_bin_range(column as nat, len as nat, count as nat);
        assert(column * len <= (column + 1) * len <= len * count) by (nonlinear_arith)
            requires
                column + 1 <= count,
        ;
    }
    let start = column * len / count;
    let next = (column + 1) * len / count;
    let end = if next > start {
        next
    } else {
        start + 1
    };
    (start, end)
}

/// The loudest of the bars that feed a display column.
pub fn bucket_max(values: &[Single], column: usize, count: usize) -> (r: Single)
    requires
        column < count <= values@.len(),
        values@.len() * count <= usize::MAX,
    ensures
        r == bucket(values@, column as nat, count as nat),
{
    let (start, end) = bucket_range(values.len(), column, count);
    largest_range(values, start, end)
}

/// A column of the waveform: its amplitude and the levels of its bands.
#[derive(Clone, Copy, Debug)]
pub struct Column {
    /// The amplitude, from 0 to 1.
    pub amplitude: Single,
    /// The levels of the bands; nothing where columns are of one color.
    pub bands: BandLevels,
}

/// The amplitude of the bins that feed a column.
pub open spec fn reduced(values: Seq<Single>, mode: ReductionMode, column: nat, count: nat) -> Single {
    match mode {
        ReductionMode::Peak => bucket(values, column, count),
        ReductionMode::Rms => {
            let start = bin_start(column, values.len(), count);
            let end = bin_end(column, values.len(), count);
            energy(sum_start(), values.subrange(start as int, end as int)).over(
                whole((end - start) as nat),
            ).sqrt()
        },
    }
}

/// How many columns are drawn: as many as are asked for, but not more than there are bins or
/// pixels, and at least one.
pub open spec fn column_count(wanted: nat, bins: nat, width: Single) -> nat {
    let pixels = width.round_to_word() as nat;
    let some = if wanted < bins {
        wanted
    } else {
        bins
    };
    let fitting = if some < pixels {
        some
    } else {
        pixels
    };
    if fitting < 1 {
        1
    } else {
        fitting
    }
}

/// A width to draw in: at least one pixel.
pub open spec fn drawn_width(width: Single) -> Single {
    width.max(Single::one())
}

/// Whether columns take their colors from the bands: only where Traktor has analyzed the track.
pub open spec fn is_spectral(params: WaveformParams, traktor_analyzed: bool) -> bool {
    params.color_mode == ColorMode::Spectral && traktor_analyzed
}

/// The levels of a column's bands.
pub open spec fn column_bands(analysis: WaveformAnalysis, spectral: bool, column: nat, count: nat) ->
    BandLevels {
    if spectral {
        BandLevels {
            low: bucket(analysis.low@, column, count),
            mid: bucket(analysis.mid@, column, count),
            high: bucket(analysis.high@, column, count),
        }
    } else {
        BandLevels { low: Single::zero(), mid: Single::zero(), high: Single::zero() }
    }
}

/// The amplitudes of the columns before they are smoothed.
pub open spec fn raw_amplitudes(
    analysis: WaveformAnalysis,
    params: WaveformParams,
    count: nat,
) -> Seq<Single> {
    Seq::new(
        count,
        |column: int| reduced(analysis.series(params.mode), params.mode, column as nat, count),
    )
}

/// The columns of a waveform.
pub open spec fn columns_of(
    analysis: WaveformAnalysis,
    params: WaveformParams,
    width: Single,
    traktor_analyzed: bool,
) -> Seq<Column> {
    let count = column_count(params.bins as nat, analysis.peak@.len(), drawn_width(width));
    let amplitudes = smoothed(raw_amplitudes(analysis, params, count), params.smoothing as nat);
    Seq::new(
        count,
        |column: int|
            Column {
                amplitude: unit(amplitudes[column]),
                bands: column_bands(
                    analysis,
                    is_spectral(params, traktor_analyzed),
                    column as nat,
                    count,
                ),
            },
    )
}

/// Takes the bins of the analysis together into the columns that are drawn.
pub fn waveform_columns(
    analysis: &WaveformAnalysis,
    params: &WaveformParams,
    width: Single,
    traktor_analyzed: bool,
) -> (r: Vec<Column>)
    requires
        analysis.wf(),
        analysis.peak@.len() > 0,
        analysis.peak@.len() * analysis.peak@.len() <= usize::MAX,
        analysis.peak@.len() + params.smoothing < usize::MAX,
    ensures
        r@ == columns_of(*analysis, *params, width, traktor_analyzed),
{
    let bins = analysis.len();
    let pixels = width.max(Single::one()).round_to_word();
    let some = if params.bins < bins {
        params.bins
    } else {
        bins
    };
    let fitting: usize = if (some as u64) < pixels {
        some
    } else {
        pixels as usize
    };
    let count: usize = if fitting < 1 {
        1
    } else {
        fitting
    };
    let spectral = params.color_mode == ColorMode::Spectral && traktor_analyzed;
    let values = analysis.amplitude(params.mode);
    proof {
        assert(bins * count <= bins * bins) by (nonlinear_arith)
            requires
                count <= bins,
        ;
    }
    let mut raw: Vec<Single> = Vec::new();
    let mut column: usize = 0;
    while column < count
        invariant
            column <= count <= bins,
            column == raw@.len(),
            0 < bins == values@.len(),
            values@ == analysis.series(params.mode),
            bins * count <= usize::MAX,
            forall|j: int|
                0 <= j < column ==> raw@[j] == raw_amplitudes(*analysis, *params, count as nat)[j],
        decreases count - column,
    {
        let (start, end) = bucket_range(bins, column, count);
        let amplitude = match params.mode {
            ReductionMode::Peak => largest_range(values, start, end),
            ReductionMode::Rms => {
                energy_range(sum_start(), values, start, end).over(
                    Single::of_word((end - start) as u64),
                ).sqrt()
            },
        };
        raw.push(amplitude);
        column = column + 1;
    }
    assert(raw@ =~= raw_amplitudes(*analysis, *params, count as nat));
    let amplitudes = smooth(&raw, params.smoothing);
    let mut out: Vec<Column> = Vec::new();
    let mut i: usize = 0;
    while i < count
        invariant
            i <= count <= bins,
            i == out@.len(),
            amplitudes@.len() == count,
            0 < bins == analysis.peak@.len(),
            analysis.wf(),
            bins * count <= usize::MAX,
            spectral == is_spectral(*params, traktor_analyzed),
            forall|j: int|
                0 <= j < i ==> out@[j] == (Column {
                    amplitude: unit(amplitudes@[j]),
                    bands: column_bands(*analysis, spectral, j as nat, count as nat),
                }),
        decreases count - i,
    {
        let bands = if spectral {
            BandLevels {
                low: bucket_max(&analysis.low, i, count),
                mid: bucket_max(&analysis.mid, i, count),
                high: bucket_max(&analysis.high, i, count),
            }
        } else {
            BandLevels { low: Single::zero(), mid: Single::zero(), high: Single::zero() }
        };
        out.push(Column { amplitude: to_unit(amplitudes[i]), bands });
        i = i + 1;
    }
    assert(out@ =~= columns_of(*analysis, *params, width, traktor_analyzed));
    out
}

/// A rectangle on the screen.
#[derive(Clone, Copy, Debug)]
pub struct Area {
    /// The left edge.
    pub left: Single,
    /// The bottom edge.
    pub bottom: Single,
    /// The width.
    pub width: Single,
    /// The height.
    pub height: Single,
    /// The middle, from top to bottom.
    pub center_y: Single,
}

/// An upright line.
#[derive(Clone, Copy, Debug)]
pub struct WaveformBar {
    /// Where it stands.
    pub x: Single,
    /// Its upper end.
    pub top: Single,
    /// Its lower end.
    pub bottom: Single,
    /// Its color.
    pub color: Color,
}

/// Bits of 0.46: the share of the height on each side of the middle that bars use.
pub const HALF_SHARE: u32 = 0x3eeb_851f;

/// How much of a track has played.
pub open spec fn progress(position: Single, duration: Duration) -> Single {
    if duration.seconds == 0 && duration.nanos == 0 {
        Single::zero()
    } else {
        unit(position.over(duration.as_seconds()))
    }
}

/// Where what has played ends.
pub open spec fn played_to(area: Area, position: Single, duration: Duration) -> Single {
    area.left.plus(area.width.times(progress(position, duration)))
}

/// Where what has played ends.
pub fn played_x(area: &Area, position: Single, duration: Duration) -> (r: Single)
    ensures
        r == played_to(*area, position, duration),
{
    let share = if duration.is_zero() {
        Single::zero()
    } else {
        to_unit(position.over(duration.as_seconds()))
    };
    area.left.plus(area.width.times(share))
}

/// The half height that bars use.
pub open spec fn half_height(area: Area) -> Single {
    area.height.times(Single { bits: HALF_SHARE })
}

/// The width of a column.
pub open spec fn column_slot(area: Area, count: nat) -> Single {
    drawn_width(area.width).over(whole(count))
}

/// The width of a bar: one less than its column's, and at least one.
pub open spec fn drawn_bar_width(area: Area, count: nat) -> Single {
    let slot = column_slot(area, count);
    slot.minus(Single::one()).clamp(Single::one(), slot.max(Single::one()))
}

/// The width of a bar.
pub fn bar_width(area: &Area, count: usize) -> (r: Single)
    ensures
        r == drawn_bar_width(*area, count as nat),
{
    let one = Single::one();
    let slot = area.width.max(one).over(Single::of_word(count as u64));
    proof {
        lemma_level_order(one, one);
        reveal(Single::spec_less);
        reveal(Single::spec_at_most);
    }
    slot.minus(one).clamp(one, slot.max(one))
}

/// The height of a bar, given its amplitude on the curve.
pub open spec fn bar_height(area: Area, params: WaveformParams, shaped: Single) -> Single {
    let half = half_height(area);
    shaped.times(half).times(params.height_scale).clamp(Single::zero(), half).max(
        Single { bits: HALF },
    )
}

/// The color of a bar.
pub open spec fn bar_color(
    column: Column,
    shades: BandLevels,
    spectral: bool,
    played: bool,
) -> Color {
    if spectral {
        color_of_bands(column.bands, shades, played)
    } else if played {
        Color { r: 96, g: 158, b: 184 }
    } else {
        Color { r: 72, g: 78, b: 84 }
    }
}

/// Where a column stands.
pub open spec fn column_x(area: Area, column: nat, count: nat) -> Single {
    area.left.plus(
        whole(column).plus(Single { bits: HALF }).times(column_slot(area, count)),
    )
}

/// The line that a column becomes.
pub open spec fn bar_of(
    area: Area,
    params: WaveformParams,
    traktor_analyzed: bool,
    played_x: Single,
    columns: Seq<Column>,
    shaped: Single,
    shades: BandLevels,
    index: int,
) -> WaveformBar {
    let height = bar_height(area, params, shaped);
    let x = column_x(area, index as nat, columns.len());
    let base = area.center_y.plus(half_height(area));
    WaveformBar {
        x,
        top: if params.mirror {
            area.center_y.minus(height)
        } else {
            base.minus((Single { bits: TWO }).times(height))
        },
        bottom: if params.mirror {
            area.center_y.plus(height)
        } else {
            base
        },
        color: bar_color(
            columns[index],
            shades,
            is_spectral(params, traktor_analyzed),
            x.at_most(played_x),
        ),
    }
}

/// The lines that the columns become. `shaped` holds each amplitude to the power of the curve,
/// and `shades` the power 0.7 of each column's band balance; where columns are of one color the
/// shades do not matter.
pub fn waveform_bars(
    area: &Area,
    params: &WaveformParams,
    traktor_analyzed: bool,
    played_x: Single,
    columns: &[Column],
    shaped: &[Single],
    shades: &[BandLevels],
) -> (r: Vec<WaveformBar>)
    requires
        shaped@.len() == columns@.len(),
        shades@.len() == columns@.len(),
        Single::zero().at_most(half_height(*area)),
    ensures
        r@.len() == columns@.len(),
        forall|i: int|
            0 <= i < columns@.len() ==> #[trigger] r@[i] == bar_of(
                *area,
                *params,
                traktor_analyzed,
                played_x,
                columns@,
                shaped@[i],
                shades@[i],
                i,
            ),
{
    let spectral = params.color_mode == ColorMode::Spectral && traktor_analyzed;
    let half = area.height.times(Single::from_bits(HALF_SHARE));
    let count = columns.len();
    let slot = area.width.max(Single::one()).over(Single::of_word(count as u64));
    let base = area.center_y.plus(half);
    let mut bars: Vec<WaveformBar> = Vec::new();
    let mut i: usize = 0;
    while i < count
        invariant
            i <= count == columns@.len() == shaped@.len() == shades@.len(),
            i == bars@.len(),
            spectral == is_spectral(*params, traktor_analyzed),
            half == half_height(*area),
            slot == column_slot(*area, columns@.len()),
            base == area.center_y.plus(half),
            Single::zero().at_most(half),
            forall|j: int|
                0 <= j < i ==> #[trigger] bars@[j] == bar_of(
                    *area,
                    *params,
                    traktor_analyzed,
                    played_x,
                    columns@,
                    shaped@[j],
                    shades@[j],
                    j,
                ),
        decreases count - i,
    {
        let height = shaped[i].times(half).times(params.height_scale).clamp(
            Single::zero(),
            half,
        ).max(Single::from_bits(HALF));
        let x = area.left.plus(
            Single::of_word(i as u64).plus(Single::from_bits(HALF)).times(slot),
        );
        let played = x.at_most(played_x);
        let color = if spectral {
            spectral_color(columns[i].bands, shades[i], played)
        } else if played {
            Color { r: 96, g: 158, b: 184 }
        } else {
            Color { r: 72, g: 78, b: 84 }
        };
        let (top, bottom) = if params.mirror {
            (area.center_y.minus(height), area.center_y.plus(height))
        } else {
            (base.minus(Single::from_bits(TWO).times(height)), base)
        };
        bars.push(WaveformBar { x, top, bottom, color });
        i = i + 1;
    }
    bars
}

/// Whether bars fit an area: it has a height that is not negative.
pub fn holds_bars(area: &Area) -> (r: bool)
    ensures
        r == Single::zero().at_most(half_height(*area)),
{
    Single::zero().at_most(area.height.times(Single::from_bits(HALF_SHARE)))
}

/// Every column is fed by at least one bin, and no bin is past the last.
pub proof fn law_columns_are_fed(wanted: nat, bins: nat, width: Single, column: nat)
    requires
        bins > 0,
        column < column_count(wanted, bins, width),
    ensures
        1 <= column_count(wanted, bins, width) <= bins,
        bin_start(column, bins, column_count(wanted, bins, width)) < bin_end(
            column,
            bins,
            column_count(wanted, bins, width),
        ) <= bins,
{
    lemma_bin_range(column, bins, column_count(wanted, bins, width));
}

/// The values that feed each of `count` columns, reduced to their largest.
pub open spec fn buckets(values: Seq<Single>, count: nat) -> Seq<Single> {
    Seq::new(count, |column: int| bucket(values, column as nat, count))
}

/// No loud bar is lost on the way to the columns: the largest column is the largest bar.
pub proof fn law_largest_bar_is_kept(values: Seq<Single>, count: nat)
    requires
        count > 0,
        values.len() > 0,
    ensures
        largest(buckets(values, count)) == largest(values),
{
    let columns = buckets(values, count);
    let len = values.len();
    lemma_largest(values);
    lemma_largest(columns);
    let top = largest(values);
    let shown = largest(columns);
    // No column passes the largest bar.
    if shown != Single::zero() {
        let column = choose|i: int| 0 <= i < columns.len() && shown == #[trigger] columns[i];
        lemma_bin_range(column as nat, len, count);
        let start = bin_start(column as nat, len, count) as int;
        let fed = values.subrange(start, bin_end(column as nat, len, count) as int);
        lemma_largest(fed);
        let i = choose|i: int| 0 <= i < fed.len() && shown == #[trigger] fed[i];
        assert(values[start + i] == shown);
        lemma_level_order(shown, top);
    }
    // The column that the largest bar feeds reaches it.
    if top != Single::zero() {
        let bar = choose|i: int| 0 <= i < len && top == #[trigger] values[i];
        let column = lemma_frame_has_bin(bar as nat, len, count, count);
        lemma_bin_range(column, len, count);
        let start = bin_start(column, len, count) as int;
        let fed = values.subrange(start, bin_end(column, len, count) as int);
        lemma_largest(fed);
        assert(fed[bar - start] == top);
        lemma_level_order(top, largest(fed));
        assert(columns[column as int] == largest(fed));
        lemma_level_order(largest(fed), shown);
    }
}

} // verus!
