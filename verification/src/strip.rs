//! Drawing the spectrum strip.
use crate::color::{color_of_level, level_color, Color};
use crate::columns::{bucket, bucket_max, Area};
use crate::single::{
    lemma_level_order, lemma_over_order, lemma_times_order, lemma_to_word_order, whole, Single,
    HALF, TWO,
};
use crate::spectrum::{SpectrumDisplayMode, SpectrumParams};
use crate::waveform::{bin_end, bin_start, lemma_bin_range, to_unit, unit};
use vstd::prelude::*;

verus! {

/// Bits of 5: the width that a column is drawn with where there are bars enough.
pub const COLUMN_PITCH: u32 = 0x40a0_0000;

/// Bits of 0.22: the share of a column that stays empty.
pub const GAP_SHARE: u32 = 0x3e61_47ae;

/// Bits of 3: the widest gap.
pub const WIDEST_GAP: u32 = 0x4040_0000;

/// A bar of the strip.
#[derive(Clone, Copy, Debug)]
pub struct StripBar {
    /// Its left edge.
    pub left: Single,
    /// Its right edge.
    pub right: Single,
    /// Its upper edge.
    pub top: Single,
    /// Whether it is high enough to be drawn.
    pub visible: bool,
    /// The color of its upper edge.
    pub color: Color,
    /// Where its cap floats.
    pub cap: Option<Single>,
}

/// A point of the mountain's outline.
#[derive(Clone, Copy, Debug)]
pub struct RidgePoint {
    /// Where it stands.
    pub x: Single,
    /// Its height on the screen.
    pub y: Single,
    /// Its color.
    pub color: Color,
    /// Where its cap floats.
    pub cap: Option<Single>,
}

/// What is drawn of the spectrum.
#[derive(Debug)]
pub enum StripPicture {
    /// Nothing: there is no room.
    Nothing,
    /// Bars, in the order they are drawn.
    Bars(Vec<StripBar>),
    /// The outline of the mountain, from left to right.
    Line(Vec<RidgePoint>),
}

/// The line that bars stand on.
pub open spec fn baseline(area: Area) -> Single {
    area.bottom.minus(Single::one())
}

/// The line that bars stand on.
pub fn strip_baseline(area: &Area) -> (r: Single)
    ensures
        r == baseline(*area),
{
    area.bottom.minus(Single::one())
}

/// The height that bars can reach.
pub open spec fn usable(area: Area) -> Single {
    area.height.minus(Single { bits: TWO }).max(Single::one())
}

/// Where a height ends on the screen.
pub open spec fn height_y(area: Area, value: Single) -> Single {
    baseline(area).minus(unit(value).times(usable(area)))
}

/// The width that columns share: the whole width, or half of it where the two halves mirror
/// each other.
pub open spec fn shared_width(area: Area, symmetric: bool) -> Single {
    if symmetric {
        area.width.times(Single { bits: HALF })
    } else {
        area.width
    }
}

/// How many columns share the width: one for each pitch, but at least one, and not more than
/// there are bars.
pub open spec fn shared_columns(area: Area, symmetric: bool, bars: nat) -> nat {
    let fitting = shared_width(area, symmetric).over(Single { bits: COLUMN_PITCH }).to_word();
    if fitting < 1 {
        1
    } else if fitting > bars {
        bars
    } else {
        fitting as nat
    }
}

/// The width of a column.
pub open spec fn strip_slot(area: Area, symmetric: bool, count: nat) -> Single {
    shared_width(area, symmetric).over(whole(count))
}

/// The gap between bars.
pub open spec fn strip_gap(slot: Single) -> Single {
    slot.times(Single { bits: GAP_SHARE }).clamp(
        Single { bits: HALF },
        Single { bits: WIDEST_GAP },
    )
}

/// Where a half begins: the left one at the edge, the right one in the middle.
pub open spec fn half_left(area: Area, right_half: bool) -> Single {
    if right_half {
        area.left.plus(shared_width(area, true))
    } else {
        area.left
    }
}

/// Where a cap floats, if caps are drawn.
pub open spec fn cap_y(
    area: Area,
    params: SpectrumParams,
    peaks: Seq<Single>,
    source: nat,
    count: nat,
) -> Option<Single> {
    if params.peak_caps {
        Some(height_y(area, bucket(peaks, source, count)))
    } else {
        None
    }
}

/// The bar of a column that begins at `left`, the `place`th from there.
pub open spec fn strip_bar(
    area: Area,
    params: SpectrumParams,
    bars: Seq<Single>,
    peaks: Seq<Single>,
    left: Single,
    place: nat,
    source: nat,
    count: nat,
) -> StripBar {
    let slot = strip_slot(area, params.symmetric, count);
    let gap = strip_gap(slot);
    let x = left.plus(whole(place).times(slot)).plus(gap.times(Single { bits: HALF }));
    let value = bucket(bars, source, count);
    let height = unit(value).times(usable(area));
    StripBar {
        left: x,
        right: x.plus(slot.minus(gap).max(Single::one())),
        top: baseline(area).minus(height),
        visible: (Single { bits: HALF }).less(height),
        color: color_of_level(value),
        cap: cap_y(area, params, peaks, source, count),
    }
}

/// The point of a column that begins at `left`, the `place`th from there.
pub open spec fn ridge_point(
    area: Area,
    params: SpectrumParams,
    bars: Seq<Single>,
    peaks: Seq<Single>,
    left: Single,
    place: nat,
    source: nat,
    count: nat,
) -> RidgePoint {
    let slot = strip_slot(area, params.symmetric, count);
    let value = bucket(bars, source, count);
    RidgePoint {
        x: left.plus(whole(place).plus(Single { bits: HALF }).times(slot)),
        y: height_y(area, value),
        color: color_of_level(value),
        cap: cap_y(area, params, peaks, source, count),
    }
}

/// The bars of the strip. Where the halves mirror each other, the lowest frequency is in the
/// middle; each step draws the left half's bar and then the right half's.
pub open spec fn strip_bars(
    area: Area,
    params: SpectrumParams,
    bars: Seq<Single>,
    peaks: Seq<Single>,
) -> Seq<StripBar> {
    let count = shared_columns(area, params.symmetric, bars.len());
    if params.symmetric {
        Seq::new(
            2 * count,
            |i: int|
                {
                    let d = i / 2;
                    if i % 2 == 0 {
                        strip_bar(
                            area,
                            params,
                            bars,
                            peaks,
                            half_left(area, false),
                            d as nat,
                            (count - 1 - d) as nat,
                            count,
                        )
                    } else {
                        strip_bar(
                            area,
                            params,
                            bars,
                            peaks,
                            half_left(area, true),
                            d as nat,
                            d as nat,
                            count,
                        )
                    }
                },
        )
    } else {
        Seq::new(
            count,
            |i: int|
                strip_bar(area, params, bars, peaks, area.left, i as nat, i as nat, count),
        )
    }
}

/// The mountain's outline from left to right.
pub open spec fn strip_ridge(
    area: Area,
    params: SpectrumParams,
    bars: Seq<Single>,
    peaks: Seq<Single>,
) -> Seq<RidgePoint> {
    let count = shared_columns(area, params.symmetric, bars.len());
    if params.symmetric {
        Seq::new(
            2 * count,
            |i: int|
                if i < count {
                    ridge_point(
                        area,
                        params,
                        bars,
                        peaks,
                        half_left(area, false),
                        i as nat,
                        (count - 1 - i) as nat,
                        count,
                    )
                } else {
                    ridge_point(
                        area,
                        params,
                        bars,
                        peaks,
                        half_left(area, true),
                        (i - count) as nat,
                        (i - count) as nat,
                        count,
                    )
                },
        )
    } else {
        Seq::new(
            count,
            |i: int|
                ridge_point(area, params, bars, peaks, area.left, i as nat, i as nat, count),
        )
    }
}

/// The measures that all columns of a strip share.
#[derive(Clone, Copy)]
struct Layout {
    baseline: Single,
    usable: Single,
    slot: Single,
    count: usize,
}

impl Layout {
    /// The measures are those of an area.
    spec fn of(self, area: Area, params: SpectrumParams, bars: nat) -> bool {
        &&& self.baseline == baseline(area)
        &&& self.usable == usable(area)
        &&& self.count == shared_columns(area, params.symmetric, bars)
        &&& self.slot == strip_slot(area, params.symmetric, self.count as nat)
        &&& 0 < self.count <= bars
        &&& bars * bars <= usize::MAX
    }

    /// Where a height ends on the screen.
    fn y_of(self, value: Single) -> (r: Single)
        ensures
            r == self.baseline.minus(unit(value).times(self.usable)),
    {
        self.baseline.minus(to_unit(value).times(self.usable))
    }
}

/// The products that place a column fit where those of all bars do.
proof fn lemma_column_products(bars: nat, count: nat)
    requires
        count <= bars,
        bars * bars <= usize::MAX,
    ensures
        bars * count <= usize::MAX,
{
    assert(bars * count <= bars * bars) by (nonlinear_arith)
        requires
            count <= bars,
    ;
}

/// Draws the bar of a column.
fn draw_bar(
    layout: Layout,
    area: &Area,
    params: &SpectrumParams,
    bars: &[Single],
    peaks: &[Single],
    left: Single,
    place: usize,
    source: usize,
) -> (r: StripBar)
    requires
        layout.of(*area, *params, bars@.len()),
        peaks@.len() == bars@.len(),
        source < layout.count,
    ensures
        r == strip_bar(
            *area,
            *params,
            bars@,
            peaks@,
            left,
            place as nat,
            source as nat,
            layout.count as nat,
        ),
{
    proof {
        lemma_column_products(bars@.len(), layout.count as nat);
        lemma_level_order(Single { bits: HALF }, Single { bits: WIDEST_GAP });
    }
    let half = Single::from_bits(HALF);
    let gap = layout.slot.times(Single::from_bits(GAP_SHARE)).clamp(
        half,
        Single::from_bits(WIDEST_GAP),
    );
    let x = left.plus(Single::of_word(place as u64).times(layout.slot)).plus(gap.times(half));
    let value = bucket_max(bars, source, layout.count);
    let height = to_unit(value).times(layout.usable);
    let cap = if params.peak_caps {
        Some(layout.y_of(bucket_max(peaks, source, layout.count)))
    } else {
        None
    };
    StripBar {
        left: x,
        right: x.plus(layout.slot.minus(gap).max(Single::one())),
        top: layout.baseline.minus(height),
        visible: half.less(height),
        color: level_color(value),
        cap,
    }
}

/// Draws the point of a column.
fn draw_point(
    layout: Layout,
    area: &Area,
    params: &SpectrumParams,
    bars: &[Single],
    peaks: &[Single],
    left: Single,
    place: usize,
    source: usize,
) -> (r: RidgePoint)
    requires
        layout.of(*area, *params, bars@.len()),
        peaks@.len() == bars@.len(),
        source < layout.count,
    ensures
        r == ridge_point(
            *area,
            *params,
            bars@,
            peaks@,
            left,
            place as nat,
            source as nat,
            layout.count as nat,
        ),
{
    proof {
        lemma_column_products(bars@.len(), layout.count as nat);
    }
    let half = Single::from_bits(HALF);
    let value = bucket_max(bars, source, layout.count);
    let cap = if params.peak_caps {
        Some(layout.y_of(bucket_max(peaks, source, layout.count)))
    } else {
        None
    };
    RidgePoint {
        x: left.plus(Single::of_word(place as u64).plus(half).times(layout.slot)),
        y: layout.y_of(value),
        color: level_color(value),
        cap,
    }
}

/// What is drawn of the spectrum in an area.
pub fn paint_spectrum(
    area: &Area,
    params: &SpectrumParams,
    bars: &[Single],
    peaks: &[Single],
) -> (r: StripPicture)
    requires
        peaks@.len() == bars@.len(),
        bars@.len() * bars@.len() <= usize::MAX,
    ensures
        r is Nothing <==> bars@.len() == 0 || area.width.at_most(Single::one()),
        r is Nothing || (match params.mode {
            SpectrumDisplayMode::Bars => r matches StripPicture::Bars(shown) && shown@
                == strip_bars(*area, *params, bars@, peaks@),
            SpectrumDisplayMode::Line => r matches StripPicture::Line(shown) && shown@
                == strip_ridge(*area, *params, bars@, peaks@),
        }),
{
    let n = bars.len();
    if n == 0 || area.width.at_most(Single::one()) {
        return StripPicture::Nothing;
    }
    let shared = if params.symmetric {
        area.width.times(Single::from_bits(HALF))
    } else {
        area.width
    };
    let fitting = shared.over(Single::from_bits(COLUMN_PITCH)).to_word();
    let count: usize = if fitting < 1 {
        1
    } else if fitting > n as u64 {
        n
    } else {
        fitting as usize
    };
    let layout = Layout {
        baseline: strip_baseline(area),
        usable: area.height.minus(Single::from_bits(TWO)).max(Single::one()),
        slot: shared.over(Single::of_word(count as u64)),
        count,
    };
    let middle = area.left.plus(shared);
    match params.mode {
        SpectrumDisplayMode::Bars => {
            StripPicture::Bars(draw_bars(layout, area, params, bars, peaks, middle))
        },
        SpectrumDisplayMode::Line => {
            StripPicture::Line(draw_ridge(layout, area, params, bars, peaks, middle))
        },
    }
}

/// Draws all bars.
fn draw_bars(
    layout: Layout,
    area: &Area,
    params: &SpectrumParams,
    bars: &[Single],
    peaks: &[Single],
    middle: Single,
) -> (r: Vec<StripBar>)
    requires
        layout.of(*area, *params, bars@.len()),
        peaks@.len() == bars@.len(),
        params.symmetric ==> middle == half_left(*area, true),
    ensures
        r@ == strip_bars(*area, *params, bars@, peaks@),
{
    let count = layout.count;
    let ghost wanted = strip_bars(*area, *params, bars@, peaks@);
    let mut out: Vec<StripBar> = Vec::new();
    let mut d: usize = 0;
    while d < count
        invariant
            d <= count == layout.count,
            layout.of(*area, *params, bars@.len()),
            peaks@.len() == bars@.len(),
            params.symmetric ==> middle == half_left(*area, true),
            wanted == strip_bars(*area, *params, bars@, peaks@),
            out@.len() == if params.symmetric { 2 * d } else { d as int },
            forall|j: int| 0 <= j < out@.len() ==> out@[j] == wanted[j],
        decreases count - d,
    {
        if params.symmetric {
            let left = draw_bar(layout, area, params, bars, peaks, area.left, d, count - 1 - d);
            out.push(left);
            let right = draw_bar(layout, area, params, bars, peaks, middle, d, d);
            out.push(right);
            assert((2 * d) / 2 == d && (2 * d) % 2 == 0);
            assert((2 * d + 1) / 2 == d && (2 * d + 1) % 2 == 1);
        } else {
            out.push(draw_bar(layout, area, params, bars, peaks, area.left, d, d));
        }
        d = d + 1;
    }
    assert(out@ =~= wanted);
    out
}

/// Draws the whole outline.
fn draw_ridge(
    layout: Layout,
    area: &Area,
    params: &SpectrumParams,
    bars: &[Single],
    peaks: &[Single],
    middle: Single,
) -> (r: Vec<RidgePoint>)
    requires
        layout.of(*area, *params, bars@.len()),
        peaks@.len() == bars@.len(),
        params.symmetric ==> middle == half_left(*area, true),
    ensures
        r@ == strip_ridge(*area, *params, bars@, peaks@),
{
    let count = layout.count;
    let ghost wanted = strip_ridge(*area, *params, bars@, peaks@);
    let mut out: Vec<RidgePoint> = Vec::new();
    let mut d: usize = 0;
    while d < count
        invariant
            d <= count == layout.count,
            layout.of(*area, *params, bars@.len()),
            peaks@.len() == bars@.len(),
            wanted == strip_ridge(*area, *params, bars@, peaks@),
            out@.len() == d,
            forall|j: int| 0 <= j < out@.len() ==> out@[j] == wanted[j],
        decreases count - d,
    {
        let source = if params.symmetric {
            count - 1 - d
        } else {
            d
        };
        out.push(draw_point(layout, area, params, bars, peaks, area.left, d, source));
        d = d + 1;
    }
    if params.symmetric {
        let mut e: usize = 0;
        while e < count
            invariant
                e <= count == layout.count,
                layout.of(*area, *params, bars@.len()),
                peaks@.len() == bars@.len(),
                params.symmetric,
                middle == half_left(*area, true),
                wanted == strip_ridge(*area, *params, bars@, peaks@),
                out@.len() == count + e,
                forall|j: int| 0 <= j < out@.len() ==> out@[j] == wanted[j],
            decreases count - e,
        {
            out.push(draw_point(layout, area, params, bars, peaks, middle, e, e));
            e = e + 1;
        }
    }
    assert(out@ =~= wanted);
    out
}

/// A corner of a filled shape: one on the outline, or the one below it on the baseline.
pub open spec fn upper_corner(point: nat) -> nat {
    2 * point
}

/// The two triangles that fill the shape between a point of the outline and the one before it.
/// Corners are numbered by two for each point: the one on the outline, then the one below it.
pub open spec fn filling(point: nat) -> Seq<(u32, u32, u32)> {
    let at = upper_corner(point);
    seq![
        ((at - 2) as u32, (at - 1) as u32, at as u32),
        ((at - 1) as u32, (at + 1) as u32, at as u32),
    ]
}

/// The triangles that fill the shape below an outline.
pub open spec fn fillings(points: nat) -> Seq<(u32, u32, u32)>
    decreases points,
{
    if points <= 1 {
        Seq::empty()
    } else {
        fillings((points - 1) as nat) + filling((points - 1) as nat)
    }
}

/// The triangles that fill the shape below an outline.
pub fn mountain_triangles(points: usize) -> (r: Vec<(u32, u32, u32)>)
    requires
        2 * points <= u32::MAX,
    ensures
        r@ == fillings(points as nat),
{
    let mut out: Vec<(u32, u32, u32)> = Vec::new();
    let mut point: usize = 1;
    if points <= 1 {
        assert(out@ =~= fillings(points as nat));
        return out;
    }
    assert(out@ =~= fillings(1));
    while point < points
        invariant
            1 <= point <= points,
            2 * points <= u32::MAX,
            out@ == fillings(point as nat),
        decreases points - point,
    {
        let at: u32 = 2 * point as u32;
        out.push((at - 2, at - 1, at));
        out.push((at - 1, at + 1, at));
        assert(out@ =~= fillings(point as nat) + filling(point as nat));
        point = point + 1;
    }
    out
}

/// Every corner that a triangle names is there, and the shape between any two points of the
/// outline is filled by two triangles.
pub proof fn law_mountain_is_filled(points: nat, i: int)
    requires
        2 * points <= u32::MAX,
        0 <= i < fillings(points).len(),
    ensures
        points > 1,
        fillings(points).len() == 2 * (points - 1),
        fillings(points)[i].0 < 2 * points,
        fillings(points)[i].1 < 2 * points,
        fillings(points)[i].2 < 2 * points,
    decreases points,
{
    if points > 2 {
        let fewer = (points - 1) as nat;
        assert(fillings(fewer).len() == 2 * (fewer - 1)) by {
            lemma_filling_count(fewer);
        }
        if i < fillings(fewer).len() {
            law_mountain_is_filled(fewer, i);
        }
    } else if points == 2 {
        assert(fillings(1) =~= Seq::empty());
    }
}

proof fn lemma_filling_count(points: nat)
    requires
        points >= 1,
    ensures
        fillings(points).len() == 2 * (points - 1),
    decreases points,
{
    if points > 1 {
        lemma_filling_count((points - 1) as nat);
    }
}

/// Every column of the strip is fed by at least one bar, and none past the last.
pub proof fn law_strip_columns_are_fed(area: Area, symmetric: bool, bars: nat, column: nat)
    requires
        bars > 0,
        column < shared_columns(area, symmetric, bars),
    ensures
        1 <= shared_columns(area, symmetric, bars) <= bars,
        bin_start(column, bars, shared_columns(area, symmetric, bars)) < bin_end(
            column,
            bars,
            shared_columns(area, symmetric, bars),
        ) <= bars,
{
    lemma_bin_range(column, bars, shared_columns(area, symmetric, bars));
}

/// A mirrored strip shows the same heights, caps and colors on both sides of the middle, as bars
/// and as a line.
pub proof fn law_strip_mirrors(
    area: Area,
    params: SpectrumParams,
    bars: Seq<Single>,
    peaks: Seq<Single>,
    i: int,
)
    requires
        params.symmetric,
        bars.len() > 0,
        0 <= i < 2 * shared_columns(area, true, bars.len()),
    ensures
        ({
            let ridge = strip_ridge(area, params, bars, peaks);
            let mirrored = ridge[ridge.len() - 1 - i];
            &&& ridge.len() == 2 * shared_columns(area, true, bars.len())
            &&& ridge[i].y == mirrored.y
            &&& ridge[i].color == mirrored.color
            &&& ridge[i].cap == mirrored.cap
        }),
        ({
            let drawn = strip_bars(area, params, bars, peaks);
            let mirrored = drawn[drawn.len() - 1 - i];
            &&& drawn.len() == 2 * shared_columns(area, true, bars.len())
            &&& drawn[i].top == mirrored.top
            &&& drawn[i].visible == mirrored.visible
            &&& drawn[i].color == mirrored.color
            &&& drawn[i].cap == mirrored.cap
        }),
{
    let count = shared_columns(area, true, bars.len());
    let j = 2 * count - 1 - i;
    // The left half's bar and the right half's of one source.
    assert(i % 2 == 0 ==> j % 2 == 1 && j / 2 == count - 1 - i / 2);
    assert(i % 2 == 1 ==> j % 2 == 0 && j / 2 == count - 1 - i / 2);
}

/// A wider strip shows more columns, and never fewer.
pub proof fn law_wider_strip_shows_more(narrow: Area, wide: Area, symmetric: bool, bars: nat)
    requires
        bars > 0,
        narrow.width.bits <= wide.width.bits,
        wide.width.bits < 0x7f80_0000,
    ensures
        1 <= shared_columns(narrow, symmetric, bars) <= shared_columns(wide, symmetric, bars) <= bars,
{
    lemma_times_order(narrow.width, wide.width, Single { bits: HALF });
    let a = shared_width(narrow, symmetric);
    let b = shared_width(wide, symmetric);
    let pitch = Single { bits: COLUMN_PITCH };
    lemma_over_order(a, b, pitch);
    lemma_to_word_order(a.over(pitch), b.over(pitch));
}

} // verus!
