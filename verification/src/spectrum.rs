//! The live spectrum: how transform magnitudes become bars with falling caps.
//!
//! It only serves the eye. The transform itself runs over the output mix that the audio tap
//! keeps; here its input is prepared and its magnitudes are read.
use crate::audio::{safe_rate, silence};
use crate::closeness::about;
use crate::frequencies::{ends_nearest, is_edge_power, law_bars_end_at_their_frequency};
use crate::ieee::{one_in_points, SINGLE};
use crate::levels::{lemma_square, run_within, size};
use crate::reduction::{lemma_square_about, FAINTEST_SHOWN};
use crate::signal::{largest, largest_range};
use crate::single::{
    is_finite, is_share, lemma_at_least_level, lemma_clamp_range, lemma_clamp_share,
    lemma_level_order, lemma_minus_itself, lemma_minus_nan, lemma_minus_not_above, lemma_one_times,
    lemma_over_itself, lemma_plus_not_below, lemma_times_not_below, lemma_times_share,
    lemma_zero_over, lemma_zero_times, whole, Single, HALF, TWENTY,
};
use crate::waveform::{to_unit, unit};
use vstd::prelude::*;

verus! {

/// Samples in a transform.
pub const FFT_SIZE: usize = 2048;

/// Bars of the analyzer, spaced by the logarithm of the frequency.
pub const BAR_COUNT: usize = 192;

/// The last bin of a transform.
pub const MAX_BIN: usize = 1024;

/// Bits of -84: the level in decibels at which a bar has no height.
pub const DB_FLOOR: u32 = 0xc2a8_0000;

/// Bits of -18: the level in decibels at which a bar has full height.
pub const DB_CEIL: u32 = 0xc190_0000;

/// Bits of 0.88: what a falling bar keeps of its height in each step.
pub const RELEASE: u32 = 0x3f61_47ae;

/// Bits of 0.65: the seconds that a cap waits before it falls.
pub const PEAK_HOLD_SECS: u32 = 0x3f26_6666;

/// Bits of 1.8: how fast a cap's fall quickens.
pub const CAP_GRAVITY: u32 = 0x3fe6_6666;

/// Bits of 1024: half the transform's length, the magnitude of a full-scale tone.
pub const TONE_MAGNITUDE: u32 = 0x4480_0000;

/// Bits of one billionth: kept under magnitudes so that silence has a logarithm.
pub const QUIETEST: u32 = 0x3089_705f;

/// Bits of 0.25: the least sensitivity.
pub const LEAST_SENSITIVITY: u32 = 0x3e80_0000;

/// Bits of 3: the greatest sensitivity.
pub const GREATEST_SENSITIVITY: u32 = 0x4040_0000;

/// Bits of 6: the least gap between floor and ceiling in decibels.
pub const LEAST_GAP: u32 = 0x40c0_0000;

/// How the strip is drawn.
#[derive(Clone, Copy, Debug, PartialEq, Eq, Structural)]
pub enum SpectrumDisplayMode {
    /// Upright bars with small gaps.
    Bars,
    /// A filled mountain with an outline.
    Line,
}

/// How the spectrum is drawn. Changes show at once.
#[derive(Clone, Copy, Debug, PartialEq)]
pub struct SpectrumParams {
    /// Bars or a line.
    pub mode: SpectrumDisplayMode,
    /// The level in decibels at which a bar has no height.
    pub db_floor: Single,
    /// The level in decibels at which a bar has full height.
    pub db_ceil: Single,
    /// Whether caps float above the bars.
    pub peak_caps: bool,
    /// What heights are multiplied by.
    pub sensitivity: Single,
    /// Whether the lowest frequency is in the middle and the highest at both edges.
    pub symmetric: bool,
}

impl Default for SpectrumParams {
    fn default() -> (r: SpectrumParams)
        ensures
            r == (SpectrumParams {
                mode: SpectrumDisplayMode::Bars,
                db_floor: Single { bits: DB_FLOOR },
                db_ceil: Single { bits: DB_CEIL },
                peak_caps: true,
                sensitivity: Single::one(),
                symmetric: true,
            }),
    {
        SpectrumParams {
            mode: SpectrumDisplayMode::Bars,
            db_floor: Single::from_bits(DB_FLOOR),
            db_ceil: Single::from_bits(DB_CEIL),
            peak_caps: true,
            sensitivity: Single::one(),
            symmetric: true,
        }
    }
}

impl SpectrumParams {
    /// The highest floor that keeps the gap below the ceiling.
    pub open spec fn highest_floor(self) -> Single {
        self.db_ceil.minus(Single { bits: LEAST_GAP })
    }

    /// Moves the floor down where it comes too close to the ceiling.
    pub fn keep_gap(&mut self)
        ensures
            *final(self) == (SpectrumParams {
                db_floor: if old(self).highest_floor().at_most(old(self).db_floor) {
                    old(self).highest_floor()
                } else {
                    old(self).db_floor
                },
                ..*old(self)
            }),
            !old(self).highest_floor().is_nan() && !old(self).db_floor.is_nan()
                ==> final(self).db_floor.at_most(final(self).highest_floor()),
    {
        proof {
            reveal(Single::spec_at_most);
        }
        let highest = self.db_ceil.minus(Single::from_bits(LEAST_GAP));
        if highest.at_most(self.db_floor) {
            self.db_floor = highest;
        }
    }
}

/// A bar: its height, its cap, how fast the cap falls and how long it still waits.
#[derive(Clone, Copy, Debug)]
pub struct Bar {
    /// The height, from 0 to 1.
    pub height: Single,
    /// The height of the cap.
    pub cap: Single,
    /// The cap's speed.
    pub velocity: Single,
    /// The seconds before the cap falls.
    pub hold: Single,
}

impl Bar {
    /// The height lies between nothing and full height, and the cap not below it.
    pub open spec fn wf(self) -> bool {
        &&& is_share(self.height)
        &&& self.height.at_most(self.cap)
    }

    /// A sound bar whose cap has not passed full height, and does not rise by itself.
    pub open spec fn in_height(self) -> bool {
        &&& self.wf()
        &&& self.cap.at_most(Single::one())
        &&& Single::zero().at_most(self.velocity)
    }

    /// A bar at rest.
    pub open spec fn resting() -> Bar {
        Bar {
            height: Single::zero(),
            cap: Single::zero(),
            velocity: Single::zero(),
            hold: Single::zero(),
        }
    }

    /// The bar lowered by one step.
    pub open spec fn lowered(self) -> Bar {
        Bar { height: self.height.times(Single { bits: RELEASE }), ..self }
    }

    /// The bar drawn to a height: up at once, down by one step.
    pub open spec fn drawn_to(self, target: Single) -> Bar {
        if self.height.at_most(target) {
            Bar { height: target, ..self }
        } else {
            self.lowered()
        }
    }

    /// The bar once its cap has followed it for `dt` seconds: a cap that is reached goes up
    /// with the bar, waits there, and then falls ever faster, down to the bar.
    pub open spec fn capped(self, dt: Single) -> Bar {
        if self.cap.at_most(self.height) {
            Bar {
                cap: self.height,
                velocity: Single::zero(),
                hold: Single { bits: PEAK_HOLD_SECS },
                ..self
            }
        } else if Single::zero().less(self.hold) {
            Bar { hold: self.hold.minus(dt), ..self }
        } else {
            let velocity = self.velocity.plus(Single { bits: CAP_GRAVITY }.times(dt));
            Bar { cap: self.cap.minus(velocity.times(dt)).max(self.height), velocity, ..self }
        }
    }
}

/// The angle of the window's sine at a sample.
pub open spec fn window_angle(i: nat) -> Single {
    (Single { bits: PI }).times(whole(i)).over(whole(FFT_SIZE as nat).minus(Single::one()))
}

/// Bits of pi.
pub const PI: u32 = 0x4049_0fdb;

/// The angles whose sines make the window.
pub fn window_angles() -> (r: Vec<Single>)
    ensures
        r@ == Seq::new(FFT_SIZE as nat, |i: int| window_angle(i as nat)),
{
    let last = Single::of_word(FFT_SIZE as u64).minus(Single::one());
    let mut angles: Vec<Single> = Vec::new();
    let mut i: usize = 0;
    while i < FFT_SIZE
        invariant
            i <= FFT_SIZE,
            i == angles@.len(),
            last == whole(FFT_SIZE as nat).minus(Single::one()),
            forall|j: int| 0 <= j < i ==> angles@[j] == window_angle(j as nat),
        decreases FFT_SIZE - i,
    {
        angles.push(Single::from_bits(PI).times(Single::of_word(i as u64)).over(last));
        i = i + 1;
    }
    assert(angles@ =~= Seq::new(FFT_SIZE as nat, |i: int| window_angle(i as nat)));
    angles
}

/// The window: the square of each sine.
pub fn hann_window(sines: &[Single]) -> (r: Vec<Single>)
    ensures
        r@ == Seq::new(sines@.len(), |i: int| sines@[i].times(sines@[i])),
        forall|i: int|
            0 <= i < sines@.len() && FAINTEST_SHOWN <= sines@[i].bits <= Single::one().bits ==> about(
                (size(#[trigger] r@[i]) * one_in_points(SINGLE)) as int,
                (size(sines@[i]) * size(sines@[i])) as int,
                1,
            ),
{
    let mut window: Vec<Single> = Vec::new();
    let mut i: usize = 0;
    while i < sines.len()
        invariant
            i <= sines@.len(),
            i == window@.len(),
            forall|j: int| 0 <= j < i ==> window@[j] == sines@[j].times(sines@[j]),
        decreases sines@.len() - i,
    {
        window.push(sines[i].times(sines[i]));
        i = i + 1;
    }
    assert(window@ =~= Seq::new(sines@.len(), |i: int| sines@[i].times(sines@[i])));
    proof {
        reveal(Single::spec_abs);
        assert forall|i: int|
            0 <= i < sines@.len() && FAINTEST_SHOWN <= sines@[i].bits <= Single::one().bits implies about(
            (size(#[trigger] window@[i]) * one_in_points(SINGLE)) as int,
            (size(sines@[i]) * size(sines@[i])) as int,
            1,
        ) by {
            lemma_square_about(sines@[i]);
        }
    }
    window
}

/// Bits of 30: the lowest frequency shown, in hertz.
pub const LOWEST_HZ: u32 = 0x41f0_0000;

/// Bits of 60: the highest frequency shown is at least this.
pub const LEAST_TOP_HZ: u32 = 0x4270_0000;

/// Bits of 18000: the highest frequency shown is at most this.
pub const TOP_HZ: u32 = 0x468c_a000;

/// The width of a transform's bin in hertz.
pub open spec fn bin_hz(sample_rate: u32) -> Single {
    whole(safe_rate(sample_rate)).over(whole(FFT_SIZE as nat))
}

/// The ratio of the highest frequency shown to the lowest.
pub open spec fn frequency_ratio(sample_rate: u32) -> Single {
    whole(safe_rate(sample_rate)).times(Single { bits: HALF }).min(Single { bits: TOP_HZ }).max(
        Single { bits: LEAST_TOP_HZ },
    ).over(Single { bits: LOWEST_HZ })
}

/// The power of the ratio at the upper edge of a bar.
pub open spec fn edge_exponent(bar: nat) -> Single {
    whole(bar + 1).over(whole(BAR_COUNT as nat))
}

/// A number held between two bounds.
pub open spec fn held(n: nat, low: nat, high: nat) -> nat {
    if n < low {
        low
    } else if n > high {
        high
    } else {
        n
    }
}

/// The first bin of a bar, given the ratio's powers at the bars' upper edges.
pub open spec fn edge_start(sample_rate: u32, powers: Seq<Single>, bar: nat) -> nat
    decreases bar, 0nat,
{
    if bar == 0 {
        held((Single { bits: LOWEST_HZ }).over(bin_hz(sample_rate)).to_word() as nat, 1, MAX_BIN as nat)
    } else {
        let end = edge_end(sample_rate, powers, (bar - 1) as nat);
        if end < MAX_BIN {
            end
        } else {
            MAX_BIN as nat
        }
    }
}

/// The bin past the last of a bar.
pub open spec fn edge_end(sample_rate: u32, powers: Seq<Single>, bar: nat) -> nat
    decreases bar, 1nat,
{
    let frequency = (Single { bits: LOWEST_HZ }).times(powers[bar as int]);
    held(
        frequency.over(bin_hz(sample_rate)).round_to_word() as nat,
        edge_start(sample_rate, powers, bar) + 1,
        MAX_BIN as nat + 1,
    )
}

/// The bins of a bar.
pub open spec fn edges(sample_rate: u32, powers: Seq<Single>) -> Seq<(usize, usize)> {
    Seq::new(
        BAR_COUNT as nat,
        |bar: int|
            (
                edge_start(sample_rate, powers, bar as nat) as usize,
                edge_end(sample_rate, powers, bar as nat) as usize,
            ),
    )
}

/// Every bar has a bin, none past the last, and begins where the one before it ends or, at the
/// top, on the last bin.
pub proof fn law_every_bar_has_a_bin(sample_rate: u32, powers: Seq<Single>, bar: nat)
    ensures
        1 <= edge_start(sample_rate, powers, bar) < edge_end(sample_rate, powers, bar) <= MAX_BIN
            + 1,
        edge_start(sample_rate, powers, bar) <= MAX_BIN,
        edge_start(sample_rate, powers, bar + 1) == if edge_end(sample_rate, powers, bar)
            < MAX_BIN {
            edge_end(sample_rate, powers, bar)
        } else {
            MAX_BIN as nat
        },
    decreases bar,
{
    if bar > 0 {
        law_every_bar_has_a_bin(sample_rate, powers, (bar - 1) as nat);
    }
}

/// The sample rate of a stream, at least one.
fn rate_of(sample_rate: u32) -> (r: Single)
    ensures
        r == whole(safe_rate(sample_rate)),
{
    let rate: u64 = if sample_rate == 0 {
        1
    } else {
        sample_rate as u64
    };
    Single::of_word(rate)
}

/// The ratio of the highest frequency shown to the lowest: its powers at the
/// [`edge_exponents`] place the bars.
pub fn edge_ratio(sample_rate: u32) -> (r: Single)
    ensures
        r == frequency_ratio(sample_rate),
{
    let half = rate_of(sample_rate).times(Single::from_bits(HALF));
    half.min(Single::from_bits(TOP_HZ)).max(Single::from_bits(LEAST_TOP_HZ)).over(
        Single::from_bits(LOWEST_HZ),
    )
}

/// The powers of the ratio to take, one for the upper edge of each bar.
pub fn edge_exponents() -> (r: Vec<Single>)
    ensures
        r@ == Seq::new(BAR_COUNT as nat, |bar: int| edge_exponent(bar as nat)),
{
    let mut exponents: Vec<Single> = Vec::new();
    let mut bar: usize = 0;
    while bar < BAR_COUNT
        invariant
            bar <= BAR_COUNT,
            bar == exponents@.len(),
            forall|j: int| 0 <= j < bar ==> exponents@[j] == edge_exponent(j as nat),
        decreases BAR_COUNT - bar,
    {
        exponents.push(
            Single::of_word(bar as u64 + 1).over(Single::of_word(BAR_COUNT as u64)),
        );
        bar = bar + 1;
    }
    assert(exponents@ =~= Seq::new(BAR_COUNT as nat, |bar: int| edge_exponent(bar as nat)));
    exponents
}

/// The bins of each bar, from about 30 Hz to about 18 kHz and not past half the sample rate.
///
/// `powers` holds the [`edge_ratio`] to the power of each of the [`edge_exponents`].
pub fn compute_edges(sample_rate: u32, powers: &[Single]) -> (r: Vec<(usize, usize)>)
    requires
        powers@.len() == BAR_COUNT,
    ensures
        r@ == edges(sample_rate, powers@),
        forall|bar: int|
            0 <= bar < BAR_COUNT && is_edge_power(powers@[bar]) ==> ends_nearest(
                (#[trigger] r@[bar]).0 as int,
                r@[bar].1 as int,
                sample_rate,
                powers@[bar],
            ),
        forall|bar: int|
            0 < bar < BAR_COUNT ==> (#[trigger] r@[bar]).0 == if r@[bar - 1].1 < MAX_BIN {
                r@[bar - 1].1
            } else {
                MAX_BIN
            },
{
    let width = rate_of(sample_rate).over(Single::of_word(FFT_SIZE as u64));
    let lowest = Single::from_bits(LOWEST_HZ);
    let first = lowest.over(width).to_word();
    let mut prev: usize = if first < 1 {
        1
    } else if first > MAX_BIN as u64 {
        MAX_BIN
    } else {
        first as usize
    };
    let mut out: Vec<(usize, usize)> = Vec::new();
    let mut bar: usize = 0;
    while bar < BAR_COUNT
        invariant
            bar <= BAR_COUNT == powers@.len(),
            bar == out@.len(),
            prev <= MAX_BIN,
            lowest == (Single { bits: LOWEST_HZ }),
            width == bin_hz(sample_rate),
            prev == edge_start(sample_rate, powers@, bar as nat),
            forall|j: int| 0 <= j < bar ==> out@[j] == edges(sample_rate, powers@)[j],
        decreases BAR_COUNT - bar,
    {
        let wanted = lowest.times(powers[bar]).over(width).round_to_word();
        let end: usize = if wanted < prev as u64 + 1 {
            prev + 1
        } else if wanted > MAX_BIN as u64 + 1 {
            MAX_BIN + 1
        } else {
            wanted as usize
        };
        out.push((prev, end));
        prev = if end < MAX_BIN {
            end
        } else {
            MAX_BIN
        };
        bar = bar + 1;
    }
    assert(out@ =~= edges(sample_rate, powers@));
    proof {
        assert forall|bar: int| 0 <= bar < BAR_COUNT && is_edge_power(powers@[bar]) implies ends_nearest(
            (#[trigger] out@[bar]).0 as int,
            out@[bar].1 as int,
            sample_rate,
            powers@[bar],
        ) by {
            law_every_bar_has_a_bin(sample_rate, powers@, bar as nat);
            law_bars_end_at_their_frequency(sample_rate, powers@, bar as nat);
        }
        assert forall|bar: int| 0 < bar < BAR_COUNT implies (#[trigger] out@[bar]).0 == if out@[bar
            - 1].1 < MAX_BIN {
            out@[bar - 1].1
        } else {
            MAX_BIN
        } by {
            law_every_bar_has_a_bin(sample_rate, powers@, bar as nat);
            law_every_bar_has_a_bin(sample_rate, powers@, (bar - 1) as nat);
        }
    }
    out
}

/// The height that a level stands for: floor to ceiling onto 0 to 1, times the sensitivity.
pub open spec fn target_height(params: SpectrumParams, log: Single) -> Single {
    let db = (Single { bits: TWENTY }).times(log);
    let range = params.db_ceil.minus(params.db_floor).max(Single::one());
    let sensitivity = params.sensitivity.clamp(
        Single { bits: LEAST_SENSITIVITY },
        Single { bits: GREATEST_SENSITIVITY },
    );
    unit(db.minus(params.db_floor).over(range).times(sensitivity))
}

/// The transform's input: the latest samples under the end of the window, silence before them.
pub open spec fn windowed(samples: Seq<Single>, window: Seq<Single>) -> Seq<Single> {
    Seq::new(
        FFT_SIZE as nat,
        |i: int|
            {
                let at = samples.len() - FFT_SIZE + i;
                if at < 0 {
                    Single::zero()
                } else {
                    samples[at].times(window[i])
                }
            },
    )
}

/// The amplitude of a bar: its largest magnitude over that of a full-scale tone, kept off zero.
pub open spec fn bar_amplitude(magnitudes: Seq<Single>, edge: (usize, usize)) -> Single {
    let end = if edge.1 < magnitudes.len() {
        edge.1 as int
    } else {
        magnitudes.len() as int
    };
    let top = if edge.0 < end {
        largest(magnitudes.subrange(edge.0 as int, end))
    } else {
        Single::zero()
    };
    top.over(Single { bits: TONE_MAGNITUDE }).plus(Single { bits: QUIETEST })
}

/// The live spectrum: the window, where each bar reads, and the bars.
#[derive(Debug)]
pub struct SpectrumAnalyzer {
    window: Vec<Single>,
    edges: Vec<(usize, usize)>,
    bars: Vec<Single>,
    peaks: Vec<Single>,
    cap_vel: Vec<Single>,
    cap_hold: Vec<Single>,
}

impl SpectrumAnalyzer {
    /// The bar at an index.
    pub closed spec fn bar(self, i: int) -> Bar {
        Bar {
            height: self.bars@[i],
            cap: self.peaks@[i],
            velocity: self.cap_vel@[i],
            hold: self.cap_hold@[i],
        }
    }

    /// The window.
    pub closed spec fn spec_window(self) -> Seq<Single> {
        self.window@
    }

    /// The bins of each bar.
    pub closed spec fn spec_edges(self) -> Seq<(usize, usize)> {
        self.edges@
    }

    /// Every bar has been drawn to its level, and its cap has followed for `dt` seconds.
    pub open spec fn updated(
        self,
        after: SpectrumAnalyzer,
        params: SpectrumParams,
        logs: Seq<Single>,
        dt: Single,
    ) -> bool {
        forall|i: int|
            0 <= i < BAR_COUNT ==> #[trigger] after.bar(i) == self.bar(i).drawn_to(
                target_height(params, logs[i]),
            ).capped(dt)
    }

    /// Every bar has been lowered by one step, and its cap has followed for `dt` seconds.
    pub open spec fn decayed(self, after: SpectrumAnalyzer, dt: Single) -> bool {
        forall|i: int|
            0 <= i < BAR_COUNT ==> #[trigger] after.bar(i) == self.bar(i).lowered().capped(dt)
    }

    /// Every bar and every cap lies between nothing and full height.
    pub open spec fn in_height(self) -> bool {
        forall|i: int| 0 <= i < BAR_COUNT ==> (#[trigger] self.bar(i)).in_height()
    }

    /// The series have their lengths, and every bar is sound.
    pub closed spec fn wf(self) -> bool {
        &&& self.window@.len() == FFT_SIZE
        &&& self.edges@.len() == BAR_COUNT
        &&& self.bars@.len() == BAR_COUNT
        &&& self.peaks@.len() == BAR_COUNT
        &&& self.cap_vel@.len() == BAR_COUNT
        &&& self.cap_hold@.len() == BAR_COUNT
        &&& forall|i: int| 0 <= i < BAR_COUNT ==> (#[trigger] self.bar(i)).wf()
    }

    /// Heights stay between nothing and full height, and no cap falls below its bar. Nor does a
    /// cap pass full height in an analyzer that has only run forward.
    pub proof fn law_bars_and_caps(self, i: int)
        requires
            self.wf(),
            0 <= i < BAR_COUNT,
        ensures
            is_share(self.bar(i).height),
            self.bar(i).height.at_most(self.bar(i).cap),
            self.in_height() ==> is_share(self.bar(i).cap),
    {
        assert(self.bar(i).wf());
        reveal(Single::spec_at_most);
    }

    /// An analyzer of a stream, its bars at rest. The sines are those of the [`window_angles`],
    /// and the powers those that [`compute_edges`] takes.
    pub fn new(sample_rate: u32, sines: &[Single], powers: &[Single]) -> (r: SpectrumAnalyzer)
        requires
            sines@.len() == FFT_SIZE,
            powers@.len() == BAR_COUNT,
        ensures
            r.wf(),
            r.spec_window() == Seq::new(FFT_SIZE as nat, |i: int| sines@[i].times(sines@[i])),
            r.spec_edges() == edges(sample_rate, powers@),
            forall|i: int| 0 <= i < BAR_COUNT ==> #[trigger] r.bar(i) == Bar::resting(),
            r.in_height(),
    {
        let r = SpectrumAnalyzer {
            window: hann_window(sines),
            edges: compute_edges(sample_rate, powers),
            bars: silence(BAR_COUNT),
            peaks: silence(BAR_COUNT),
            cap_vel: silence(BAR_COUNT),
            cap_hold: silence(BAR_COUNT),
        };
        proof {
            lemma_level_order(Single::zero(), Single::zero());
            lemma_level_order(Single::zero(), Single::one());
            assert forall|i: int| 0 <= i < BAR_COUNT implies #[trigger] r.bar(i)
                == Bar::resting() by {}
            assert(Bar::resting().in_height());
        }
        r
    }

    /// The heights of the bars.
    pub fn bars(&self) -> (r: &[Single])
        requires
            self.wf(),
        ensures
            r@.len() == BAR_COUNT,
            forall|i: int| 0 <= i < BAR_COUNT ==> #[trigger] r@[i] == self.bar(i).height,
    {
        self.bars.as_slice()
    }

    /// The heights of the caps.
    pub fn peaks(&self) -> (r: &[Single])
        requires
            self.wf(),
        ensures
            r@.len() == BAR_COUNT,
            forall|i: int| 0 <= i < BAR_COUNT ==> #[trigger] r@[i] == self.bar(i).cap,
    {
        self.peaks.as_slice()
    }

    /// The transform's input: the latest samples, the oldest first, under the window.
    pub fn transform_input(&self, samples: &[Single]) -> (r: Vec<Single>)
        requires
            self.wf(),
        ensures
            r@ == windowed(samples@, self.spec_window()),
    {
        let total = samples.len();
        let take = if total < FFT_SIZE {
            total
        } else {
            FFT_SIZE
        };
        let pad = FFT_SIZE - take;
        let mut input: Vec<Single> = Vec::new();
        let mut i: usize = 0;
        while i < FFT_SIZE
            invariant
                i <= FFT_SIZE,
                i == input@.len(),
                self.wf(),
                total == samples@.len(),
                take == if total < FFT_SIZE { total } else { FFT_SIZE },
                pad == FFT_SIZE - take,
                forall|j: int|
                    0 <= j < i ==> input@[j] == windowed(samples@, self.spec_window())[j],
            decreases FFT_SIZE - i,
        {
            if i < pad {
                input.push(Single::zero());
            } else {
                input.push(samples[total - take + (i - pad)].times(self.window[i]));
            }
            i = i + 1;
        }
        assert(input@ =~= windowed(samples@, self.spec_window()));
        input
    }

    /// The amplitude of each bar, given the magnitudes of the transform's bins.
    pub fn amplitudes(&self, magnitudes: &[Single]) -> (r: Vec<Single>)
        requires
            self.wf(),
        ensures
            r@ == Seq::new(
                BAR_COUNT as nat,
                |i: int| bar_amplitude(magnitudes@, self.spec_edges()[i]),
            ),
    {
        let mut out: Vec<Single> = Vec::new();
        let mut i: usize = 0;
        while i < BAR_COUNT
            invariant
                i <= BAR_COUNT,
                i == out@.len(),
                self.wf(),
                forall|j: int|
                    0 <= j < i ==> out@[j] == bar_amplitude(magnitudes@, self.spec_edges()[j]),
            decreases BAR_COUNT - i,
        {
            let (start, wanted) = self.edges[i];
            let end = if wanted < magnitudes.len() {
                wanted
            } else {
                magnitudes.len()
            };
            let top = if start < end {
                largest_range(magnitudes, start, end)
            } else {
                Single::zero()
            };
            out.push(
                top.over(Single::from_bits(TONE_MAGNITUDE)).plus(Single::from_bits(QUIETEST)),
            );
            i = i + 1;
        }
        assert(out@ =~= Seq::new(
            BAR_COUNT as nat,
            |i: int| bar_amplitude(magnitudes@, self.spec_edges()[i]),
        ));
        out
    }

    /// Draws the bars to new levels, and lets the caps follow for `dt` seconds. `logs` holds
    /// the decimal logarithm of each of the [`SpectrumAnalyzer::amplitudes`].
    pub fn update(&mut self, logs: &[Single], params: &SpectrumParams, dt: Single)
        requires
            old(self).wf(),
            logs@.len() == BAR_COUNT,
        ensures
            final(self).wf(),
            final(self).spec_window() == old(self).spec_window(),
            final(self).spec_edges() == old(self).spec_edges(),
            old(self).updated(*final(self), *params, logs@, dt),
            old(self).in_height() && Single::zero().at_most(dt) ==> final(self).in_height(),
    {
        let mut i: usize = 0;
        while i < BAR_COUNT
            invariant
                i <= BAR_COUNT == logs@.len(),
                old(self).wf(),
                self.wf(),
                self.spec_window() == old(self).spec_window(),
                self.spec_edges() == old(self).spec_edges(),
                forall|j: int|
                    0 <= j < i ==> #[trigger] self.bar(j) == old(self).bar(j).drawn_to(
                        target_height(*params, logs@[j]),
                    ).capped(dt),
                forall|j: int|
                    i <= j < BAR_COUNT ==> #[trigger] self.bar(j) == old(self).bar(j),
            decreases BAR_COUNT - i,
        {
            let target = height_of(params, logs[i]);
            let bar = Bar {
                height: self.bars[i],
                cap: self.peaks[i],
                velocity: self.cap_vel[i],
                hold: self.cap_hold[i],
            };
            proof {
                assert(bar == self.bar(i as int));
                assert(self.bar(i as int).wf());
                assert(!bar.cap.is_nan()) by {
                    reveal(Single::spec_at_most);
                }
                lemma_drawn_height(bar, target_height(*params, logs@[i as int]));
            }
            let height = if bar.height.at_most(target) {
                target
            } else {
                bar.height.times(Single::from_bits(RELEASE))
            };
            self.set_bar(i, update_cap(Bar { height, ..bar }, dt));
            i = i + 1;
        }
        proof {
            if old(self).in_height() && Single::zero().at_most(dt) {
                assert(old(self).updated(*self, *params, logs@, dt));
                lemma_step_forward(*old(self), *self);
            }
        }
    }

    /// Lets everything sink for `dt` seconds, while nothing plays.
    pub fn decay(&mut self, dt: Single)
        requires
            old(self).wf(),
        ensures
            final(self).wf(),
            final(self).spec_window() == old(self).spec_window(),
            final(self).spec_edges() == old(self).spec_edges(),
            old(self).decayed(*final(self), dt),
            old(self).in_height() && Single::zero().at_most(dt) ==> final(self).in_height(),
    {
        let mut i: usize = 0;
        while i < BAR_COUNT
            invariant
                i <= BAR_COUNT,
                old(self).wf(),
                self.wf(),
                self.spec_window() == old(self).spec_window(),
                self.spec_edges() == old(self).spec_edges(),
                forall|j: int|
                    0 <= j < i ==> #[trigger] self.bar(j) == old(self).bar(j).lowered().capped(dt),
                forall|j: int|
                    i <= j < BAR_COUNT ==> #[trigger] self.bar(j) == old(self).bar(j),
            decreases BAR_COUNT - i,
        {
            let bar = Bar {
                height: self.bars[i],
                cap: self.peaks[i],
                velocity: self.cap_vel[i],
                hold: self.cap_hold[i],
            };
            proof {
                assert(bar == self.bar(i as int));
                assert(self.bar(i as int).wf());
                assert(!bar.cap.is_nan()) by {
                    reveal(Single::spec_at_most);
                }
                lemma_times_share(bar.height, Single { bits: RELEASE });
            }
            let height = bar.height.times(Single::from_bits(RELEASE));
            self.set_bar(i, update_cap(Bar { height, ..bar }, dt));
            i = i + 1;
        }
        proof {
            if old(self).in_height() && Single::zero().at_most(dt) {
                assert(old(self).decayed(*self, dt));
                lemma_step_forward(*old(self), *self);
            }
        }
    }

    /// Puts a bar in its place.
    fn set_bar(&mut self, index: usize, bar: Bar)
        requires
            old(self).wf(),
            index < BAR_COUNT,
            bar.wf(),
        ensures
            final(self).wf(),
            final(self).spec_window() == old(self).spec_window(),
            final(self).spec_edges() == old(self).spec_edges(),
            final(self).bar(index as int) == bar,
            forall|j: int|
                0 <= j < BAR_COUNT && j != index ==> #[trigger] final(self).bar(j) == old(
                    self,
                ).bar(j),
    {
        self.bars.set(index, bar.height);
        self.peaks.set(index, bar.cap);
        self.cap_vel.set(index, bar.velocity);
        self.cap_hold.set(index, bar.hold);
        proof {
            assert forall|j: int| 0 <= j < BAR_COUNT implies (#[trigger] self.bar(j)).wf() by {
                assert(old(self).bar(j).wf());
            }
        }
    }
}

/// A bar that is drawn to a height stays between nothing and full height.
proof fn lemma_drawn_height(bar: Bar, target: Single)
    requires
        is_share(bar.height),
        !target.is_nan() ==> is_share(target),
    ensures
        is_share(bar.drawn_to(target).height),
        is_share(bar.lowered().height),
{
    lemma_times_share(bar.height, Single { bits: RELEASE });
    if bar.height.at_most(target) {
        reveal(Single::spec_at_most);
    }
}

/// A cap that follows its bar stays at or above it.
proof fn lemma_capped(bar: Bar, dt: Single)
    requires
        is_share(bar.height),
        !bar.cap.is_nan(),
    ensures
        bar.capped(dt).wf(),
{
    reveal(Single::spec_at_most);
    reveal(Single::spec_less);
}

/// While time does not run back, a bar and its cap that are in height stay there.
pub proof fn law_cap_stays_in_height(bar: Bar, dt: Single)
    requires
        bar.in_height(),
        Single::zero().at_most(dt),
    ensures
        bar.capped(dt).in_height(),
{
    reveal(Single::spec_at_most);
    lemma_moved_cap(bar, dt);
}

/// A cap that follows its bar, wherever that has gone, stays in height.
proof fn lemma_moved_cap(bar: Bar, dt: Single)
    requires
        is_share(bar.height),
        is_share(bar.cap),
        Single::zero().at_most(bar.velocity),
        Single::zero().at_most(dt),
    ensures
        bar.capped(dt).in_height(),
{
    reveal(Single::spec_at_most);
    reveal(Single::spec_less);
    lemma_capped(bar, dt);
    let gravity = Single { bits: CAP_GRAVITY };
    lemma_level_order(Single::zero(), gravity);
    lemma_level_order(Single::zero(), Single::zero());
    lemma_times_not_below(gravity, dt);
    let velocity = bar.velocity.plus(gravity.times(dt));
    lemma_plus_not_below(bar.velocity, gravity.times(dt));
    let drop = velocity.times(dt);
    lemma_times_not_below(velocity, dt);
    if drop.is_nan() {
        lemma_minus_nan(bar.cap, drop);
    } else {
        lemma_minus_not_above(bar.cap, drop);
    }
}

/// A bar that is in height is still there when it has been drawn to a level and its cap has
/// followed, or when it has been lowered.
proof fn lemma_step_in_height(bar: Bar, params: SpectrumParams, log: Single, dt: Single)
    requires
        bar.in_height(),
        Single::zero().at_most(dt),
    ensures
        bar.drawn_to(target_height(params, log)).capped(dt).in_height(),
        bar.lowered().capped(dt).in_height(),
{
    let db = (Single { bits: TWENTY }).times(log);
    let range = params.db_ceil.minus(params.db_floor).max(Single::one());
    let sensitivity = params.sensitivity.clamp(
        Single { bits: LEAST_SENSITIVITY },
        Single { bits: GREATEST_SENSITIVITY },
    );
    lemma_clamp_share(db.minus(params.db_floor).over(range).times(sensitivity));
    let target = target_height(params, log);
    lemma_drawn_height(bar, target);
    assert(is_share(bar.cap)) by {
        reveal(Single::spec_at_most);
    }
    lemma_moved_cap(bar.drawn_to(target), dt);
    lemma_moved_cap(bar.lowered(), dt);
}

/// A step of an analyzer while time does not run back: new levels, or none.
pub open spec fn steps_forward(before: SpectrumAnalyzer, after: SpectrumAnalyzer) -> bool {
    ||| exists|params: SpectrumParams, logs: Seq<Single>, dt: Single|
        Single::zero().at_most(dt) && #[trigger] before.updated(after, params, logs, dt)
    ||| exists|dt: Single| Single::zero().at_most(dt) && #[trigger] before.decayed(after, dt)
}

/// One step forward keeps bars and caps in height.
proof fn lemma_step_forward(before: SpectrumAnalyzer, after: SpectrumAnalyzer)
    requires
        before.in_height(),
        steps_forward(before, after),
    ensures
        after.in_height(),
{
    if exists|params: SpectrumParams, logs: Seq<Single>, dt: Single|
        Single::zero().at_most(dt) && #[trigger] before.updated(after, params, logs, dt) {
        let (params, logs, dt) = choose|params: SpectrumParams, logs: Seq<Single>, dt: Single|
            Single::zero().at_most(dt) && #[trigger] before.updated(after, params, logs, dt);
        assert forall|i: int| 0 <= i < BAR_COUNT implies (#[trigger] after.bar(i)).in_height() by {
            assert(before.bar(i).in_height());
            lemma_step_in_height(before.bar(i), params, logs[i], dt);
        }
    } else {
        let dt = choose|dt: Single|
            Single::zero().at_most(dt) && #[trigger] before.decayed(after, dt);
        assert forall|i: int| 0 <= i < BAR_COUNT implies (#[trigger] after.bar(i)).in_height() by {
            assert(before.bar(i).in_height());
            lemma_step_in_height(before.bar(i), arbitrary(), arbitrary(), dt);
        }
    }
}

/// However long an analyzer runs forward from rest, every bar and every cap lies between nothing
/// and full height, and no cap below its bar.
pub proof fn law_every_state_is_in_height(states: Seq<SpectrumAnalyzer>, at: int, i: int)
    requires
        states.len() > 0,
        forall|j: int| 0 <= j < BAR_COUNT ==> #[trigger] states[0].bar(j) == Bar::resting(),
        forall|k: int|
            0 < k < states.len() ==> steps_forward(states[k - 1], #[trigger] states[k]),
        0 <= at < states.len(),
        0 <= i < BAR_COUNT,
    ensures
        states[at].in_height(),
        is_share(states[at].bar(i).height),
        is_share(states[at].bar(i).cap),
        states[at].bar(i).height.at_most(states[at].bar(i).cap),
    decreases at,
{
    if at == 0 {
        lemma_level_order(Single::zero(), Single::zero());
        lemma_level_order(Single::zero(), Single::one());
        assert forall|j: int| 0 <= j < BAR_COUNT implies (#[trigger] states[0].bar(j)).in_height()
            by {
            assert(states[0].bar(j) == Bar::resting());
        }
    } else {
        law_every_state_is_in_height(states, at - 1, i);
        assert(steps_forward(states[at - 1], states[at]));
        lemma_step_forward(states[at - 1], states[at]);
    }
    assert(states[at].bar(i).in_height());
    reveal(Single::spec_at_most);
}

/// Lets a cap follow its bar for `dt` seconds.
fn update_cap(bar: Bar, dt: Single) -> (r: Bar)
    requires
        is_share(bar.height),
        !bar.cap.is_nan(),
    ensures
        r == bar.capped(dt),
        r.wf(),
{
    proof {
        lemma_capped(bar, dt);
    }
    if bar.cap.at_most(bar.height) {
        Bar {
            cap: bar.height,
            velocity: Single::zero(),
            hold: Single::from_bits(PEAK_HOLD_SECS),
            ..bar
        }
    } else if Single::zero().less(bar.hold) {
        Bar { hold: bar.hold.minus(dt), ..bar }
    } else {
        let velocity = bar.velocity.plus(Single::from_bits(CAP_GRAVITY).times(dt));
        Bar { cap: bar.cap.minus(velocity.times(dt)).max(bar.height), velocity, ..bar }
    }
}

/// The height that a level stands for.
fn height_of(params: &SpectrumParams, log: Single) -> (r: Single)
    ensures
        r == target_height(*params, log),
        !r.is_nan() ==> is_share(r),
{
    let least = Single::from_bits(LEAST_SENSITIVITY);
    let greatest = Single::from_bits(GREATEST_SENSITIVITY);
    proof {
        lemma_level_order(least, greatest);
    }
    let db = Single::from_bits(TWENTY).times(log);
    let range = params.db_ceil.minus(params.db_floor).max(Single::one());
    let sensitivity = params.sensitivity.clamp(least, greatest);
    let height = db.minus(params.db_floor).over(range).times(sensitivity);
    proof {
        lemma_clamp_share(height);
    }
    to_unit(height)
}

/// The latest samples, with silence before them where there are too few.
pub open spec fn recent(samples: Seq<Single>) -> Seq<Single> {
    Seq::new(
        FFT_SIZE as nat,
        |i: int|
            {
                let at = samples.len() - FFT_SIZE + i;
                if at < 0 {
                    Single::zero()
                } else {
                    samples[at]
                }
            },
    )
}

/// Only the latest samples count, padded with silence in front: whatever came before them, what
/// is transformed is the same. The window is that of an analyzer made from sines.
pub proof fn law_only_recent_samples_count(samples: Seq<Single>, sines: Seq<Single>)
    requires
        sines.len() == FFT_SIZE,
        run_within(sines, Single::one()),
    ensures
        ({
            let window = Seq::new(FFT_SIZE as nat, |i: int| sines[i].times(sines[i]));
            windowed(samples, window) == windowed(recent(samples), window)
        }),
{
    let window = Seq::new(FFT_SIZE as nat, |i: int| sines[i].times(sines[i]));
    let one = windowed(samples, window);
    let other = windowed(recent(samples), window);
    assert forall|i: int| 0 <= i < FFT_SIZE implies one[i] == other[i] by {
        lemma_square(sines[i], Single::one());
        lemma_zero_times(window[i]);
    }
    assert(one =~= other);
}

/// How the spectrum is drawn does not reach the bars: a line or bars, mirrored or not, with caps
/// or without, two analyzers whose bars are alike move them and their caps alike.
pub proof fn law_style_does_not_move_bars(
    one: SpectrumAnalyzer,
    one_after: SpectrumAnalyzer,
    one_params: SpectrumParams,
    other: SpectrumAnalyzer,
    other_after: SpectrumAnalyzer,
    other_params: SpectrumParams,
    logs: Seq<Single>,
    dt: Single,
)
    requires
        one_params.db_floor == other_params.db_floor,
        one_params.db_ceil == other_params.db_ceil,
        one_params.sensitivity == other_params.sensitivity,
        forall|i: int| 0 <= i < BAR_COUNT ==> #[trigger] one.bar(i) == other.bar(i),
        one.updated(one_after, one_params, logs, dt),
        other.updated(other_after, other_params, logs, dt),
    ensures
        forall|i: int| 0 <= i < BAR_COUNT ==> #[trigger] one_after.bar(i) == other_after.bar(i),
{
    assert forall|i: int| 0 <= i < BAR_COUNT implies #[trigger] one_after.bar(i)
        == other_after.bar(i) by {
        assert(one.bar(i) == other.bar(i));
    }
}

/// A bar has no height at the floor, and full height at the ceiling unless it is made less
/// sensitive.
pub proof fn law_floor_and_ceiling(params: SpectrumParams, log: Single)
    requires
        is_finite(params.db_floor),
        is_finite(params.db_ceil),
        is_finite(params.db_ceil.minus(params.db_floor)),
        !params.sensitivity.is_nan(),
    ensures
        (Single { bits: TWENTY }).times(log) == params.db_floor ==> target_height(params, log)
            == Single::zero(),
        (Single { bits: TWENTY }).times(log) == params.db_ceil && Single::one().at_most(
            params.db_ceil.minus(params.db_floor),
        ) && Single::one().at_most(params.sensitivity) ==> target_height(params, log)
            == Single::one(),
{
    let db = (Single { bits: TWENTY }).times(log);
    let gap = params.db_ceil.minus(params.db_floor);
    let range = gap.max(Single::one());
    let low = Single { bits: LEAST_SENSITIVITY };
    let high = Single { bits: GREATEST_SENSITIVITY };
    let sensitivity = params.sensitivity.clamp(low, high);
    lemma_level_order(low, high);
    lemma_clamp_range(params.sensitivity, low, high);
    lemma_at_least_level(sensitivity, low);
    lemma_level_order(sensitivity, high);
    assert(Single::one().at_most(range)) by {
        lemma_level_order(Single::one(), Single::one());
        reveal(Single::spec_less);
        reveal(Single::spec_at_most);
    }
    lemma_at_least_level(range, Single::one());
    if db == params.db_floor {
        lemma_minus_itself(db);
        lemma_zero_over(range);
        lemma_zero_times(sensitivity);
        lemma_level_order(Single::zero(), Single::zero());
        lemma_level_order(Single::one(), Single::zero());
    }
    if db == params.db_ceil && Single::one().at_most(gap) && Single::one().at_most(
        params.sensitivity,
    ) {
        lemma_at_least_level(gap, Single::one());
        lemma_at_least_level(params.sensitivity, Single::one());
        lemma_level_order(gap, Single::one());
        lemma_level_order(params.sensitivity, low);
        lemma_level_order(Single::one(), sensitivity);
        lemma_level_order(sensitivity, Single::zero());
        lemma_over_itself(range);
        lemma_one_times(sensitivity);
    }
}

} // verus!
