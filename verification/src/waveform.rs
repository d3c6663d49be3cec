//! The waveform: what is kept of a track to draw it.
use crate::audio::{
    frames_in, highest_band, law_least_split_rate, lemma_frame_in, safe_rate, silence,
    top_frequency,
};
use crate::double::{self, widened, Double};
use crate::reduction::{law_levels_show_their_signal, shows_root_mean_squares};
use crate::signal::{add_range, added, lemma_loudest, loudest, loudest_range};
use crate::single::{lemma_clamp_level, lemma_level_order, whole, Single, TWENTY};
use vstd::prelude::*;

verus! {

/// The first frame that a bin takes.
pub open spec fn bin_start(bin: nat, frames: nat, bins: nat) -> nat {
    bin * frames / bins
}

/// The frame past the last that a bin takes: there is always one to take.
pub open spec fn bin_end(bin: nat, frames: nat, bins: nat) -> nat {
    let next = bin_start(bin + 1, frames, bins);
    if next > bin_start(bin, frames, bins) {
        next
    } else {
        bin_start(bin, frames, bins) + 1
    }
}

/// The samples of the frames that a bin takes.
pub open spec fn bin_samples(
    samples: Seq<Single>,
    channels: usize,
    bin: nat,
    bins: nat,
) -> Seq<Single> {
    let frames = frames_in(samples.len(), channels);
    samples.subrange(
        bin_start(bin, frames, bins) * channels,
        bin_end(bin, frames, bins) * channels,
    )
}

/// A value held between nothing and full height.
pub open spec fn unit(value: Single) -> Single {
    value.clamp(Single::zero(), Single::one())
}

/// The peak of each bin, held to full scale.
pub open spec fn bin_peaks(samples: Seq<Single>, channels: usize, bins: nat) -> Seq<Single> {
    if samples.len() == 0 || channels == 0 {
        Seq::empty()
    } else if frames_in(samples.len(), channels) == 0 {
        Seq::new(bins, |bin: int| Single::zero())
    } else {
        Seq::new(bins, |bin: int| unit(loudest(bin_samples(samples, channels, bin as nat, bins))))
    }
}

/// A bin takes at least one frame, and none past the last.
pub proof fn lemma_bin_range(bin: nat, frames: nat, bins: nat)
    requires
        bin < bins,
        frames > 0,
    ensures
        bin_start(bin, frames, bins) < bin_end(bin, frames, bins) <= frames,
        bin_start(0, frames, bins) == 0,
        bin_start(bins, frames, bins) == frames,
{
    assert(bin * frames / bins < frames) by (nonlinear_arith)
        requires
            bin < bins,
            frames > 0,
    ;
    assert((bin + 1) * frames / bins <= frames) by (nonlinear_arith)
        requires
            bin + 1 <= bins,
            frames > 0,
    ;
    assert(0 * frames == 0);
    assert(0nat / bins == 0) by (nonlinear_arith)
        requires
            bins > 0,
    ;
    assert(bins * frames / bins == frames) by (nonlinear_arith)
        requires
            bins > 0,
    ;
}

/// Holds a value between nothing and full height.
pub fn to_unit(value: Single) -> (r: Single)
    ensures
        r == unit(value),
{
    proof {
        lemma_level_order(Single::zero(), Single::one());
    }
    value.clamp(Single::zero(), Single::one())
}

/// The peak of each bin of a track: the largest absolute sample, held to full scale.
///
/// It follows the true peaks, so a loud track fills most of the height.
pub fn build_waveform(samples: &[Single], channels: usize, bin_count: usize) -> (r: Vec<Single>)
    requires
        frames_in(samples@.len(), channels) * bin_count <= usize::MAX,
    ensures
        r@ == bin_peaks(samples@, channels, bin_count as nat),
{
    let mut peaks: Vec<Single> = Vec::new();
    let total = samples.len();
    if total == 0 || channels == 0 || bin_count == 0 {
        assert(peaks@ =~= bin_peaks(samples@, channels, bin_count as nat));
        return peaks;
    }
    let frame_count = total / channels;
    if frame_count == 0 {
        return silence(bin_count);
    }
    let ghost bins = bin_count as nat;
    let ghost frames = frame_count as nat;
    let mut bin: usize = 0;
    while bin < bin_count
        invariant
            bin <= bin_count,
            bin == peaks@.len(),
            bins == bin_count,
            frames == frame_count,
            channels > 0,
            0 < frame_count,
            total == samples@.len(),
            frame_count == frames_in(samples@.len(), channels),
            frame_count * bin_count <= usize::MAX,
            forall|j: int|
                0 <= j < bin ==> peaks@[j] == unit(
                    loudest(bin_samples(samples@, channels, j as nat, bins)),
                ),
        decreases bin_count - bin,
    {
        proof {
            lemma_bin_products(bin as nat, frames, bins);
            lemma_bin_range(bin as nat, frames, bins);
        }
        let start = bin * frame_count / bin_count;
        let next = (bin + 1) * frame_count / bin_count;
        let end = if next > start {
            next
        } else {
            start + 1
        };
        proof {
            lemma_frame_in(end - 1, total as int, channels as int);
            assert(start * channels <= end * channels) by (nonlinear_arith)
                requires
                    start <= end,
            ;
            assert(start * channels >= 0) by (nonlinear_arith);
        }
        let peak = loudest_range(samples, start * channels, end * channels);
        peaks.push(to_unit(peak));
        bin = bin + 1;
    }
    assert(peaks@ =~= bin_peaks(samples@, channels, bins));
    peaks
}

/// The products that place a bin fit where the last one does.
proof fn lemma_bin_products(bin: nat, frames: nat, bins: nat)
    requires
        bin < bins,
    ensures
        bin * frames <= (bin + 1) * frames <= frames * bins,
{
    assert(bin * frames <= (bin + 1) * frames) by (nonlinear_arith);
    assert((bin + 1) * frames <= frames * bins) by (nonlinear_arith)
        requires
            bin + 1 <= bins,
    ;
}

/// How a column of samples becomes one drawn value.
#[derive(Clone, Copy, Debug, PartialEq, Eq, Structural)]
pub enum ReductionMode {
    /// The loudest sample: accurate, but loud music fills the height.
    Peak,
    /// The average energy: lower, and it shows the track's dynamics.
    Rms,
}

/// How the columns are colored.
#[derive(Clone, Copy, Debug, PartialEq, Eq, Structural)]
pub enum ColorMode {
    /// One color for what has played and one for what has not.
    Solid,
    /// Red, green and blue from the low, middle and high bands.
    Spectral,
}

/// Bits of 0.65: the curve that bars are drawn with at first.
pub const DEFAULT_GAMMA: u32 = 0x3f26_6666;

/// Bits of 1.4: the height that bars are drawn with at first.
pub const DEFAULT_HEIGHT: u32 = 0x3fb3_3333;

/// How the waveform is drawn. None of it touches the analysis.
#[derive(Clone, Copy, Debug, PartialEq)]
pub struct WaveformParams {
    /// Bars across the width.
    pub bins: usize,
    /// How the samples of a bar become one value.
    pub mode: ReductionMode,
    /// The curve of a bar's height: below one it lifts quiet parts.
    pub gamma: Single,
    /// What heights are multiplied by.
    pub height_scale: Single,
    /// How many columns to each side a column is averaged with.
    pub smoothing: usize,
    /// Whether bars grow both ways from the middle.
    pub mirror: bool,
    /// How bars are colored.
    pub color_mode: ColorMode,
}

impl Default for WaveformParams {
    fn default() -> (r: WaveformParams)
        ensures
            r == (WaveformParams {
                bins: 1100,
                mode: ReductionMode::Rms,
                gamma: Single { bits: DEFAULT_GAMMA },
                height_scale: Single { bits: DEFAULT_HEIGHT },
                smoothing: 1,
                mirror: true,
                color_mode: ColorMode::Spectral,
            }),
    {
        WaveformParams {
            bins: 1100,
            mode: ReductionMode::Rms,
            gamma: Single::from_bits(DEFAULT_GAMMA),
            height_scale: Single::from_bits(DEFAULT_HEIGHT),
            smoothing: 1,
            mirror: true,
            color_mode: ColorMode::Spectral,
        }
    }
}

/// What is kept of a track, bin by bin: made once, when the track is decoded.
#[derive(Clone, Debug)]
pub struct WaveformAnalysis {
    /// The peak of each bin.
    pub peak: Vec<Single>,
    /// The average level of each bin.
    pub rms: Vec<Single>,
    /// The level of each bin's low band.
    pub low: Vec<Single>,
    /// The level of each bin's middle band.
    pub mid: Vec<Single>,
    /// The level of each bin's high band.
    pub high: Vec<Single>,
}

impl Default for WaveformAnalysis {
    /// An analysis of nothing.
    fn default() -> (r: WaveformAnalysis)
        ensures
            r.wf(),
            r.peak@.len() == 0,
    {
        WaveformAnalysis {
            peak: Vec::new(),
            rms: Vec::new(),
            low: Vec::new(),
            mid: Vec::new(),
            high: Vec::new(),
        }
    }
}

impl WaveformAnalysis {
    /// The five series have one length.
    pub open spec fn wf(self) -> bool {
        &&& self.rms@.len() == self.peak@.len()
        &&& self.low@.len() == self.peak@.len()
        &&& self.mid@.len() == self.peak@.len()
        &&& self.high@.len() == self.peak@.len()
    }

    /// The series of a reduction.
    pub open spec fn series(self, mode: ReductionMode) -> Seq<Single> {
        match mode {
            ReductionMode::Peak => self.peak@,
            ReductionMode::Rms => self.rms@,
        }
    }

    /// The number of bins.
    pub fn len(&self) -> (r: usize)
        ensures
            r == self.peak@.len(),
    {
        self.peak.len()
    }

    /// Whether there are no bins.
    pub fn is_empty(&self) -> (r: bool)
        ensures
            r <==> self.peak@.len() == 0,
    {
        self.peak.len() == 0
    }

    /// The series of a reduction.
    pub fn amplitude(&self, mode: ReductionMode) -> (r: &[Single])
        ensures
            r@ == self.series(mode),
    {
        match mode {
            ReductionMode::Peak => self.peak.as_slice(),
            ReductionMode::Rms => self.rms.as_slice(),
        }
    }
}

/// The mono mix of each frame.
pub open spec fn mono_frames(samples: Seq<Single>, channels: usize) -> Seq<Single> {
    Seq::new(
        frames_in(samples.len(), channels),
        |frame: int|
            added(
                Single::zero(),
                samples.subrange(frame * channels, frame * channels + channels),
            ).over(whole(channels as nat)),
    )
}

/// The mono mix of each frame: the average of its channels.
pub fn mono_mix(samples: &[Single], channels: usize) -> (r: Vec<Single>)
    ensures
        r@ == mono_frames(samples@, channels),
{
    let mut mono: Vec<Single> = Vec::new();
    if channels == 0 {
        assert(mono@ =~= mono_frames(samples@, channels));
        return mono;
    }
    let total = samples.len();
    let frame_count = total / channels;
    let mut frame: usize = 0;
    while frame < frame_count
        invariant
            frame <= frame_count,
            frame == mono@.len(),
            channels > 0,
            total == samples@.len(),
            frame_count == frames_in(samples@.len(), channels),
            forall|j: int| 0 <= j < frame ==> mono@[j] == mono_frames(samples@, channels)[j],
        decreases frame_count - frame,
    {
        proof {
            lemma_frame_in(frame as int, total as int, channels as int);
        }
        let from = frame * channels;
        let sum = add_range(Single::zero(), samples, from, from + channels);
        mono.push(sum.over(Single::of_word(channels as u64)));
        frame = frame + 1;
    }
    assert(mono@ =~= mono_frames(samples@, channels));
    mono
}

/// Bits of 250: the corner of the low band in hertz.
pub const LOW_CORNER: u32 = 0x437a_0000;

/// Bits of 900: the center of the middle band in hertz.
pub const MID_CENTER: u32 = 0x4461_0000;

/// Bits of 4000: the corner of the high band in hertz.
pub const HIGH_CORNER: u32 = 0x457a_0000;

/// The lowest sample rate that leaves room for a band filter.
pub const LEAST_SPLIT_RATE: u32 = 45;

/// A filter frequency that a sample rate allows.
pub open spec fn corner_at(frequency: Single, sample_rate: u32) -> Single {
    frequency.clamp(Single { bits: TWENTY }, top_frequency(sample_rate))
}

/// The frequencies of the three band filters.
#[derive(Clone, Copy, Debug)]
pub struct BandFilters {
    /// The sample rate to make them for.
    pub sample_rate: Single,
    /// The corner of the low-pass filter.
    pub low: Single,
    /// The center of the band-pass filter.
    pub mid: Single,
    /// The corner of the high-pass filter.
    pub high: Single,
}

/// The three band filters of a sample rate; none where it leaves no room for them.
pub fn band_filters(sample_rate: u32) -> (r: Option<BandFilters>)
    ensures
        r == if sample_rate < LEAST_SPLIT_RATE {
            None
        } else {
            Some(
                BandFilters {
                    sample_rate: whole(safe_rate(sample_rate)),
                    low: corner_at(Single { bits: LOW_CORNER }, sample_rate),
                    mid: corner_at(Single { bits: MID_CENTER }, sample_rate),
                    high: corner_at(Single { bits: HIGH_CORNER }, sample_rate),
                },
            )
        },
{
    if sample_rate < LEAST_SPLIT_RATE {
        return None;
    }
    proof {
        law_least_split_rate(sample_rate);
    }
    let lowest = Single::from_bits(TWENTY);
    let top = highest_band(sample_rate);
    Some(
        BandFilters {
            sample_rate: Single::of_word(sample_rate as u64),
            low: Single::from_bits(LOW_CORNER).clamp(lowest, top),
            mid: Single::from_bits(MID_CENTER).clamp(lowest, top),
            high: Single::from_bits(HIGH_CORNER).clamp(lowest, top),
        },
    )
}

/// The squares of values, added up in order.
pub open spec fn squares(values: Seq<Single>) -> Double
    decreases values.len(),
{
    if values.len() == 0 {
        double::whole(0)
    } else {
        squares(values.drop_last()).plus(widened(values.last().times(values.last())))
    }
}

/// The level of a run of values: the root of their mean square, held to full height.
pub open spec fn level(values: Seq<Single>) -> Single {
    unit(squares(values).over(double::whole(values.len())).sqrt().to_single())
}

/// The values of the frames that a bin takes.
pub open spec fn bin_values(values: Seq<Single>, bin: nat, bins: nat) -> Seq<Single> {
    values.subrange(
        bin_start(bin, values.len(), bins) as int,
        bin_end(bin, values.len(), bins) as int,
    )
}

/// The level of each bin of a signal: over the frames that the bin's peak is taken of.
pub open spec fn bin_levels(values: Seq<Single>, bins: nat) -> Seq<Single> {
    Seq::new(
        bins,
        |bin: int|
            if values.len() == 0 {
                Single::zero()
            } else {
                level(bin_values(values, bin as nat, bins))
            },
    )
}

/// Adds up the squares of the values of a range.
fn squares_range(values: &[Single], from: usize, to: usize) -> (r: Double)
    requires
        from <= to <= values@.len(),
    ensures
        r == squares(values@.subrange(from as int, to as int)),
{
    let mut total = Double::of_word(0);
    let mut i = from;
    while i < to
        invariant
            from <= i <= to <= values@.len(),
            total == squares(values@.subrange(from as int, i as int)),
        decreases to - i,
    {
        total = total.plus(Double::of_single(values[i].times(values[i])));
        i = i + 1;
        assert(values@.subrange(from as int, i as int).drop_last() =~= values@.subrange(
            from as int,
            i - 1,
        ));
    }
    total
}

/// The level of each bin of a signal.
fn levels_of(values: &[Single], bins: usize) -> (r: Vec<Single>)
    requires
        values@.len() * bins <= usize::MAX,
    ensures
        r@ == bin_levels(values@, bins as nat),
{
    let frames = values.len();
    if frames == 0 {
        return silence(bins);
    }
    let mut levels: Vec<Single> = Vec::new();
    let mut bin: usize = 0;
    while bin < bins
        invariant
            bin <= bins,
            bin == levels@.len(),
            0 < frames == values@.len(),
            values@.len() * bins <= usize::MAX,
            forall|j: int| 0 <= j < bin ==> levels@[j] == bin_levels(values@, bins as nat)[j],
        decreases bins - bin,
    {
        proof {
            lemma_bin_products(bin as nat, frames as nat, bins as nat);
            lemma_bin_range(bin as nat, frames as nat, bins as nat);
        }
        let start = bin * frames / bins;
        let next = (bin + 1) * frames / bins;
        let end = if next > start {
            next
        } else {
            start + 1
        };
        let mean = squares_range(values, start, end).over(Double::of_word((end - start) as u64));
        levels.push(to_unit(mean.sqrt().to_single()));
        bin = bin + 1;
    }
    assert(levels@ =~= bin_levels(values@, bins as nat));
    levels
}

/// The mono mix of a track after each of the band filters; nothing where a filter could not
/// be made.
#[derive(Debug)]
pub struct BandSignals {
    /// What the low-pass filter lets through.
    pub low: Option<Vec<Single>>,
    /// What the band-pass filter lets through.
    pub mid: Option<Vec<Single>>,
    /// What the high-pass filter lets through.
    pub high: Option<Vec<Single>>,
}

/// A filter leaves one value for each frame.
pub open spec fn filters_frames(signal: Option<Vec<Single>>, frames: nat) -> bool {
    signal matches Some(values) ==> values@.len() == frames
}

/// The levels of a band, and none where it has no filter.
pub open spec fn band_levels(signal: Option<Vec<Single>>, bins: nat) -> Seq<Single> {
    match signal {
        Some(values) => bin_levels(values@, bins),
        None => Seq::new(bins, |bin: int| Single::zero()),
    }
}

/// The levels of a band, and none where it has no filter.
fn levels_of_band(signal: &Option<Vec<Single>>, bins: usize) -> (r: Vec<Single>)
    requires
        *signal matches Some(values) ==> values@.len() * bins <= usize::MAX,
    ensures
        r@ == band_levels(*signal, bins as nat),
{
    match signal {
        Some(values) => levels_of(values, bins),
        None => silence(bins),
    }
}

/// The analysis of a track: peaks, average levels, and the levels of the three bands.
///
/// `bands` holds the track's [`mono_mix`] after each of the [`band_filters`].
pub fn analyze_waveform(
    samples: &[Single],
    channels: usize,
    bin_count: usize,
    bands: &BandSignals,
) -> (r: WaveformAnalysis)
    requires
        frames_in(samples@.len(), channels) * bin_count <= usize::MAX,
        filters_frames(bands.low, frames_in(samples@.len(), channels)),
        filters_frames(bands.mid, frames_in(samples@.len(), channels)),
        filters_frames(bands.high, frames_in(samples@.len(), channels)),
    ensures
        r.wf(),
        r.peak@ == bin_peaks(samples@, channels, bin_count as nat),
        r.peak@.len() > 0 ==> {
            let frames = frames_in(samples@.len(), channels);
            let bins = bin_count as nat;
            if frames == 0 {
                let nothing = Seq::new(bins, |bin: int| Single::zero());
                r.rms@ == nothing && r.low@ == nothing && r.mid@ == nothing && r.high@ == nothing
            } else {
                &&& r.rms@ == bin_levels(mono_frames(samples@, channels), bins)
                &&& r.low@ == band_levels(bands.low, bins)
                &&& r.mid@ == band_levels(bands.mid, bins)
                &&& r.high@ == band_levels(bands.high, bins)
            }
        },
        bands.low matches Some(signal) ==> (signal@ == mono_frames(samples@, channels) && signal@.len()
            > 0 && r.peak@.len() > 0 ==> r.low@ == r.rms@),
        bands.mid matches Some(signal) ==> (signal@ == mono_frames(samples@, channels) && signal@.len()
            > 0 && r.peak@.len() > 0 ==> r.mid@ == r.rms@),
        bands.high matches Some(signal) ==> (signal@ == mono_frames(samples@, channels) && signal@.len()
            > 0 && r.peak@.len() > 0 ==> r.high@ == r.rms@),
        r.rms@.len() > 0 ==> shows_root_mean_squares(r.rms@, mono_frames(samples@, channels)),
        bands.low matches Some(signal) ==> shows_root_mean_squares(r.low@, signal@),
        bands.mid matches Some(signal) ==> shows_root_mean_squares(r.mid@, signal@),
        bands.high matches Some(signal) ==> shows_root_mean_squares(r.high@, signal@),
{
    let peak = build_waveform(samples, channels, bin_count);
    if peak.len() == 0 {
        return WaveformAnalysis::default();
    }
    let frame_count = samples.len() / channels;
    if frame_count == 0 {
        return WaveformAnalysis {
            peak,
            rms: silence(bin_count),
            low: silence(bin_count),
            mid: silence(bin_count),
            high: silence(bin_count),
        };
    }
    let mono = mono_mix(samples, channels);
    proof {
        law_levels_show_their_signal(mono, bin_count as nat);
        if bands.low is Some {
            law_levels_show_their_signal(bands.low->0, bin_count as nat);
        }
        if bands.mid is Some {
            law_levels_show_their_signal(bands.mid->0, bin_count as nat);
        }
        if bands.high is Some {
            law_levels_show_their_signal(bands.high->0, bin_count as nat);
        }
    }
    WaveformAnalysis {
        peak,
        rms: levels_of(&mono, bin_count),
        low: levels_of_band(&bands.low, bin_count),
        mid: levels_of_band(&bands.mid, bin_count),
        high: levels_of_band(&bands.high, bin_count),
    }
}

/// Every frame of a track is in some bin.
pub(crate) proof fn lemma_frame_has_bin(frame: nat, frames: nat, bins: nat, upto: nat) -> (bin: nat)
    requires
        frame < frames,
        0 < upto <= bins,
        upto < bins ==> frame < bin_start(upto, frames, bins),
    ensures
        bin < bins,
        bin_start(bin, frames, bins) <= frame < bin_end(bin, frames, bins),
    decreases upto,
{
    let bin = (upto - 1) as nat;
    lemma_bin_range(bin, frames, bins);
    if bin_start(bin, frames, bins) <= frame {
        bin
    } else {
        lemma_frame_has_bin(frame, frames, bins, bin)
    }
}

/// A peak lies between nothing and full height, and no sample of a frame is missed: some bin
/// shows at least its level, up to full scale.
pub proof fn law_peaks_trace_the_track(samples: Seq<Single>, channels: usize, bins: nat, index: int)
    requires
        channels > 0,
        bins > 0,
        0 <= index < frames_in(samples.len(), channels) * channels,
        !samples[index].is_nan(),
    ensures
        forall|bin: int|
            0 <= bin < bins ==> (#[trigger] bin_peaks(samples, channels, bins)[bin]).bits
                <= Single::one().bits,
        exists|bin: int|
            0 <= bin < bins && unit(samples[index].abs()).at_most(
                #[trigger] bin_peaks(samples, channels, bins)[bin],
            ),
{
    let frames = frames_in(samples.len(), channels);
    assert(frames > 0) by {
        if frames == 0 {
            assert(0 * channels == 0);
        }
    }
    assert(samples.len() > 0) by {
        if samples.len() == 0 {
            assert(0nat / (channels as nat) == 0) by (nonlinear_arith)
                requires
                    channels > 0,
            ;
        }
    }
    let peaks = bin_peaks(samples, channels, bins);
    assert forall|bin: int| 0 <= bin < bins implies (#[trigger] peaks[bin]).bits
        <= Single::one().bits by {
        let top = loudest(bin_samples(samples, channels, bin as nat, bins));
        lemma_loudest(bin_samples(samples, channels, bin as nat, bins));
        lemma_clamp_level(top, Single::zero(), Single::one());
    }
    let frame = (index / (channels as int)) as nat;
    vstd::arithmetic::div_mod::lemma_fundamental_div_mod(index, channels as int);
    assert(frame < frames && frame >= 0) by (nonlinear_arith)
        requires
            index == channels * frame + index % (channels as int),
            0 <= index % (channels as int),
            0 <= index < frames * channels,
            channels > 0,
            frame == index / (channels as int),
    ;
    let bin = lemma_frame_has_bin(frame, frames, bins, bins);
    lemma_bin_range(bin, frames, bins);
    let start = bin_start(bin, frames, bins);
    let end = bin_end(bin, frames, bins);
    let taken = bin_samples(samples, channels, bin, bins);
    lemma_frame_in(end - 1, samples.len() as int, channels as int);
    assert(0 <= start * channels <= index < end * channels) by (nonlinear_arith)
        requires
            0 <= start <= frame,
            frame + 1 <= end,
            index == channels * frame + index % (channels as int),
            0 <= index % (channels as int) < channels,
    ;
    let at = index - start * channels;
    assert(taken[at] == samples[index]);
    lemma_loudest(taken);
    crate::single::lemma_abs_level(samples[index]);
    let own = samples[index].abs();
    let top = loudest(taken);
    lemma_level_order(own, top);
    lemma_clamp_level(own, Single::zero(), Single::one());
    lemma_clamp_level(top, Single::zero(), Single::one());
    lemma_level_order(own, Single::zero());
    lemma_level_order(Single::one(), own);
    lemma_level_order(top, Single::zero());
    lemma_level_order(Single::one(), top);
    lemma_level_order(unit(own), unit(top));
    assert(unit(own).at_most(peaks[bin as int]));
}

/// Held to full height, the louder of two levels stays the louder.
proof fn lemma_unit_order(a: Single, b: Single)
    requires
        a.is_level(),
        b.is_level(),
        a.bits <= b.bits,
    ensures
        unit(a).bits <= unit(b).bits <= Single::one().bits,
{
    lemma_level_order(a, Single::zero());
    lemma_level_order(Single::one(), a);
    lemma_level_order(b, Single::zero());
    lemma_level_order(Single::one(), b);
}

/// The samples of a track's whole frames.
pub open spec fn whole_frames(samples: Seq<Single>, channels: usize) -> Seq<Single> {
    samples.take(frames_in(samples.len(), channels) * channels)
}

/// The waveform shows the true peak of the track and nothing above it: no bin passes the largest
/// absolute sample, held to full scale, and one reaches it.
pub proof fn law_true_peak_is_shown(samples: Seq<Single>, channels: usize, bins: nat)
    requires
        channels > 0,
        bins > 0,
        frames_in(samples.len(), channels) > 0,
    ensures
        forall|bin: int|
            0 <= bin < bins ==> (#[trigger] bin_peaks(samples, channels, bins)[bin]).at_most(
                unit(loudest(whole_frames(samples, channels))),
            ),
        exists|bin: int|
            0 <= bin < bins && #[trigger] bin_peaks(samples, channels, bins)[bin] == unit(
                loudest(whole_frames(samples, channels)),
            ),
{
    let frames = frames_in(samples.len(), channels);
    let all = whole_frames(samples, channels);
    let top = loudest(all);
    let peaks = bin_peaks(samples, channels, bins);
    lemma_frame_in(frames - 1, samples.len() as int, channels as int);
    assert((frames - 1) * channels + channels == frames * channels) by (nonlinear_arith);
    lemma_loudest(all);
    assert forall|bin: int| 0 <= bin < bins implies peaks[bin].bits <= unit(top).bits
        && (#[trigger] peaks[bin]).at_most(unit(top)) by {
        let start = bin_start(bin as nat, frames, bins);
        let end = bin_end(bin as nat, frames, bins);
        let taken = bin_samples(samples, channels, bin as nat, bins);
        lemma_bin_range(bin as nat, frames, bins);
        assert(0 <= start * channels <= end * channels <= frames * channels) by (nonlinear_arith)
            requires
                0 <= start <= end <= frames,
        ;
        lemma_loudest(taken);
        let own = loudest(taken);
        if own != Single::zero() {
            let i = choose|i: int| 0 <= i < taken.len() && own == (#[trigger] taken[i]).abs();
            let at = start * channels + i;
            assert(all[at] == taken[i]);
            crate::single::lemma_abs_level(taken[i]);
            lemma_level_order(own, top);
        }
        lemma_unit_order(own, top);
        lemma_level_order(unit(own), unit(top));
    }
    if top == Single::zero() {
        lemma_level_order(Single::one(), top);
        lemma_level_order(top, top);
        assert(unit(top).bits == 0);
        lemma_bin_range(0, frames, bins);
        assert(peaks[0].bits == unit(top).bits);
    } else {
        let index = choose|i: int| 0 <= i < all.len() && top == (#[trigger] all[i]).abs();
        assert(all[index] == samples[index]);
        crate::single::lemma_abs_level(samples[index]);
        law_peaks_trace_the_track(samples, channels, bins, index);
        let bin = choose|bin: int|
            0 <= bin < bins && unit(samples[index].abs()).at_most(#[trigger] peaks[bin]);
        lemma_unit_order(top, top);
        lemma_level_order(unit(top), peaks[bin]);
        assert(peaks[bin] == unit(top));
    }
}

} // verus!
