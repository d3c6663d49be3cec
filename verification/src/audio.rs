//! Playback: the equalizer's settings, the transport, the output tap and the engine state.
use crate::double::{self, Double};
use crate::equalizing::{as_asked, law_alike_settings_agree};
use crate::ieee::{
    lemma_leading, lemma_points_increase, lemma_rounded_at_least, lemma_rounded_at_most,
    lemma_rounded_is_nearest, one_in_points, points, SINGLE,
};
use crate::mixing::{law_output_is_covered, law_remix_keeps_every_channel};
use crate::output::{is_scaled, law_gain_scales};
use crate::seeking::{
    is_nearest_frame, law_seek_lands_on_the_nearest_frame, law_skip_keeps_its_direction,
    lies_within,
};
use crate::signal::{add_range, added, loudest, loudest_range, sum_start};
use crate::single::{
    lemma_level_order, lemma_times_level, lemma_whole_level, whole, Single, HALF, TWENTY,
};
use crate::time::{lemma_count_over_rate, nanoseconds, of_nanos, Duration};
use std::sync::Arc;
use vstd::arithmetic::power2::{lemma2_to64, lemma_pow2_adds, lemma_pow2_pos, pow2};
use vstd::prelude::*;

verus! {

/// The equalizer's band centers in hertz.
pub const EQ_BANDS_HZ: [u32; 10] = [31, 62, 125, 250, 500, 1000, 2000, 4000, 8000, 16000];

/// Bits of 12: the largest boost of a band in decibels.
pub const TWELVE: u32 = 0x4140_0000;

/// Bits of 0.45: the share of the sample rate that a band center stays below.
pub const BAND_SHARE: u32 = 0x3ee6_6666;

/// The equalizer's settings: a switch, and a gain for each band.
#[derive(Clone, Copy, Debug)]
pub struct EqSettings {
    enabled: bool,
    gains_db: [Single; 10],
}

/// No boost and no cut in any band.
pub open spec fn flat() -> Seq<Single> {
    Seq::new(10, |i: int| Single::zero())
}

/// A gain within the range of a band.
pub open spec fn band_gain(gain_db: Single) -> Single {
    gain_db.clamp(Single { bits: TWELVE }.negated(), Single { bits: TWELVE })
}

fn flat_gains() -> (r: [Single; 10])
    ensures
        r@ == flat(),
{
    let z = Single::zero();
    let r = [z, z, z, z, z, z, z, z, z, z];
    assert(r@ =~= flat());
    r
}

impl Default for EqSettings {
    /// Switched on, and flat.
    fn default() -> (r: EqSettings)
        ensures
            r.spec_enabled(),
            r.gains() == flat(),
    {
        EqSettings { enabled: true, gains_db: flat_gains() }
    }
}

impl EqSettings {
    /// Whether the equalizer is switched on.
    pub closed spec fn spec_enabled(self) -> bool {
        self.enabled
    }

    /// The gain of each band.
    pub closed spec fn gains(self) -> Seq<Single> {
        self.gains_db@
    }

    /// The switches agree, and the gains are of equal value.
    pub open spec fn spec_same_settings(self, other: EqSettings) -> bool {
        &&& self.spec_enabled() == other.spec_enabled()
        &&& forall|i: int|
            0 <= i < 10 ==> (#[trigger] self.gains()[i]).same_value(other.gains()[i])
    }

    /// Whether the equalizer is switched on.
    pub fn enabled(&self) -> (r: bool)
        ensures
            r == self.spec_enabled(),
    {
        self.enabled
    }

    /// Switches the equalizer on or off.
    pub fn set_enabled(&mut self, enabled: bool)
        ensures
            final(self).spec_enabled() == enabled,
            final(self).gains() == old(self).gains(),
    {
        self.enabled = enabled;
    }

    /// The gains of all bands.
    pub fn gains_db(&self) -> (r: &[Single; 10])
        ensures
            r@ == self.gains(),
    {
        &self.gains_db
    }

    /// The gain of one band, if there is such a band.
    pub fn gain_db(&self, index: usize) -> (r: Option<Single>)
        ensures
            r == if index < 10 { Some(self.gains()[index as int]) } else { None::<Single> },
    {
        if index < 10 {
            Some(self.gains_db[index])
        } else {
            None
        }
    }

    /// Sets the gain of a band, held to the band's range; there is nothing to set past the last.
    pub fn set_gain(&mut self, index: usize, gain_db: Single)
        ensures
            final(self).spec_enabled() == old(self).spec_enabled(),
            final(self).gains() == if index < 10 {
                old(self).gains().update(index as int, band_gain(gain_db))
            } else {
                old(self).gains()
            },
            forall|i: int|
                0 <= i < EQ_BANDS_HZ@.len() ==> #[trigger] final(self).gains()[i] == if i == index {
                    band_gain(gain_db)
                } else {
                    old(self).gains()[i]
                },
    {
        if index < 10 {
            let high = Single::from_bits(TWELVE);
            proof {
                reveal(Single::spec_negated);
                reveal(Single::spec_at_most);
            }
            let low = high.negated();
            self.gains_db[index] = gain_db.clamp(low, high);
        }
    }

    /// Makes every band flat.
    pub fn reset(&mut self)
        ensures
            final(self).spec_enabled() == old(self).spec_enabled(),
            final(self).gains() == flat(),
    {
        self.gains_db = flat_gains();
    }

    /// Whether two settings are alike.
    #[verifier::when_used_as_spec(spec_same_settings)]
    pub fn same_settings(self, other: EqSettings) -> (r: bool)
        ensures
            r == self.spec_same_settings(other),
    {
        let mut i: usize = 0;
        while i < 10
            invariant
                i <= 10,
                forall|j: int|
                    0 <= j < i ==> (#[trigger] self.gains()[j]).same_value(other.gains()[j]),
            decreases 10 - i,
        {
            if !self.gains_db[i].same_value(other.gains_db[i]) {
                assert(!self.gains()[i as int].same_value(other.gains()[i as int]));
                return false;
            }
            i = i + 1;
        }
        self.enabled == other.enabled
    }
}

impl PartialEq for EqSettings {
    fn eq(&self, other: &EqSettings) -> (r: bool) {
        self.same_settings(*other)
    }
}

impl vstd::std_specs::cmp::PartialEqSpecImpl for EqSettings {
    open spec fn obeys_eq_spec() -> bool {
        true
    }

    open spec fn eq_spec(&self, other: &EqSettings) -> bool {
        self.spec_same_settings(*other)
    }
}

/// A peaking filter to run: its center frequency and its gain.
#[derive(Clone, Copy, Debug)]
pub struct EqBand {
    /// Center frequency in hertz.
    pub frequency: Single,
    /// Gain in decibels.
    pub gain_db: Single,
}

/// A sample rate to divide by: one where none is known.
pub open spec fn safe_rate(sample_rate: u32) -> nat {
    if sample_rate == 0 {
        1
    } else {
        sample_rate as nat
    }
}

/// The highest band center that a sample rate allows.
pub open spec fn top_frequency(sample_rate: u32) -> Single {
    whole(safe_rate(sample_rate)).times(Single { bits: BAND_SHARE })
}

/// The lowest sample rate that leaves room for an equalizer band: one at one hertz.
pub const LEAST_EQ_RATE: u32 = 3;

/// The filters of one channel, from the lowest band up.
pub open spec fn band_plan(sample_rate: u32, gains: Seq<Single>) -> Seq<EqBand> {
    Seq::new(
        10,
        |i: int|
            EqBand {
                frequency: whole(EQ_BANDS_HZ@[i] as nat).clamp(
                    Single::one(),
                    top_frequency(sample_rate),
                ),
                gain_db: gains[i],
            },
    )
}

/// Values in common units, for holding band centers against each other.
proof fn lemma_rate_points()
    ensures
        pow2(124) > 0,
        one_in_points(SINGLE) == 0x200_0000 * pow2(124),
        points(BAND_SHARE as nat, SINGLE) == 0xe6_6666 * pow2(124),
        points(0x3f7f_ffff, SINGLE) == 0x1ff_fffe * pow2(124),
        points(0x3f80_0000, SINGLE) == 0x200_0000 * pow2(124),
        points(0x4000_0000, SINGLE) == 2 * one_in_points(SINGLE),
        points(0x4040_0000, SINGLE) == 3 * one_in_points(SINGLE),
        points(0x419f_ffff, SINGLE) == 0x27ff_ffc0 * pow2(124),
        points(0x41a0_0000, SINGLE) == 0x2800_0000 * pow2(124),
        points(0x4230_0000, SINGLE) == 44 * one_in_points(SINGLE),
        points(0x4234_0000, SINGLE) == 45 * one_in_points(SINGLE),
{
    lemma_pow2_pos(124);
    lemma2_to64();
    lemma_pow2_adds(124, 25);
    lemma_in_units(BAND_SHARE as nat, 0, 1);
    lemma_in_units(0x3f7f_ffff, 1, 2);
    lemma_in_units(0x3f80_0000, 2, 4);
    lemma_in_units(0x4000_0000, 3, 8);
    lemma_in_units(0x4040_0000, 3, 8);
    lemma_in_units(0x419f_ffff, 6, 64);
    lemma_in_units(0x41a0_0000, 6, 64);
    lemma_in_units(0x4230_0000, 7, 128);
    lemma_in_units(0x4234_0000, 7, 128);
    let unit = pow2(124);
    assert(points(0x4000_0000, SINGLE) == 0x400_0000 * unit);
    assert(points(0x4040_0000, SINGLE) == 0x600_0000 * unit);
    assert(points(0x4230_0000, SINGLE) == 0x5800_0000 * unit);
    assert(points(0x4234_0000, SINGLE) == 0x5a00_0000 * unit);
    assert(2 * (0x200_0000 * unit) == 0x400_0000 * unit) by (nonlinear_arith);
    assert(3 * (0x200_0000 * unit) == 0x600_0000 * unit) by (nonlinear_arith);
    assert(44 * (0x200_0000 * unit) == 0x5800_0000 * unit) by (nonlinear_arith);
    assert(45 * (0x200_0000 * unit) == 0x5a00_0000 * unit) by (nonlinear_arith);
}

/// The value of a magnitude in units of two to the power of 124 points.
proof fn lemma_in_units(mag: nat, shift: nat, factor: nat)
    requires
        mag >= 0x80_0000,
        mag / 0x80_0000 == 125 + shift,
        pow2(shift) == factor,
    ensures
        points(mag, SINGLE) == ((0x80_0000 + mag % 0x80_0000) * factor) * pow2(124),
{
    lemma_leading(SINGLE);
    lemma_pow2_adds(124, shift);
    let significand = (0x80_0000 + mag % 0x80_0000) as nat;
    assert(significand * (pow2(124) * factor) == (significand * factor) * pow2(124))
        by (nonlinear_arith);
}

/// The highest band center as a share of the sample rate: at or above a frequency where the rate
/// is at or above a whole number, and below it where the rate is below.
proof fn lemma_band_share(rate: nat, least: nat, least_mag: nat, limit: nat, limit_mag: nat)
    requires
        rate <= u32::MAX,
        least > 0,
        least_mag <= 0x7f80_0000,
        0 < limit < 0x7f80_0000,
        points(least_mag, SINGLE) == least * one_in_points(SINGLE),
        least * points(BAND_SHARE as nat, SINGLE) >= points(limit, SINGLE),
        points(limit_mag, SINGLE) == (least - 1) * one_in_points(SINGLE),
        (least - 1) * points(BAND_SHARE as nat, SINGLE) <= points((limit - 1) as nat, SINGLE),
    ensures
        rate >= least ==> whole(rate).times(Single { bits: BAND_SHARE }).bits >= limit,
        rate < least ==> whole(rate).times(Single { bits: BAND_SHARE }).bits < limit,
        whole(rate).times(Single { bits: BAND_SHARE }).is_level(),
{
    let one = one_in_points(SINGLE);
    let share = points(BAND_SHARE as nat, SINGLE);
    lemma_pow2_pos(149);
    lemma_whole_level(rate);
    lemma_times_level(whole(rate), Single { bits: BAND_SHARE });
    reveal(whole);
    reveal(Single::spec_times);
    let m = whole(rate).bits as nat;
    let exact = points(m, SINGLE) * share;
    lemma_rounded_is_nearest(rate * one, 1, SINGLE);
    lemma_rounded_is_nearest(exact, one, SINGLE);
    if rate >= least {
        assert(rate * one >= (least * one) * 1) by (nonlinear_arith)
            requires
                rate >= least,
        ;
        lemma_rounded_at_least(rate * one, 1, least_mag, SINGLE);
        if least_mag < m {
            lemma_points_increase(least_mag, m, SINGLE);
        }
        assert(exact >= points(limit, SINGLE) * one) by (nonlinear_arith)
            requires
                exact == points(m, SINGLE) * share,
                points(m, SINGLE) >= least * one,
                least * share >= points(limit, SINGLE),
        ;
        lemma_rounded_at_least(exact, one, limit, SINGLE);
    } else {
        assert(rate * one <= ((least - 1) * one) * 1) by (nonlinear_arith)
            requires
                rate <= least - 1,
        ;
        lemma_rounded_at_most(rate * one, 1, limit_mag, SINGLE);
        if m < limit_mag {
            lemma_points_increase(m, limit_mag, SINGLE);
        }
        assert(exact <= points((limit - 1) as nat, SINGLE) * one) by (nonlinear_arith)
            requires
                exact == points(m, SINGLE) * share,
                points(m, SINGLE) <= (least - 1) * one,
                (least - 1) * share <= points((limit - 1) as nat, SINGLE),
        ;
        lemma_rounded_at_most(exact, one, (limit - 1) as nat, SINGLE);
    }
}

/// The sample rates from the lowest on leave room for a band at one hertz, and no others do.
pub proof fn law_least_eq_rate(sample_rate: u32)
    ensures
        sample_rate >= LEAST_EQ_RATE <==> Single::one().at_most(top_frequency(sample_rate)),
        top_frequency(sample_rate).is_level(),
{
    lemma_rate_points();
    let unit = pow2(124);
    assert(3 * (0xe6_6666 * unit) >= 0x200_0000 * unit) by (nonlinear_arith);
    assert(2 * (0xe6_6666 * unit) <= 0x1ff_fffe * unit) by (nonlinear_arith);
    lemma_band_share(safe_rate(sample_rate), 3, 0x4040_0000, 0x3f80_0000, 0x4000_0000);
    lemma_level_order(Single::one(), top_frequency(sample_rate));
}

/// The sample rates from 45 on leave room for a band at twenty hertz, and no others do.
pub proof fn law_least_split_rate(sample_rate: u32)
    ensures
        sample_rate >= 45 <==> (Single { bits: TWENTY }).at_most(top_frequency(sample_rate)),
        top_frequency(sample_rate).is_level(),
{
    lemma_rate_points();
    let unit = pow2(124);
    assert(45 * (0xe6_6666 * unit) >= 0x2800_0000 * unit) by (nonlinear_arith);
    assert(44 * (0xe6_6666 * unit) <= 0x27ff_ffc0 * unit) by (nonlinear_arith);
    lemma_band_share(safe_rate(sample_rate), 45, 0x4234_0000, 0x41a0_0000, 0x4230_0000);
    lemma_level_order(Single { bits: TWENTY }, top_frequency(sample_rate));
}

/// The highest band center that a sample rate allows.
pub fn highest_band(sample_rate: u32) -> (r: Single)
    ensures
        r == top_frequency(sample_rate),
{
    let rate: u64 = if sample_rate == 0 {
        1
    } else {
        sample_rate as u64
    };
    Single::of_word(rate).times(Single::from_bits(BAND_SHARE))
}

/// The equalizer of an output stream: which filters run, and on which channels.
#[derive(Debug)]
pub struct EqProcessor {
    sample_rate: u32,
    channels: usize,
    settings: EqSettings,
    bands: Vec<EqBand>,
}

impl EqProcessor {
    /// The planned filters are those of the settings.
    pub closed spec fn wf(self) -> bool {
        &&& self.sample_rate >= LEAST_EQ_RATE
        &&& self.bands@ == band_plan(self.sample_rate, self.settings.gains())
    }

    /// The stream's sample rate.
    pub closed spec fn spec_sample_rate(self) -> u32 {
        self.sample_rate
    }

    /// The stream's channel count.
    pub closed spec fn spec_channels(self) -> usize {
        self.channels
    }

    /// The settings in force.
    pub closed spec fn spec_settings(self) -> EqSettings {
        self.settings
    }

    /// How many leading channels of a frame go through the filters.
    pub open spec fn spec_channels_to_filter(self, frame_len: usize) -> usize {
        if !self.spec_settings().spec_enabled() {
            0
        } else if frame_len < self.spec_channels() {
            frame_len
        } else {
            self.spec_channels()
        }
    }

    /// An equalizer for a stream.
    pub fn new(sample_rate: u32, channels: usize, settings: EqSettings) -> (r: EqProcessor)
        requires
            sample_rate >= LEAST_EQ_RATE,
        ensures
            r.wf(),
            r.spec_sample_rate() == sample_rate,
            r.spec_channels() == channels,
            r.spec_settings() == settings,
    {
        let bands = EqProcessor::rebuild_filters(sample_rate, &settings);
        EqProcessor { sample_rate, channels, settings, bands }
    }

    /// Takes on new settings. Where they differ, the filters are planned anew and start from
    /// rest; the result tells whether they do.
    pub fn update_settings(&mut self, settings: EqSettings) -> (rebuilt: bool)
        requires
            old(self).wf(),
        ensures
            final(self).wf(),
            final(self).spec_sample_rate() == old(self).spec_sample_rate(),
            final(self).spec_channels() == old(self).spec_channels(),
            rebuilt == !old(self).spec_settings().same_settings(settings),
            final(self).spec_settings() == if rebuilt { settings } else { old(self).spec_settings() },
            as_asked(final(self).spec_settings(), settings),
    {
        proof {
            law_alike_settings_agree(self.settings, settings);
        }
        if self.settings.same_settings(settings) {
            false
        } else {
            self.settings = settings;
            self.bands = EqProcessor::rebuild_filters(self.sample_rate, &settings);
            true
        }
    }

    /// The filters of one channel, in the order they run.
    pub fn filters(&self) -> (r: &Vec<EqBand>)
        requires
            self.wf(),
        ensures
            r@ == band_plan(self.spec_sample_rate(), self.spec_settings().gains()),
            r@.len() == EQ_BANDS_HZ@.len(),
            forall|i: int|
                0 <= i < EQ_BANDS_HZ@.len() ==> (#[trigger] r@[i]).gain_db
                    == self.spec_settings().gains()[i],
    {
        &self.bands
    }

    /// How many leading channels of a frame go through the filters: none while switched off.
    pub fn channels_to_filter(&self, frame_len: usize) -> (r: usize)
        ensures
            r == self.spec_channels_to_filter(frame_len),
    {
        if !self.settings.enabled() {
            0
        } else if frame_len < self.channels {
            frame_len
        } else {
            self.channels
        }
    }

    /// Puts the filters' output in place of the channels that went through them.
    pub fn process_frame(&self, frame: &mut Vec<Single>, filtered: &[Single])
        requires
            filtered@.len() == self.spec_channels_to_filter(old(frame)@.len() as usize),
        ensures
            final(frame)@ == filtered@ + old(frame)@.skip(filtered@.len() as int),
            !self.spec_settings().spec_enabled() ==> final(frame)@ == old(frame)@,
    {
        let count = filtered.len();
        let mut channel: usize = 0;
        while channel < count
            invariant
                channel <= count == filtered@.len() <= old(frame)@.len(),
                frame@ == filtered@.take(channel as int) + old(frame)@.skip(channel as int),
            decreases count - channel,
        {
            frame.set(channel, filtered[channel]);
            channel = channel + 1;
            assert(frame@ =~= filtered@.take(channel as int) + old(frame)@.skip(channel as int));
        }
        assert(filtered@.take(count as int) =~= filtered@);
        assert(old(frame)@.skip(0) =~= old(frame)@);
    }

    /// Plans the filters of one channel.
    fn rebuild_filters(sample_rate: u32, settings: &EqSettings) -> (r: Vec<EqBand>)
        requires
            sample_rate >= LEAST_EQ_RATE,
        ensures
            r@ == band_plan(sample_rate, settings.gains()),
    {
        let top = highest_band(sample_rate);
        proof {
            law_least_eq_rate(sample_rate);
        }
        let mut bands: Vec<EqBand> = Vec::new();
        let mut i: usize = 0;
        while i < 10
            invariant
                i <= 10,
                i == bands@.len(),
                top == top_frequency(sample_rate),
                Single::one().at_most(top),
                forall|j: int|
                    0 <= j < i ==> bands@[j] == band_plan(sample_rate, settings.gains())[j],
            decreases 10 - i,
        {
            let center = Single::of_word(EQ_BANDS_HZ[i] as u64);
            bands.push(
                EqBand {
                    frequency: center.clamp(Single::one(), top),
                    gain_db: settings.gains_db[i],
                },
            );
            i = i + 1;
        }
        assert(bands@ =~= band_plan(sample_rate, settings.gains()));
        bands
    }
}

/// Interleaved samples ready to play.
#[derive(Clone, Debug)]
pub struct PlaybackBuffer {
    /// The samples, frame by frame.
    pub samples: Vec<Single>,
    /// Frames in a second.
    pub sample_rate: u32,
    /// Samples in a frame.
    pub channels: usize,
}

/// The whole frames in a number of interleaved samples.
pub open spec fn frames_in(samples: nat, channels: usize) -> nat {
    if channels == 0 {
        0
    } else {
        samples / (channels as nat)
    }
}

/// A number of frames at a rate, in seconds.
pub open spec fn seconds_at(frames: nat, sample_rate: u32) -> Double {
    double::whole(frames).over(double::whole(sample_rate as nat))
}

impl PlaybackBuffer {
    /// The samples fit in memory.
    pub open spec fn wf(self) -> bool {
        self.samples@.len() <= 0x7fff_ffff_ffff_ffff
    }

    /// The whole frames in the buffer.
    pub open spec fn frames(self) -> nat {
        frames_in(self.samples@.len(), self.channels)
    }

    /// How long the buffer plays: no time where no rate is known.
    pub open spec fn length(self) -> Duration {
        if self.sample_rate == 0 {
            of_nanos(0)
        } else {
            of_nanos(nanoseconds(seconds_at(self.frames(), self.sample_rate)))
        }
    }

    /// A buffer of interleaved samples.
    pub fn new(samples: Vec<Single>, sample_rate: u32, channels: usize) -> (r: PlaybackBuffer)
        ensures
            r.samples@ == samples@,
            r.sample_rate == sample_rate,
            r.channels == channels,
    {
        PlaybackBuffer { samples, sample_rate, channels }
    }

    /// The whole frames in the buffer; none where a frame has no samples.
    pub fn frame_count(&self) -> (r: usize)
        ensures
            r == self.frames(),
    {
        if self.channels == 0 {
            0
        } else {
            self.samples.len() / self.channels
        }
    }

    /// How long the buffer plays.
    pub fn duration(&self) -> (r: Duration)
        requires
            self.wf(),
        ensures
            r == self.length(),
    {
        if self.sample_rate == 0 {
            Duration::zero()
        } else {
            let frames = self.frame_count();
            proof {
                if self.channels > 0 {
                    vstd::arithmetic::div_mod::lemma_div_nonincreasing(
                        self.samples@.len() as int,
                        self.channels as int,
                    );
                }
                lemma_count_over_rate(frames as nat, self.sample_rate as nat);
            }
            let seconds = Double::of_word(frames as u64).over(
                Double::of_word(self.sample_rate as u64),
            );
            match Duration::from_seconds(seconds) {
                Some(d) => d,
                None => Duration::zero(),
            }
        }
    }
}

/// A position held within a track: from its start to its end.
pub open spec fn within_track(seconds: Single, duration: Duration) -> Single {
    seconds.clamp(Single::zero(), duration.as_seconds())
}

/// Holds a position within a track.
pub fn clamp_seek_seconds(seconds: Single, duration: Duration) -> (r: Single)
    ensures
        r == within_track(seconds, duration),
{
    proof {
        duration.lemma_as_seconds_level();
        lemma_level_order(Single::zero(), duration.as_seconds());
    }
    seconds.clamp(Single::zero(), duration.as_seconds())
}

/// What the transport is doing.
#[derive(Clone, Copy, Debug, PartialEq, Eq, Structural)]
pub enum TransportState {
    /// Nothing plays.
    Stopped,
    /// The track plays.
    Playing,
    /// The track waits where it is.
    Paused,
}

/// The loaded track, the position in it, the transport and the fader.
#[derive(Clone, Debug)]
pub struct PlaybackState {
    track: Option<Arc<PlaybackBuffer>>,
    cursor_frame: usize,
    transport: TransportState,
    volume: Single,
}

/// Three: the fader's reach in powers of ten.
pub const TAPER_REACH: u32 = 0x4040_0000;

/// The power of ten that a fader position stands for: none at the top, minus three at the bottom.
pub open spec fn taper_exponent(volume: Single) -> Single {
    volume.minus(Single::one()).times(Single { bits: TAPER_REACH })
}

/// The amplitude gain of a fader position: silence at the bottom, else the taper's value.
pub open spec fn fader_gain(volume: Single, taper: Single) -> Single {
    if volume.at_most(Single::zero()) {
        Single::zero()
    } else {
        taper
    }
}

/// The frame that a position falls on, not past the end of the track.
pub open spec fn frame_at(seconds: Single, track: PlaybackBuffer) -> nat {
    let frame = seconds.times(whole(track.sample_rate as nat)).round_to_word();
    if frame < track.frames() {
        frame as nat
    } else {
        track.frames()
    }
}

impl Default for PlaybackState {
    /// No track, stopped, the fader at the top.
    fn default() -> (r: PlaybackState)
        ensures
            r.wf(),
            r.spec_track() is None,
            r.spec_cursor() == 0,
            r.spec_transport() == TransportState::Stopped,
            r.spec_volume() == Single::one(),
    {
        PlaybackState {
            track: None,
            cursor_frame: 0,
            transport: TransportState::Stopped,
            volume: Single::one(),
        }
    }
}

impl PlaybackState {
    /// The cursor stands within the track, at the start where there is none, and only a track plays.
    pub closed spec fn wf(self) -> bool {
        match self.track {
            Some(track) => track.wf() && self.cursor_frame <= track.frames(),
            None => self.cursor_frame == 0 && self.transport == TransportState::Stopped,
        }
    }

    /// The loaded track.
    pub closed spec fn spec_track(self) -> Option<PlaybackBuffer> {
        match self.track {
            Some(track) => Some(*track),
            None => None,
        }
    }

    /// The frame that plays next.
    pub closed spec fn spec_cursor(self) -> usize {
        self.cursor_frame
    }

    /// What the transport is doing.
    pub closed spec fn spec_transport(self) -> TransportState {
        self.transport
    }

    /// The fader position.
    pub closed spec fn spec_volume(self) -> Single {
        self.volume
    }

    /// The position in seconds.
    pub open spec fn position(self) -> Single {
        match self.spec_track() {
            Some(track) => if track.sample_rate == 0 {
                Single::zero()
            } else {
                whole(self.spec_cursor() as nat).over(whole(track.sample_rate as nat))
            },
            None => Single::zero(),
        }
    }

    /// The track's length, and no time where there is no track.
    pub open spec fn length(self) -> Duration {
        match self.spec_track() {
            Some(track) => track.length(),
            None => of_nanos(0),
        }
    }

    /// Where a seek puts the cursor.
    pub open spec fn sought(self, seconds: Single) -> nat {
        match self.spec_track() {
            Some(track) => frame_at(within_track(seconds, track.length()), track),
            None => self.spec_cursor() as nat,
        }
    }

    /// Loads a track: it stands at its start, stopped.
    pub fn load(&mut self, track: Arc<PlaybackBuffer>)
        requires
            track.wf(),
        ensures
            final(self).wf(),
            final(self).spec_track() == Some(*track),
            final(self).spec_cursor() == 0,
            final(self).spec_transport() == TransportState::Stopped,
            final(self).spec_volume() == old(self).spec_volume(),
    {
        self.track = Some(track);
        self.cursor_frame = 0;
        self.transport = TransportState::Stopped;
    }

    /// Takes the track out.
    pub fn clear(&mut self)
        ensures
            final(self).wf(),
            final(self).spec_track() is None,
            final(self).spec_cursor() == 0,
            final(self).spec_transport() == TransportState::Stopped,
            final(self).spec_volume() == old(self).spec_volume(),
    {
        self.track = None;
        self.cursor_frame = 0;
        self.transport = TransportState::Stopped;
    }

    /// The two states differ in the transport alone.
    pub open spec fn moved_transport(self, after: PlaybackState, transport: TransportState) -> bool {
        &&& after.wf()
        &&& after.spec_track() == self.spec_track()
        &&& after.spec_cursor() == self.spec_cursor()
        &&& after.spec_volume() == self.spec_volume()
        &&& after.spec_transport() == transport
    }

    /// The two states differ in the cursor alone.
    pub open spec fn moved_cursor(self, after: PlaybackState) -> bool {
        &&& after.wf()
        &&& after.spec_track() == self.spec_track()
        &&& after.spec_transport() == self.spec_transport()
        &&& after.spec_volume() == self.spec_volume()
    }

    /// What the transport does after `play`.
    pub open spec fn after_play(self) -> TransportState {
        if self.spec_track() is Some {
            TransportState::Playing
        } else {
            self.spec_transport()
        }
    }

    /// What the transport does after `pause`.
    pub open spec fn after_pause(self) -> TransportState {
        if self.spec_transport() == TransportState::Playing {
            TransportState::Paused
        } else {
            self.spec_transport()
        }
    }

    /// What the transport does after `toggle_playback`.
    pub open spec fn after_toggle(self) -> TransportState {
        if self.spec_transport() == TransportState::Playing {
            self.after_pause()
        } else {
            self.after_play()
        }
    }

    /// The cursor stands within the track, at the start where there is none, and only a track plays.
    pub proof fn lemma_wf(self)
        requires
            self.wf(),
        ensures
            match self.spec_track() {
                Some(track) => track.wf() && self.spec_cursor() <= track.frames(),
                None => self.spec_cursor() == 0 && self.spec_transport() == TransportState::Stopped,
            },
    {
    }

    /// Plays the track, if there is one.
    pub fn play(&mut self)
        requires
            old(self).wf(),
        ensures
            old(self).moved_transport(*final(self), old(self).after_play()),
    {
        if self.track.is_some() {
            self.transport = TransportState::Playing;
        }
    }

    /// Pauses what plays.
    pub fn pause(&mut self)
        requires
            old(self).wf(),
        ensures
            old(self).moved_transport(*final(self), old(self).after_pause()),
    {
        if self.transport == TransportState::Playing {
            self.transport = TransportState::Paused;
        }
    }

    /// Pauses what plays, and plays what does not.
    pub fn toggle_playback(&mut self)
        requires
            old(self).wf(),
        ensures
            old(self).moved_transport(*final(self), old(self).after_toggle()),
    {
        match self.transport {
            TransportState::Playing => self.pause(),
            TransportState::Paused | TransportState::Stopped => self.play(),
        }
    }

    /// Moves the cursor to a position in seconds, held within the track.
    pub fn seek_seconds(&mut self, seconds: Single)
        requires
            old(self).wf(),
        ensures
            old(self).moved_cursor(*final(self)),
            final(self).spec_cursor() == old(self).sought(seconds),
            old(self).spec_track() matches Some(track) ==> lies_within(seconds, track)
                ==> is_nearest_frame(final(self).spec_cursor() as int, seconds, track),
    {
        proof {
            if let Some(track) = self.spec_track() {
                if lies_within(seconds, track) {
                    law_seek_lands_on_the_nearest_frame(*self, seconds);
                }
            }
        }
        let target: usize = match &self.track {
            Some(track) => {
                let length = track.duration();
                let clamped = clamp_seek_seconds(seconds, length);
                let frame = clamped.times(
                    Single::of_word(track.sample_rate as u64),
                ).round_to_word();
                let frames = track.frame_count();
                if frame < frames as u64 {
                    frame as usize
                } else {
                    frames
                }
            },
            None => self.cursor_frame,
        };
        self.cursor_frame = target;
    }

    /// Moves the cursor by a number of seconds.
    pub fn skip_seconds(&mut self, delta: Single)
        requires
            old(self).wf(),
        ensures
            old(self).moved_cursor(*final(self)),
            final(self).spec_cursor() == old(self).sought(old(self).position().plus(delta)),
            Single::zero().at_most(delta) ==> old(self).sought(old(self).position())
                <= final(self).spec_cursor(),
            delta.at_most(Single::zero()) ==> final(self).spec_cursor() <= old(self).sought(
                old(self).position(),
            ),
    {
        proof {
            law_skip_keeps_its_direction(*self, delta);
        }
        let target = self.position_seconds().plus(delta);
        self.seek_seconds(target);
    }

    /// The position in seconds.
    pub fn position_seconds(&self) -> (r: Single)
        ensures
            r == self.position(),
    {
        match &self.track {
            Some(track) => if track.sample_rate == 0 {
                Single::zero()
            } else {
                Single::of_word(self.cursor_frame as u64).over(
                    Single::of_word(track.sample_rate as u64),
                )
            },
            None => Single::zero(),
        }
    }

    /// The track's length.
    pub fn duration(&self) -> (r: Duration)
        requires
            self.wf(),
        ensures
            r == self.length(),
    {
        match &self.track {
            Some(track) => track.duration(),
            None => Duration::zero(),
        }
    }

    /// What the transport is doing.
    pub fn transport(&self) -> (r: TransportState)
        ensures
            r == self.spec_transport(),
    {
        self.transport
    }

    /// The fader position, from 0 to 1, as the volume slider shows it.
    pub fn volume(&self) -> (r: Single)
        ensures
            r == self.spec_volume(),
    {
        self.volume
    }

    /// Moves the fader.
    pub fn set_volume(&mut self, volume: Single)
        requires
            old(self).wf(),
        ensures
            final(self).wf(),
            final(self).spec_track() == old(self).spec_track(),
            final(self).spec_cursor() == old(self).spec_cursor(),
            final(self).spec_transport() == old(self).spec_transport(),
            final(self).spec_volume() == volume.clamp(Single::zero(), Single::one()),
    {
        proof {
            lemma_level_order(Single::zero(), Single::one());
        }
        self.volume = volume.clamp(Single::zero(), Single::one());
    }

    /// The power of ten to take for [`PlaybackState::gain`].
    ///
    /// Loudness is heard on a roughly logarithmic scale, so the fader runs through an
    /// exponential taper of about 60 dB: equal movement is about equal change in loudness.
    pub fn gain_exponent(&self) -> (r: Single)
        ensures
            r == taper_exponent(self.spec_volume()),
    {
        self.volume.minus(Single::one()).times(Single::from_bits(TAPER_REACH))
    }

    /// The linear amplitude gain of the fader position. `taper` is ten to the power of
    /// [`PlaybackState::gain_exponent`]; a fader at the bottom is silence whatever it is.
    pub fn gain(&self, taper: Single) -> (r: Single)
        ensures
            r == fader_gain(self.spec_volume(), taper),
    {
        if self.volume.at_most(Single::zero()) {
            Single::zero()
        } else {
            taper
        }
    }

    /// The loaded track.
    pub fn track(&self) -> (r: Option<Arc<PlaybackBuffer>>)
        ensures
            r is Some <==> self.spec_track() is Some,
            r matches Some(track) ==> self.spec_track() == Some(*track),
    {
        match &self.track {
            Some(track) => Some(Arc::clone(track)),
            None => None,
        }
    }

    /// The frame that plays next.
    pub fn cursor_frame(&self) -> (r: usize)
        ensures
            r == self.spec_cursor(),
    {
        self.cursor_frame
    }

    /// Moves the cursor to a frame, held within the track.
    pub fn set_cursor_frame(&mut self, cursor_frame: usize)
        requires
            old(self).wf(),
        ensures
            old(self).moved_cursor(*final(self)),
            final(self).spec_cursor() == match old(self).spec_track() {
                Some(track) => if cursor_frame < track.frames() {
                    cursor_frame as nat
                } else {
                    track.frames()
                },
                None => 0,
            },
    {
        let max_frame = match &self.track {
            Some(track) => track.frame_count(),
            None => 0,
        };
        self.cursor_frame = if cursor_frame < max_frame {
            cursor_frame
        } else {
            max_frame
        };
    }
}

/// The state of playback at one moment.
#[derive(Clone, Debug)]
pub struct PlaybackSnapshot {
    /// What the transport is doing.
    pub transport: TransportState,
    /// The position in seconds.
    pub position_seconds: Single,
    /// The track's length.
    pub duration: Duration,
    /// The fader position.
    pub volume: Single,
    /// Whether a track is loaded.
    pub has_track: bool,
}

impl PlaybackSnapshot {
    /// Nothing loaded: what is shown where there is no audio device.
    pub fn idle() -> (r: PlaybackSnapshot)
        ensures
            r == (PlaybackSnapshot {
                transport: TransportState::Stopped,
                position_seconds: Single::zero(),
                duration: of_nanos(0),
                volume: Single::one(),
                has_track: false,
            }),
    {
        PlaybackSnapshot {
            transport: TransportState::Stopped,
            position_seconds: Single::zero(),
            duration: Duration::zero(),
            volume: Single::one(),
            has_track: false,
        }
    }
}

/// Peak and clip readings of the output since they were last read.
#[derive(Clone, Copy, Debug)]
pub struct VizLevels {
    /// The largest absolute sample, before the output is held to full scale.
    pub peak: Single,
    /// Whether any sample passed full scale.
    pub clipped: bool,
}

impl Default for VizLevels {
    /// Nothing heard.
    fn default() -> (r: VizLevels)
        ensures
            r == quiet(),
    {
        VizLevels { peak: Single::zero(), clipped: false }
    }
}

/// Mono output samples kept for the spectrum: as many as its transform takes.
pub const VIZ_RING: usize = 2048;

/// What the tap holds: the latest samples, the oldest first, and the readings.
pub ghost struct TapView {
    /// The latest samples, the oldest first.
    pub recent: Seq<Single>,
    /// The readings.
    pub levels: VizLevels,
}

impl TapView {
    /// One more sample: the oldest leaves.
    pub open spec fn pushed(self, mono: Single, frame_peak: Single) -> TapView {
        TapView {
            recent: self.recent.drop_first().push(mono),
            levels: VizLevels {
                peak: self.levels.peak.max(frame_peak),
                clipped: self.levels.clipped || Single::one().less(frame_peak),
            },
        }
    }
}

/// Nothing heard yet, or nothing since the readings were taken.
pub open spec fn quiet() -> VizLevels {
    VizLevels { peak: Single::zero(), clipped: false }
}

/// The tap between the audio output and the visualizers.
///
/// The output writes the final mono mix into a ring and follows peak and clipping; a reader
/// takes the ring and the readings.
#[derive(Debug)]
pub struct VizTap {
    ring: Vec<Single>,
    write: usize,
    peak: Single,
    clipped: bool,
}

impl VizTap {
    /// The write position lies in the ring.
    pub closed spec fn wf(self) -> bool {
        self.ring@.len() == VIZ_RING && self.write < VIZ_RING
    }

    /// What the tap holds.
    pub closed spec fn view(self) -> TapView {
        TapView {
            recent: self.ring@.skip(self.write as int) + self.ring@.take(self.write as int),
            levels: VizLevels { peak: self.peak, clipped: self.clipped },
        }
    }

    /// A tap that has heard silence.
    pub fn new() -> (r: VizTap)
        ensures
            r.wf(),
            r@.recent == Seq::new(VIZ_RING as nat, |i: int| Single::zero()),
            r@.levels == quiet(),
    {
        let ring = silence(VIZ_RING);
        let r = VizTap { ring, write: 0, peak: Single::zero(), clipped: false };
        assert(r@.recent =~= Seq::new(VIZ_RING as nat, |i: int| Single::zero()));
        r
    }

    /// Hears one frame: its mono mix and its peak.
    pub fn push(&mut self, mono: Single, frame_peak: Single)
        requires
            old(self).wf(),
        ensures
            final(self).wf(),
            final(self)@ == old(self)@.pushed(mono, frame_peak),
    {
        self.ring.set(self.write, mono);
        self.write = if self.write + 1 == VIZ_RING {
            0
        } else {
            self.write + 1
        };
        self.peak = self.peak.max(frame_peak);
        self.clipped = self.clipped || Single::one().less(frame_peak);
        assert(self@.recent =~= old(self)@.recent.drop_first().push(mono));
    }

    /// Hands out the latest samples, the oldest first, and the readings, which start anew.
    pub fn drain(&mut self, out: &mut Vec<Single>) -> (r: VizLevels)
        requires
            old(self).wf(),
        ensures
            final(self).wf(),
            final(out)@ == old(self)@.recent,
            r == old(self)@.levels,
            final(self)@ == (TapView { recent: old(self)@.recent, levels: quiet() }),
    {
        out.clear();
        let mut i = self.write;
        while i < VIZ_RING
            invariant
                self.wf(),
                self.write <= i <= VIZ_RING,
                out@ == self.ring@.subrange(self.write as int, i as int),
            decreases VIZ_RING - i,
        {
            out.push(self.ring[i]);
            i = i + 1;
            assert(out@ =~= self.ring@.subrange(self.write as int, i as int));
        }
        assert(out@ =~= self.ring@.skip(self.write as int));
        let mut j: usize = 0;
        while j < self.write
            invariant
                self.wf(),
                j <= self.write,
                out@ == self.ring@.skip(self.write as int) + self.ring@.take(j as int),
            decreases self.write - j,
        {
            out.push(self.ring[j]);
            j = j + 1;
            assert(out@ =~= self.ring@.skip(self.write as int) + self.ring@.take(j as int));
        }
        let levels = VizLevels { peak: self.peak, clipped: self.clipped };
        self.peak = Single::zero();
        self.clipped = false;
        levels
    }
}

/// A number of silent samples.
pub fn silence(count: usize) -> (r: Vec<Single>)
    ensures
        r@ == Seq::new(count as nat, |i: int| Single::zero()),
{
    let mut out: Vec<Single> = Vec::new();
    let mut i: usize = 0;
    while i < count
        invariant
            i <= count,
            out@ == Seq::new(i as nat, |j: int| Single::zero()),
        decreases count - i,
    {
        out.push(Single::zero());
        i = i + 1;
        assert(out@ =~= Seq::new(i as nat, |j: int| Single::zero()));
    }
    out
}

/// A sample held to full scale.
pub open spec fn full_scale(sample: Single) -> Single {
    sample.clamp(Single::one().negated(), Single::one())
}

/// Holds a sample to full scale.
fn hold_to_full_scale(sample: Single) -> (r: Single)
    ensures
        r == full_scale(sample),
{
    let one = Single::one();
    let minus_one = one.negated();
    proof {
        reveal(Single::spec_negated);
        reveal(Single::spec_at_most);
    }
    sample.clamp(minus_one, one)
}

/// What one call for output has to play.
#[derive(Debug)]
pub enum Rendered {
    /// Nothing plays.
    Silence,
    /// Whole frames of the track, at the fader's gain.
    Frames {
        /// The frames, interleaved.
        samples: Vec<Single>,
        /// Whether the equalizer's filters start anew with these frames.
        rebuilt: bool,
    },
}

/// The state that the audio output and the interface share.
#[derive(Debug)]
pub struct EngineShared {
    playback: PlaybackState,
    eq_settings: EqSettings,
    eq_processor: EqProcessor,
    output_channels: usize,
    viz: VizTap,
}

/// The frames that a number of output samples takes, the last one perhaps in part.
pub open spec fn frames_for(output_len: nat, channels: usize) -> nat {
    if output_len == 0 {
        0
    } else {
        ((output_len - 1) / (channels as int) + 1) as nat
    }
}

/// The frames of a track from the cursor on that a number of output samples takes.
pub open spec fn frames_to_play(playback: PlaybackState, output_len: nat, channels: usize) -> nat {
    let wanted = frames_for(output_len, channels);
    let left = match playback.spec_track() {
        Some(track) => (track.frames() - playback.spec_cursor()) as nat,
        None => 0,
    };
    if wanted < left {
        wanted
    } else {
        left
    }
}

/// The output of one call: frames held to full scale, and silence after them.
pub open spec fn emitted(frames: Seq<Single>, output_len: nat) -> Seq<Single> {
    Seq::new(
        output_len,
        |i: int| if i < frames.len() { full_scale(frames[i]) } else { Single::zero() },
    )
}

/// The mono mix of a frame.
pub open spec fn mono_of(frame: Seq<Single>, channels: usize) -> Single {
    added(Single::zero(), frame).over(whole(channels as nat))
}

/// What the tap holds after it has heard the first `count` frames.
pub open spec fn heard(tap: TapView, frames: Seq<Single>, channels: usize, count: nat) -> TapView
    decreases count,
{
    if count == 0 {
        tap
    } else {
        let frame = frames.subrange((count - 1) * channels, count * channels);
        heard(tap, frames, channels, (count - 1) as nat).pushed(
            mono_of(frame, channels),
            loudest(frame),
        )
    }
}

impl EngineShared {
    /// The parts are sound, and a track has a sample for each output channel of each frame.
    pub closed spec fn wf(self) -> bool {
        &&& self.playback.wf()
        &&& self.eq_processor.wf()
        &&& self.eq_processor.spec_channels() == self.output_channels
        &&& self.viz.wf()
        &&& self.playback.spec_track() matches Some(track) ==> track.frames() * self.output_channels
            <= track.samples@.len()
    }

    /// Track, cursor, transport and fader.
    pub closed spec fn spec_playback(self) -> PlaybackState {
        self.playback
    }

    /// The settings that the interface asks for.
    pub closed spec fn spec_eq_settings(self) -> EqSettings {
        self.eq_settings
    }

    /// The equalizer.
    pub closed spec fn spec_eq_processor(self) -> EqProcessor {
        self.eq_processor
    }

    /// The channels of the output.
    pub closed spec fn spec_output_channels(self) -> usize {
        self.output_channels
    }

    /// What the visualizer tap holds.
    pub closed spec fn spec_viz(self) -> TapView {
        self.viz@
    }

    /// All but the playback is as it was.
    pub open spec fn only_playback_moved(self, after: EngineShared) -> bool {
        &&& after.wf()
        &&& after.spec_eq_settings() == self.spec_eq_settings()
        &&& after.spec_eq_processor() == self.spec_eq_processor()
        &&& after.spec_output_channels() == self.spec_output_channels()
        &&& after.spec_viz() == self.spec_viz()
    }

    /// Whether anything plays.
    pub open spec fn plays(self) -> bool {
        self.spec_playback().spec_track() is Some && self.spec_playback().spec_transport()
            == TransportState::Playing
    }

    /// The state of a new output stream.
    pub fn new(sample_rate: u32, output_channels: usize) -> (r: EngineShared)
        requires
            sample_rate >= LEAST_EQ_RATE,
        ensures
            r.wf(),
            r.spec_playback().spec_track() is None,
            r.spec_playback().spec_cursor() == 0,
            r.spec_playback().spec_transport() == TransportState::Stopped,
            r.spec_playback().spec_volume() == Single::one(),
            r.spec_eq_settings().spec_enabled(),
            r.spec_eq_settings().gains() == flat(),
            r.spec_eq_processor().spec_settings() == r.spec_eq_settings(),
            r.spec_eq_processor().spec_sample_rate() == sample_rate,
            r.spec_output_channels() == output_channels,
            r.spec_viz().recent == Seq::new(VIZ_RING as nat, |i: int| Single::zero()),
            r.spec_viz().levels == quiet(),
    {
        let eq_settings = EqSettings::default();
        EngineShared {
            playback: PlaybackState::default(),
            eq_settings,
            eq_processor: EqProcessor::new(sample_rate, output_channels, eq_settings),
            output_channels,
            viz: VizTap::new(),
        }
    }

    /// The state of playback at this moment.
    pub fn snapshot(&self) -> (r: PlaybackSnapshot)
        requires
            self.wf(),
        ensures
            r == (PlaybackSnapshot {
                transport: self.spec_playback().spec_transport(),
                position_seconds: self.spec_playback().position(),
                duration: self.spec_playback().length(),
                volume: self.spec_playback().spec_volume(),
                has_track: self.spec_playback().spec_track() is Some,
            }),
    {
        PlaybackSnapshot {
            transport: self.playback.transport(),
            position_seconds: self.playback.position_seconds(),
            duration: self.playback.duration(),
            volume: self.playback.volume(),
            has_track: self.playback.track.is_some(),
        }
    }

    /// Whether a track can be loaded: it has a sample for each output channel of each frame.
    pub fn can_load(&self, track: &PlaybackBuffer) -> (r: bool)
        ensures
            r == (track.wf() && track.frames() * self.spec_output_channels()
                <= track.samples@.len()),
    {
        let len = track.samples.len();
        let frames = track.frame_count();
        if len as u64 > 0x7fff_ffff_ffff_ffff {
            return false;
        }
        match frames.checked_mul(self.output_channels) {
            Some(needed) => needed <= len,
            None => false,
        }
    }

    /// Loads a track.
    pub fn load(&mut self, track: PlaybackBuffer)
        requires
            old(self).wf(),
            track.wf(),
            track.frames() * old(self).spec_output_channels() <= track.samples@.len(),
        ensures
            old(self).only_playback_moved(*final(self)),
            final(self).spec_playback().spec_track() == Some(track),
            final(self).spec_playback().spec_cursor() == 0,
            final(self).spec_playback().spec_transport() == TransportState::Stopped,
            final(self).spec_playback().spec_volume() == old(self).spec_playback().spec_volume(),
    {
        self.playback.load(Arc::new(track));
    }

    /// Plays the track, if there is one.
    pub fn play(&mut self)
        requires
            old(self).wf(),
        ensures
            old(self).only_playback_moved(*final(self)),
            old(self).spec_playback().moved_transport(
                final(self).spec_playback(),
                old(self).spec_playback().after_play(),
            ),
    {
        self.playback.play();
    }

    /// Pauses what plays.
    pub fn pause(&mut self)
        requires
            old(self).wf(),
        ensures
            old(self).only_playback_moved(*final(self)),
            old(self).spec_playback().moved_transport(
                final(self).spec_playback(),
                old(self).spec_playback().after_pause(),
            ),
    {
        self.playback.pause();
    }

    /// Pauses what plays, and plays what does not.
    pub fn toggle_playback(&mut self)
        requires
            old(self).wf(),
        ensures
            old(self).only_playback_moved(*final(self)),
            old(self).spec_playback().moved_transport(
                final(self).spec_playback(),
                old(self).spec_playback().after_toggle(),
            ),
    {
        self.playback.toggle_playback();
    }

    /// Moves to a position in seconds.
    pub fn seek_seconds(&mut self, seconds: Single)
        requires
            old(self).wf(),
        ensures
            old(self).only_playback_moved(*final(self)),
            old(self).spec_playback().moved_cursor(final(self).spec_playback()),
            final(self).spec_playback().spec_cursor() == old(self).spec_playback().sought(seconds),
    {
        self.playback.seek_seconds(seconds);
    }

    /// Moves by a number of seconds.
    pub fn skip_seconds(&mut self, seconds: Single)
        requires
            old(self).wf(),
        ensures
            old(self).only_playback_moved(*final(self)),
            old(self).spec_playback().moved_cursor(final(self).spec_playback()),
            final(self).spec_playback().spec_cursor() == old(self).spec_playback().sought(
                old(self).spec_playback().position().plus(seconds),
            ),
    {
        self.playback.skip_seconds(seconds);
    }

    /// Moves the fader.
    pub fn set_volume(&mut self, volume: Single)
        requires
            old(self).wf(),
        ensures
            old(self).only_playback_moved(*final(self)),
            final(self).spec_playback().spec_track() == old(self).spec_playback().spec_track(),
            final(self).spec_playback().spec_cursor() == old(self).spec_playback().spec_cursor(),
            final(self).spec_playback().spec_transport() == old(
                self,
            ).spec_playback().spec_transport(),
            final(self).spec_playback().spec_volume() == volume.clamp(Single::zero(), Single::one()),
    {
        self.playback.set_volume(volume);
    }

    /// The power of ten that the fader's gain takes.
    pub fn gain_exponent(&self) -> (r: Single)
        ensures
            r == taper_exponent(self.spec_playback().spec_volume()),
    {
        self.playback.gain_exponent()
    }

    /// The fader's gain, where `taper` is ten to the power of [`EngineShared::gain_exponent`].
    pub fn gain(&self, taper: Single) -> (r: Single)
        ensures
            r == fader_gain(self.spec_playback().spec_volume(), taper),
    {
        self.playback.gain(taper)
    }

    /// Hands out what the visualizers need.
    pub fn drain_viz(&mut self, out: &mut Vec<Single>) -> (r: VizLevels)
        requires
            old(self).wf(),
        ensures
            final(self).wf(),
            final(self).spec_playback() == old(self).spec_playback(),
            final(self).spec_eq_settings() == old(self).spec_eq_settings(),
            final(self).spec_eq_processor() == old(self).spec_eq_processor(),
            final(self).spec_output_channels() == old(self).spec_output_channels(),
            final(self).spec_viz() == (TapView {
                recent: old(self).spec_viz().recent,
                levels: quiet(),
            }),
            final(out)@ == old(self).spec_viz().recent,
            r == old(self).spec_viz().levels,
    {
        self.viz.drain(out)
    }

    /// The settings that the interface asked for.
    pub fn eq_settings(&self) -> (r: EqSettings)
        ensures
            r == self.spec_eq_settings(),
    {
        self.eq_settings
    }

    /// Takes on equalizer settings at once; tells whether the filters start anew.
    pub fn set_eq_settings(&mut self, settings: EqSettings) -> (rebuilt: bool)
        requires
            old(self).wf(),
        ensures
            final(self).wf(),
            final(self).spec_playback() == old(self).spec_playback(),
            final(self).spec_output_channels() == old(self).spec_output_channels(),
            final(self).spec_viz() == old(self).spec_viz(),
            final(self).spec_eq_settings() == settings,
            rebuilt == !old(self).spec_eq_processor().spec_settings().same_settings(settings),
            rebuilt ==> final(self).spec_eq_processor().spec_settings() == settings,
            !rebuilt ==> final(self).spec_eq_processor().spec_settings() == old(
                self,
            ).spec_eq_processor().spec_settings(),
            final(self).spec_eq_processor().spec_sample_rate() == old(
                self,
            ).spec_eq_processor().spec_sample_rate(),
            as_asked(final(self).spec_eq_settings(), settings),
            as_asked(final(self).spec_eq_processor().spec_settings(), settings),
    {
        self.eq_settings = settings;
        self.eq_processor.update_settings(settings)
    }

    /// The equalizer.
    pub fn eq_processor(&self) -> (r: &EqProcessor)
        requires
            self.wf(),
        ensures
            *r == self.spec_eq_processor(),
            r.wf(),
            r.spec_channels() == self.spec_output_channels(),
    {
        &self.eq_processor
    }
}

impl EngineShared {
    /// Takes the frames that `output_len` output samples need off the track, at the fader's
    /// gain. Past the end of the track the transport stops.
    ///
    /// The frames then go through the equalizer's filters, and from there to
    /// [`EngineShared::emit`].
    pub fn render(&mut self, output_len: usize, gain: Single) -> (r: Rendered)
        requires
            old(self).wf(),
            old(self).plays() ==> old(self).spec_output_channels() > 0,
        ensures
            final(self).wf(),
            final(self).spec_viz() == old(self).spec_viz(),
            final(self).spec_output_channels() == old(self).spec_output_channels(),
            final(self).spec_eq_settings() == old(self).spec_eq_settings(),
            final(self).spec_playback().spec_volume() == old(self).spec_playback().spec_volume(),
            final(self).spec_playback().spec_track() == old(self).spec_playback().spec_track(),
            r is Silence <==> !old(self).plays(),
            r is Silence ==> *final(self) == *old(self),
            r matches Rendered::Frames { samples, rebuilt } ==> {
                let before = old(self).spec_playback();
                let after = final(self).spec_playback();
                let channels = old(self).spec_output_channels();
                let count = frames_to_play(before, output_len as nat, channels);
                let track = before.spec_track()->0;
                let eq = old(self).spec_eq_processor();
                &&& samples@ == Seq::new(
                    count * channels as nat,
                    |i: int| track.samples@[before.spec_cursor() * channels + i].times(gain),
                )
                &&& after.spec_cursor() == before.spec_cursor() + count
                &&& after.spec_transport() == if count < frames_for(output_len as nat, channels) {
                    TransportState::Stopped
                } else {
                    TransportState::Playing
                }
                &&& rebuilt == (count > 0 && !eq.spec_settings().same_settings(
                    old(self).spec_eq_settings(),
                ))
                &&& final(self).spec_eq_processor().spec_settings() == if rebuilt {
                    old(self).spec_eq_settings()
                } else {
                    eq.spec_settings()
                }
                &&& final(self).spec_eq_processor().spec_sample_rate() == eq.spec_sample_rate()
            },
            r matches Rendered::Frames { samples, rebuilt } ==> {
                let before = old(self).spec_playback();
                let after = final(self).spec_playback();
                let channels = old(self).spec_output_channels();
                let frames = (before.spec_track()->0).frames();
                &&& before.spec_cursor() * channels + samples@.len() == after.spec_cursor() * channels
                &&& after.spec_cursor() < frames ==> output_len <= samples@.len()
                    && after.spec_transport() == TransportState::Playing
                &&& samples@.len() < output_len ==> after.spec_cursor() == frames
                    && after.spec_transport() == TransportState::Stopped
                &&& samples@.len() < output_len + channels
                &&& as_asked(
                    final(self).spec_eq_processor().spec_settings(),
                    old(self).spec_eq_settings(),
                ) || samples@.len() == 0
                &&& forall|i: int|
                    0 <= i < samples@.len() ==> is_scaled(
                        #[trigger] samples@[i],
                        (before.spec_track()->0).samples@[before.spec_cursor() * channels + i],
                        gain,
                    )
            },
    {
        proof {
            if self.plays() {
                self.playback.lemma_wf();
                law_output_is_covered(self.playback, output_len as nat, self.output_channels);
                law_alike_settings_agree(self.eq_processor.settings, self.eq_settings);
            }
        }
        let track = match &self.playback.track {
            Some(track) => Arc::clone(track),
            None => {
                return Rendered::Silence;
            },
        };
        if self.playback.transport != TransportState::Playing {
            return Rendered::Silence;
        }
        let channels = self.output_channels;
        let cursor = self.playback.cursor_frame;
        let frames = track.frame_count();
        let total = track.samples.len();
        let wanted: usize = if output_len == 0 {
            0
        } else {
            (output_len - 1) / channels + 1
        };
        let left = frames - cursor;
        let count = if wanted < left {
            wanted
        } else {
            left
        };
        proof {
            lemma_frame_range(cursor as int, count as int, frames as int, channels as int);
            assert(total == track.samples@.len());
        }
        let offset = cursor * channels;
        let samples = scaled(&track.samples, offset, count * channels, gain);
        if wanted > left {
            self.playback.transport = TransportState::Stopped;
        }
        self.playback.cursor_frame = cursor + count;
        let mut rebuilt = false;
        if count > 0 {
            rebuilt = self.eq_processor.update_settings(self.eq_settings);
        }
        proof {
            let (a, n, c, w) = (cursor as int, count as int, channels as int, wanted as int);
            assert(a * c + n * c == (a + n) * c) by (nonlinear_arith);
            assert((n - 1) * c == n * c - c) by (nonlinear_arith);
            assert(n < w ==> n * c < w * c) by (nonlinear_arith)
                requires
                    c > 0,
            ;
            assert(n >= w ==> n * c >= w * c) by (nonlinear_arith)
                requires
                    c > 0,
            ;
            assert(n > 0 ==> n * c > 0) by (nonlinear_arith)
                requires
                    c > 0,
            ;
            assert(0 * c == 0);
            assert forall|i: int| 0 <= i < samples@.len() implies is_scaled(
                #[trigger] samples@[i],
                track.samples@[offset + i],
                gain,
            ) by {
                law_gain_scales(track.samples@[offset + i], gain);
            }
        }
        Rendered::Frames { samples, rebuilt }
    }

    /// The output of one call: the frames as they left the equalizer, held to full scale, and
    /// silence after them: nothing but silence where there are no frames. The visualizer tap
    /// hears each frame before it is held.
    pub fn emit(&mut self, frames: &Vec<Single>, output_len: usize) -> (r: Vec<Single>)
        requires
            old(self).wf(),
        ensures
            final(self).wf(),
            final(self).spec_playback() == old(self).spec_playback(),
            final(self).spec_eq_settings() == old(self).spec_eq_settings(),
            final(self).spec_eq_processor() == old(self).spec_eq_processor(),
            final(self).spec_output_channels() == old(self).spec_output_channels(),
            final(self).spec_viz() == heard(
                old(self).spec_viz(),
                frames@,
                old(self).spec_output_channels(),
                frames_in(frames@.len(), old(self).spec_output_channels()),
            ),
            r@ == emitted(frames@, output_len as nat),
    {
        let channels = self.output_channels;
        let total = frames.len();
        let count = if channels == 0 {
            0
        } else {
            total / channels
        };
        let mut frame: usize = 0;
        while frame < count
            invariant
                frame <= count,
                count > 0 ==> channels > 0,
                total == frames@.len(),
                count == frames_in(frames@.len(), channels),
                channels == self.output_channels == old(self).spec_output_channels(),
                self.wf(),
                self.playback == old(self).spec_playback(),
                self.eq_settings == old(self).spec_eq_settings(),
                self.eq_processor == old(self).spec_eq_processor(),
                self.viz@ == heard(old(self).spec_viz(), frames@, channels, frame as nat),
            decreases count - frame,
        {
            proof {
                lemma_frame_in(frame as int, frames@.len() as int, channels as int);
            }
            let from = frame * channels;
            let to = from + channels;
            let mono = add_range(Single::zero(), frames, from, to).over(
                Single::of_word(channels as u64),
            );
            let peak = loudest_range(frames, from, to);
            self.viz.push(mono, peak);
            frame = frame + 1;
        }
        let mut out: Vec<Single> = Vec::new();
        let mut i: usize = 0;
        while i < output_len
            invariant
                i <= output_len,
                out@.len() == i,
                forall|j: int|
                    0 <= j < i ==> out@[j] == if j < frames@.len() {
                        full_scale(frames@[j])
                    } else {
                        Single::zero()
                    },
            decreases output_len - i,
        {
            if i < frames.len() {
                out.push(hold_to_full_scale(frames[i]));
            } else {
                out.push(Single::zero());
            }
            i = i + 1;
        }
        assert(out@ =~= emitted(frames@, output_len as nat));
        out
    }
}

/// The frames from a cursor on lie within the samples.
proof fn lemma_frame_range(cursor: int, count: int, frames: int, channels: int)
    requires
        0 <= cursor,
        0 <= count,
        cursor + count <= frames,
        channels > 0,
    ensures
        cursor * channels + count * channels <= frames * channels,
        0 <= cursor * channels,
        0 <= count * channels,
{
    assert(cursor * channels + count * channels <= frames * channels) by (nonlinear_arith)
        requires
            cursor + count <= frames,
            channels > 0,
    ;
    assert(0 <= cursor * channels) by (nonlinear_arith)
        requires
            0 <= cursor,
            channels > 0,
    ;
    assert(0 <= count * channels) by (nonlinear_arith)
        requires
            0 <= count,
            channels > 0,
    ;
}

/// A frame lies within its samples.
pub(crate) proof fn lemma_frame_in(frame: int, len: int, channels: int)
    requires
        0 <= frame < len / channels,
        channels > 0,
    ensures
        0 <= frame * channels,
        frame * channels + channels <= len,
        (frame + 1) * channels == frame * channels + channels,
{
    assert((frame + 1) * channels <= len) by (nonlinear_arith)
        requires
            frame + 1 <= len / channels,
            channels > 0,
    ;
    assert((frame + 1) * channels == frame * channels + channels) by (nonlinear_arith);
    assert(0 <= frame * channels) by (nonlinear_arith)
        requires
            0 <= frame,
            channels > 0,
    ;
}

/// A run of samples at a gain.
fn scaled(samples: &[Single], offset: usize, count: usize, gain: Single) -> (r: Vec<Single>)
    requires
        offset + count <= samples@.len(),
    ensures
        r@ == Seq::new(count as nat, |i: int| samples@[offset + i].times(gain)),
{
    let total = samples.len();
    let mut out: Vec<Single> = Vec::new();
    let mut i: usize = 0;
    while i < count
        invariant
            i <= count,
            offset + count <= total == samples@.len(),
            out@.len() == i,
            forall|j: int| 0 <= j < i ==> out@[j] == samples@[offset + j].times(gain),
        decreases count - i,
    {
        out.push(samples[offset + i].times(gain));
        i = i + 1;
    }
    assert(out@ =~= Seq::new(count as nat, |i: int| samples@[offset + i].times(gain)));
    out
}

/// Bits of 32767: the largest 16-bit signed sample.
pub const PCM_SIGNED: u32 = 0x46ff_fe00;

/// Bits of 65535: the largest 16-bit unsigned sample.
pub const PCM_UNSIGNED: u32 = 0x477f_ff00;

/// A sample as a signed 16-bit one: scaled, and cut off towards zero.
pub open spec fn pcm_signed(sample: Single) -> int {
    let scaled = full_scale(sample).times(Single { bits: PCM_SIGNED });
    if scaled.less(Single::zero()) {
        let below = scaled.negated().to_word();
        if below < 32768 {
            -(below as int)
        } else {
            -32768
        }
    } else {
        let above = scaled.to_word();
        if above < 32767 {
            above as int
        } else {
            32767
        }
    }
}

/// A sample as an unsigned 16-bit one: full scale from zero up, cut off.
pub open spec fn pcm_unsigned(sample: Single) -> int {
    let half = Single { bits: HALF };
    let above = full_scale(sample).times(half).plus(half).times(
        Single { bits: PCM_UNSIGNED },
    ).to_word();
    if above < 65535 {
        above as int
    } else {
        65535
    }
}

/// Output samples for a device that takes signed 16-bit ones.
pub fn fill_output_i16(samples: &[Single]) -> (r: Vec<i16>)
    ensures
        r@.len() == samples@.len(),
        forall|i: int| 0 <= i < samples@.len() ==> #[trigger] r@[i] == pcm_signed(samples@[i]),
{
    let mut out: Vec<i16> = Vec::new();
    let mut i: usize = 0;
    while i < samples.len()
        invariant
            i <= samples@.len(),
            out@.len() == i,
            forall|j: int| 0 <= j < i ==> #[trigger] out@[j] == pcm_signed(samples@[j]),
        decreases samples@.len() - i,
    {
        let scaled = hold_to_full_scale(samples[i]).times(Single::from_bits(PCM_SIGNED));
        let value: i16 = if scaled.less(Single::zero()) {
            let below = scaled.negated().to_word();
            if below < 32768 {
                (0 - below as i64) as i16
            } else {
                -32768
            }
        } else {
            let above = scaled.to_word();
            if above < 32767 {
                above as i16
            } else {
                32767
            }
        };
        out.push(value);
        i = i + 1;
    }
    out
}

/// Output samples for a device that takes unsigned 16-bit ones.
pub fn fill_output_u16(samples: &[Single]) -> (r: Vec<u16>)
    ensures
        r@.len() == samples@.len(),
        forall|i: int| 0 <= i < samples@.len() ==> #[trigger] r@[i] == pcm_unsigned(samples@[i]),
{
    let half = Single::from_bits(HALF);
    let mut out: Vec<u16> = Vec::new();
    let mut i: usize = 0;
    while i < samples.len()
        invariant
            i <= samples@.len(),
            out@.len() == i,
            half == (Single { bits: HALF }),
            forall|j: int| 0 <= j < i ==> #[trigger] out@[j] == pcm_unsigned(samples@[j]),
        decreases samples@.len() - i,
    {
        let above = hold_to_full_scale(samples[i]).times(half).plus(half).times(
            Single::from_bits(PCM_UNSIGNED),
        ).to_word();
        let value: u16 = if above < 65535 {
            above as u16
        } else {
            65535
        };
        out.push(value);
        i = i + 1;
    }
    out
}

/// Why audio could not be made ready to play.
#[derive(Debug)]
pub enum AudioProcessError {
    /// A frame has no samples.
    InvalidChannels,
    /// The samples do not make whole frames.
    InvalidInterleavedLength,
    /// The rate conversion failed, and says why.
    Resample(String),
}

/// The text of an error with its cause.
pub open spec fn caused(prefix: Seq<char>, cause: Seq<char>) -> Seq<char> {
    prefix + cause
}

impl AudioProcessError {
    /// The error in words.
    pub open spec fn words(self) -> Seq<char> {
        match self {
            AudioProcessError::InvalidChannels => "Channel count must be greater than zero"@,
            AudioProcessError::InvalidInterleavedLength =>
                "Audio buffer length is not divisible by channel count"@,
            AudioProcessError::Resample(cause) => caused("Could not resample audio: "@, cause@),
        }
    }

    /// The error in words.
    pub fn message(&self) -> (r: String)
        ensures
            r@ == self.words(),
    {
        match self {
            AudioProcessError::InvalidChannels => "Channel count must be greater than zero".to_owned(),
            AudioProcessError::InvalidInterleavedLength => {
                "Audio buffer length is not divisible by channel count".to_owned()
            },
            AudioProcessError::Resample(cause) => {
                let mut text = "Could not resample audio: ".to_owned();
                text.append(cause.as_str());
                text
            },
        }
    }
}

/// Why there is no audio output.
#[derive(Debug)]
pub enum AudioEngineError {
    /// The system has no output device.
    NoOutputDevice,
    /// The audio system failed, and says why.
    Cpal(String),
    /// The device takes samples of a kind that is not written.
    UnsupportedSampleFormat(String),
}

impl AudioEngineError {
    /// The error in words.
    pub open spec fn words(self) -> Seq<char> {
        match self {
            AudioEngineError::NoOutputDevice => "No default Windows output device is available"@,
            AudioEngineError::Cpal(cause) => caused("Audio output error: "@, cause@),
            AudioEngineError::UnsupportedSampleFormat(format) => caused(
                "Unsupported output sample format: "@,
                format@,
            ),
        }
    }

    /// The error in words.
    pub fn message(&self) -> (r: String)
        ensures
            r@ == self.words(),
    {
        match self {
            AudioEngineError::NoOutputDevice => {
                "No default Windows output device is available".to_owned()
            },
            AudioEngineError::Cpal(cause) => {
                let mut text = "Audio output error: ".to_owned();
                text.append(cause.as_str());
                text
            },
            AudioEngineError::UnsupportedSampleFormat(format) => {
                let mut text = "Unsupported output sample format: ".to_owned();
                text.append(format.as_str());
                text
            },
        }
    }
}

/// The kind of samples that a device takes.
#[derive(Debug)]
pub enum DeviceFormat {
    /// Single precision.
    Float,
    /// Signed, in 16 bits.
    Signed,
    /// Unsigned, in 16 bits.
    Unsigned,
    /// Another kind, by its name.
    Other(String),
}

/// A kind of samples that is written.
#[derive(Clone, Copy, Debug, PartialEq, Eq, Structural)]
pub enum OutputFormat {
    /// Single precision.
    Float,
    /// Signed, in 16 bits.
    Signed,
    /// Unsigned, in 16 bits.
    Unsigned,
}

/// The kind of samples to write for a device, or the error where its kind is not written.
pub fn output_format(device: DeviceFormat) -> (r: Result<OutputFormat, AudioEngineError>)
    ensures
        match device {
            DeviceFormat::Float => r == Ok::<_, AudioEngineError>(OutputFormat::Float),
            DeviceFormat::Signed => r == Ok::<_, AudioEngineError>(OutputFormat::Signed),
            DeviceFormat::Unsigned => r == Ok::<_, AudioEngineError>(OutputFormat::Unsigned),
            DeviceFormat::Other(name) => r == Err::<OutputFormat, _>(
                AudioEngineError::UnsupportedSampleFormat(name),
            ),
        },
{
    match device {
        DeviceFormat::Float => Ok(OutputFormat::Float),
        DeviceFormat::Signed => Ok(OutputFormat::Signed),
        DeviceFormat::Unsigned => Ok(OutputFormat::Unsigned),
        DeviceFormat::Other(name) => Err(AudioEngineError::UnsupportedSampleFormat(name)),
    }
}

/// One sample of the remixed output.
pub open spec fn remixed_sample(
    samples: Seq<Single>,
    input_channels: usize,
    output_channels: usize,
    i: int,
) -> Single {
    let frame = i / (output_channels as int);
    let channel = i % (output_channels as int);
    let from = frame * input_channels;
    if output_channels == 1 {
        added(sum_start(), samples.subrange(from, from + input_channels)).over(
            whole(input_channels as nat),
        )
    } else if channel < input_channels {
        samples[from + channel]
    } else {
        samples[from + input_channels - 1]
    }
}

/// Frames of one width as frames of another: to mono by the average, from mono by repeating
/// it, else channel by channel, the last one repeated.
pub open spec fn remixed(
    samples: Seq<Single>,
    input_channels: usize,
    output_channels: usize,
) -> Seq<Single> {
    if input_channels == 0 || output_channels == 0 {
        Seq::empty()
    } else if input_channels == output_channels {
        samples
    } else {
        Seq::new(
            frames_in(samples.len(), input_channels) * output_channels as nat,
            |i: int| remixed_sample(samples, input_channels, output_channels, i),
        )
    }
}

/// A copy of samples.
fn copied(samples: &[Single]) -> (r: Vec<Single>)
    ensures
        r@ == samples@,
{
    let mut out: Vec<Single> = Vec::new();
    let mut i: usize = 0;
    while i < samples.len()
        invariant
            i <= samples@.len(),
            out@ == samples@.take(i as int),
        decreases samples@.len() - i,
    {
        out.push(samples[i]);
        i = i + 1;
        assert(out@ =~= samples@.take(i as int));
    }
    assert(samples@.take(samples@.len() as int) =~= samples@);
    out
}

/// Turns frames of one width into frames of another.
pub fn remix_channels(samples: &[Single], input_channels: usize, output_channels: usize) -> (r:
    Vec<Single>)
    requires
        frames_in(samples@.len(), input_channels) * output_channels <= usize::MAX,
    ensures
        r@ == remixed(samples@, input_channels, output_channels),
        output_channels > 1 && input_channels > 0 ==> forall|frame: int, channel: int|
            0 <= frame < frames_in(samples@.len(), input_channels) && 0 <= channel < output_channels
                ==> #[trigger] r@[frame * output_channels + channel] == samples@[frame
                * input_channels + if channel < input_channels {
                channel
            } else {
                input_channels - 1
            }],
{
    proof {
        if output_channels > 1 && input_channels > 0 {
            assert forall|frame: int, channel: int|
                0 <= frame < frames_in(samples@.len(), input_channels) && 0 <= channel
                    < output_channels implies #[trigger] remixed(
                samples@,
                input_channels,
                output_channels,
            )[frame * output_channels + channel] == samples@[frame * input_channels + if channel
                < input_channels {
                channel
            } else {
                input_channels - 1
            }] by {
                law_remix_keeps_every_channel(
                    samples@,
                    input_channels,
                    output_channels,
                    frame,
                    channel,
                );
            }
        }
    }
    let total = samples.len();
    if total == 0 || input_channels == 0 || output_channels == 0 {
        let none: Vec<Single> = Vec::new();
        proof {
            if input_channels != 0 && output_channels != 0 {
                assert(0nat / (input_channels as nat) == 0) by (nonlinear_arith)
                    requires
                        input_channels > 0,
                ;
                assert(0 * output_channels as nat == 0);
                assert(samples@ =~= Seq::empty());
            }
        }
        assert(none@ =~= remixed(samples@, input_channels, output_channels));
        return none;
    }
    if input_channels == output_channels {
        return copied(samples);
    }
    let frame_count = total / input_channels;
    let mut out: Vec<Single> = Vec::new();
    let mut frame: usize = 0;
    while frame < frame_count
        invariant
            frame <= frame_count,
            0 < input_channels,
            0 < output_channels,
            total == samples@.len(),
            frame_count == frames_in(samples@.len(), input_channels),
            frame_count * output_channels <= usize::MAX,
            out@.len() == frame * output_channels,
            forall|j: int|
                0 <= j < out@.len() ==> out@[j] == remixed_sample(
                    samples@,
                    input_channels,
                    output_channels,
                    j,
                ),
        decreases frame_count - frame,
    {
        proof {
            lemma_frame_in(frame as int, total as int, input_channels as int);
            lemma_frame_range(frame as int, 1, frame_count as int, output_channels as int);
        }
        let from = frame * input_channels;
        if output_channels == 1 {
            let sum = add_range(sum_start(), samples, from, from + input_channels);
            out.push(sum.over(Single::of_word(input_channels as u64)));
        } else {
            let mut channel: usize = 0;
            while channel < output_channels
                invariant
                    frame < frame_count,
                    channel <= output_channels,
                    0 < input_channels,
                    1 < output_channels,
                    from == frame * input_channels,
                    from + input_channels <= total == samples@.len(),
                    out@.len() == frame * output_channels + channel,
                    forall|j: int|
                        0 <= j < out@.len() ==> out@[j] == remixed_sample(
                            samples@,
                            input_channels,
                            output_channels,
                            j,
                        ),
                decreases output_channels - channel,
            {
                let source = if channel < input_channels {
                    channel
                } else {
                    input_channels - 1
                };
                proof {
                    vstd::arithmetic::div_mod::lemma_fundamental_div_mod_converse(
                        out@.len() as int,
                        output_channels as int,
                        frame as int,
                        channel as int,
                    );
                }
                out.push(samples[from + source]);
                channel = channel + 1;
            }
        }
        frame = frame + 1;
        assert((frame - 1) * output_channels + output_channels == frame * output_channels)
            by (nonlinear_arith);
    }
    assert(out@ =~= remixed(samples@, input_channels, output_channels));
    out
}

/// What a rate conversion has to do.
#[derive(Clone, Copy, Debug, PartialEq, Eq, Structural)]
pub enum ResamplePlan {
    /// The rates agree: nothing.
    Unchanged,
    /// There are no samples: nothing.
    Empty,
    /// Convert this many frames, in chunks of this many.
    Convert {
        /// The frames to convert.
        input_frames: usize,
        /// The frames of a chunk.
        chunk_size: usize,
    },
}

/// A chunk of a conversion: all frames, but at least 16 and at most 4096.
pub open spec fn chunk_for(input_frames: nat) -> nat {
    if input_frames < 16 {
        16
    } else if input_frames > 4096 {
        4096
    } else {
        input_frames
    }
}

/// The samples make whole frames.
pub open spec fn is_interleaved(samples: nat, channels: usize) -> bool {
    samples % (channels as nat) == 0
}

/// Decides what a rate conversion has to do.
pub fn plan_resample(samples: usize, channels: usize, input_rate: u32, output_rate: u32) -> (r:
    Result<ResamplePlan, AudioProcessError>)
    ensures
        r is Err <==> channels == 0 || !is_interleaved(samples as nat, channels),
        r matches Err(error) ==> error == if channels == 0 {
            AudioProcessError::InvalidChannels
        } else {
            AudioProcessError::InvalidInterleavedLength
        },
        r matches Ok(plan) ==> plan == if input_rate == output_rate {
            ResamplePlan::Unchanged
        } else if samples == 0 {
            ResamplePlan::Empty
        } else {
            ResamplePlan::Convert {
                input_frames: (samples / channels) as usize,
                chunk_size: chunk_for((samples / channels) as nat) as usize,
            }
        },
        r matches Ok(ResamplePlan::Convert { input_frames, chunk_size }) ==> {
            &&& input_frames * channels == samples
            &&& 16 <= chunk_size <= 4096
            &&& 16 <= input_frames <= 4096 ==> chunk_size == input_frames
        },
        r matches Ok(plan) ==> (plan is Convert <==> input_rate != output_rate && samples > 0),
{
    if channels == 0 {
        return Err(AudioProcessError::InvalidChannels);
    }
    if samples % channels != 0 {
        return Err(AudioProcessError::InvalidInterleavedLength);
    }
    if input_rate == output_rate {
        return Ok(ResamplePlan::Unchanged);
    }
    if samples == 0 {
        return Ok(ResamplePlan::Empty);
    }
    let input_frames = samples / channels;
    proof {
        vstd::arithmetic::div_mod::lemma_fundamental_div_mod(samples as int, channels as int);
        assert(input_frames * channels == channels * input_frames) by (nonlinear_arith);
    }
    let chunk_size: usize = if input_frames < 16 {
        16
    } else if input_frames > 4096 {
        4096
    } else {
        input_frames
    };
    Ok(ResamplePlan::Convert { input_frames, chunk_size })
}

/// What a converter left: its output buffer and the frames it wrote, or why it failed.
pub type Conversion = Result<(Vec<Single>, usize), String>;

/// The samples at the output rate, once a converter has run as [`plan_resample`] asks. Where
/// nothing is to convert, `converted` is not looked at.
pub fn resample_interleaved(
    samples: &[Single],
    channels: usize,
    input_rate: u32,
    output_rate: u32,
    converted: Conversion,
) -> (r: Result<Vec<Single>, AudioProcessError>)
    requires
        converted matches Ok((output, frames)) ==> frames * channels <= usize::MAX,
    ensures
        channels == 0 ==> r == Err::<Vec<Single>, _>(AudioProcessError::InvalidChannels),
        channels > 0 && !is_interleaved(samples@.len(), channels) ==> r == Err::<Vec<Single>, _>(
            AudioProcessError::InvalidInterleavedLength,
        ),
        channels > 0 && is_interleaved(samples@.len(), channels) ==> {
            if input_rate == output_rate || samples@.len() == 0 {
                r matches Ok(same) && same@ == samples@
            } else {
                match converted {
                    Ok((output, frames)) => {
                        r matches Ok(out) && out@ == if frames * channels < output@.len() {
                            output@.take(frames * channels)
                        } else {
                            output@
                        }
                    },
                    Err(cause) => r == Err::<Vec<Single>, _>(AudioProcessError::Resample(cause)),
                }
            }
        },
        r matches Ok(out) ==> (input_rate != output_rate && samples@.len() > 0 ==> (
        converted matches Ok((output, frames)) && out@.is_prefix_of(output@) && out@.len() <= frames
            * channels && (out@.len() == output@.len() || out@.len() == frames * channels))),
{
    match plan_resample(samples.len(), channels, input_rate, output_rate) {
        Err(error) => Err(error),
        Ok(ResamplePlan::Unchanged) => Ok(copied(samples)),
        Ok(ResamplePlan::Empty) => {
            let none: Vec<Single> = Vec::new();
            assert(none@ =~= samples@);
            Ok(none)
        },
        Ok(ResamplePlan::Convert { .. }) => match converted {
            Ok((output, frames)) => {
                let mut output = output;
                assert(frames * channels >= 0) by (nonlinear_arith);
                output.truncate(frames * channels);
                Ok(output)
            },
            Err(cause) => Err(AudioProcessError::Resample(cause)),
        },
    }
}

} // verus!
