//! What holds of playback as a whole.
use crate::audio::{
    band_gain, emitted, fader_gain, flat, frames_in, frames_to_play, full_scale, heard, mono_of,
    remixed, taper_exponent, within_track, EqSettings, PlaybackState, TapView, TransportState,
    VizLevels, TAPER_REACH, TWELVE, VIZ_RING,
};
use crate::signal::{lemma_loudest, loudest};
use crate::single::{
    lemma_clamp_range, lemma_level_order, lemma_whole_level, lemma_whole_zero, lemma_zero_over,
    lemma_zero_times, lemma_zero_to_word, whole, Single,
};
use crate::time::Duration;
use vstd::prelude::*;

verus! {

/// Toggling twice gives back a transport that plays or waits, where it was.
pub proof fn law_toggle_twice(before: PlaybackState, between: PlaybackState, after: PlaybackState)
    requires
        before.spec_track() is Some,
        before.spec_transport() != TransportState::Stopped,
        before.moved_transport(between, before.after_toggle()),
        between.moved_transport(after, between.after_toggle()),
    ensures
        before.moved_transport(after, before.spec_transport()),
{
}

/// The transport does as it is told: where there is a track, playing always plays it, pausing never
/// does, and leaves alone what does not play; toggling plays exactly what does not play.
pub proof fn law_transport_obeys(state: PlaybackState)
    requires
        state.wf(),
        state.spec_track() is Some,
    ensures
        state.after_play() == TransportState::Playing,
        state.after_pause() != TransportState::Playing,
        state.spec_transport() == TransportState::Playing ==> state.after_pause()
            == TransportState::Paused,
        state.spec_transport() != TransportState::Playing ==> state.after_pause()
            == state.spec_transport(),
        state.after_toggle() == TransportState::Playing <==> state.spec_transport()
            != TransportState::Playing,
{
}

/// Nothing plays without a track.
pub proof fn law_only_a_track_plays(state: PlaybackState)
    requires
        state.wf(),
        state.spec_track() is None,
    ensures
        state.spec_transport() == TransportState::Stopped,
        state.after_play() == TransportState::Stopped,
        state.after_pause() == TransportState::Stopped,
        state.after_toggle() == TransportState::Stopped,
{
    state.lemma_wf();
}

/// Wherever a seek goes, it stays within the track.
pub proof fn law_seek_stays_in_track(state: PlaybackState, seconds: Single)
    ensures
        state.spec_track() matches Some(track) ==> state.sought(seconds) <= track.frames(),
{
}

/// A seek to before the start goes to the start.
pub proof fn law_seek_before_start(state: PlaybackState, seconds: Single)
    requires
        state.spec_track() is Some,
        seconds.less(Single::zero()),
    ensures
        state.sought(seconds) == 0,
{
    let track = state.spec_track()->0;
    lemma_whole_level(track.sample_rate as nat);
    lemma_zero_times(whole(track.sample_rate as nat));
    lemma_zero_to_word();
}

/// A position that is a number is held between the start and the end of a track, and one that
/// lies there is kept.
pub proof fn law_position_is_held(seconds: Single, duration: Duration)
    requires
        !seconds.is_nan(),
    ensures
        Single::zero().at_most(within_track(seconds, duration)),
        within_track(seconds, duration).at_most(duration.as_seconds()),
        Single::zero().at_most(seconds) && seconds.at_most(duration.as_seconds())
            ==> within_track(seconds, duration) == seconds,
{
    duration.lemma_as_seconds_level();
    lemma_level_order(Single::zero(), duration.as_seconds());
    lemma_clamp_range(seconds, Single::zero(), duration.as_seconds());
}

/// At its first frame a track is at zero seconds.
pub proof fn law_position_at_start(state: PlaybackState)
    requires
        state.spec_cursor() == 0,
    ensures
        state.position() == Single::zero(),
{
    if state.spec_track() is Some {
        let rate = (state.spec_track()->0).sample_rate as nat;
        if rate > 0 {
            lemma_whole_zero();
            lemma_whole_level(rate);
            lemma_zero_over(whole(rate));
        }
    }
}

/// A band's gain stays within twelve decibels of flat, and a gain within them is kept.
pub proof fn law_band_gain_range(gain_db: Single)
    requires
        !gain_db.is_nan(),
    ensures
        (Single { bits: TWELVE }).negated().at_most(band_gain(gain_db)),
        band_gain(gain_db).at_most(Single { bits: TWELVE }),
        (Single { bits: TWELVE }).negated().at_most(gain_db) && gain_db.at_most(
            Single { bits: TWELVE },
        ) ==> band_gain(gain_db) == gain_db,
{
    let high = Single { bits: TWELVE };
    assert(high.negated().at_most(high)) by {
        reveal(Single::spec_negated);
        reveal(Single::spec_at_most);
    }
    lemma_clamp_range(gain_db, high.negated(), high);
}

/// Every gain that is a number lies within twelve decibels of flat.
pub open spec fn gains_in_range(gains: Seq<Single>) -> bool {
    forall|i: int|
        0 <= i < gains.len() && !(#[trigger] gains[i]).is_nan() ==> (Single {
            bits: TWELVE,
        }).negated().at_most(gains[i]) && gains[i].at_most(Single { bits: TWELVE })
}

/// Gains start in range, and setting one keeps them there.
pub proof fn law_gains_stay_in_range(gains: Seq<Single>, index: int, gain_db: Single)
    requires
        gains_in_range(gains),
        0 <= index < gains.len(),
    ensures
        gains_in_range(flat()),
        gains_in_range(gains.update(index, band_gain(gain_db))),
{
    let high = Single { bits: TWELVE };
    assert(high.negated().at_most(Single::zero()) && Single::zero().at_most(high)) by {
        reveal(Single::spec_negated);
        reveal(Single::spec_at_most);
        lemma_level_order(Single::zero(), high);
    }
    let next = gains.update(index, band_gain(gain_db));
    assert forall|i: int| 0 <= i < next.len() && !(#[trigger] next[i]).is_nan() implies high.negated().at_most(
        next[i],
    ) && next[i].at_most(high) by {
        if i == index {
            if gain_db.is_nan() {
                reveal(Single::spec_less);
            } else {
                law_band_gain_range(gain_db);
            }
        } else {
            assert(next[i] == gains[i]);
        }
    }
}

/// The fader's bottom is silence, and its top is ten to the power of zero: unity gain.
pub proof fn law_fader_ends(taper: Single)
    ensures
        fader_gain(Single::zero(), taper) == Single::zero(),
        fader_gain(Single::one(), taper) == taper,
        taper_exponent(Single::one()) == Single::zero(),
{
    lemma_level_order(Single::zero(), Single::zero());
    lemma_level_order(Single::one(), Single::zero());
    assert(Single::one().minus(Single::one()) == Single::zero()) by {
        reveal(Single::spec_minus);
        reveal(Single::spec_plus);
        reveal(Single::spec_negated);
    }
    lemma_zero_times(Single { bits: TAPER_REACH });
}

/// The fader stays between its ends.
pub proof fn law_fader_range(volume: Single)
    requires
        !volume.is_nan(),
    ensures
        Single::zero().at_most(volume.clamp(Single::zero(), Single::one())),
        volume.clamp(Single::zero(), Single::one()).at_most(Single::one()),
{
    lemma_level_order(Single::zero(), Single::one());
    lemma_clamp_range(volume, Single::zero(), Single::one());
}

/// What is played lies within full scale, and what lies there is played as it is.
pub proof fn law_full_scale(sample: Single)
    requires
        !sample.is_nan(),
    ensures
        Single::one().negated().at_most(full_scale(sample)),
        full_scale(sample).at_most(Single::one()),
        sample.abs().at_most(Single::one()) ==> full_scale(sample) == sample,
{
    let one = Single::one();
    assert(one.negated().at_most(one)) by {
        reveal(Single::spec_negated);
        reveal(Single::spec_at_most);
    }
    lemma_clamp_range(sample, one.negated(), one);
    if sample.abs().at_most(one) {
        reveal(Single::spec_abs);
        reveal(Single::spec_negated);
        reveal(Single::spec_at_most);
    }
}

/// The mono mix of each of the first frames.
pub open spec fn mixes(frames: Seq<Single>, channels: usize, count: nat) -> Seq<Single> {
    Seq::new(
        count,
        |i: int| mono_of(frames.subrange(i * channels, (i + 1) * channels), channels),
    )
}

/// The tap keeps the latest mixes, the oldest first: each one that comes pushes one out.
pub proof fn law_tap_keeps_latest(tap: TapView, frames: Seq<Single>, channels: usize, count: nat)
    requires
        tap.recent.len() == VIZ_RING,
    ensures
        heard(tap, frames, channels, count).recent == (tap.recent + mixes(
            frames,
            channels,
            count,
        )).skip(count as int),
        count >= VIZ_RING ==> heard(tap, frames, channels, count).recent == mixes(
            frames,
            channels,
            count,
        ).skip(count - VIZ_RING),
    decreases count,
{
    let all = tap.recent + mixes(frames, channels, count);
    if count == 0 {
        assert(all.skip(0) =~= tap.recent);
    } else {
        let before = (count - 1) as nat;
        law_tap_keeps_latest(tap, frames, channels, before);
        let fewer = tap.recent + mixes(frames, channels, before);
        let frame = frames.subrange((count - 1) * channels, count * channels);
        assert(heard(tap, frames, channels, count).recent =~= fewer.skip(before as int).drop_first().push(
            mono_of(frame, channels),
        ));
        assert(fewer.skip(before as int).drop_first().push(mono_of(frame, channels)) =~= all.skip(
            count as int,
        ));
    }
    if count >= VIZ_RING {
        assert(all.skip(count as int) =~= mixes(frames, channels, count).skip(count - VIZ_RING));
    }
}

/// The peak reading is the loudest sample that was heard since the reading before it, and nothing
/// that was heard passes it.
pub proof fn law_peak_is_the_loudest_heard(
    tap: TapView,
    frames: Seq<Single>,
    channels: usize,
    count: nat,
)
    requires
        tap.levels.peak.is_level(),
        count * channels <= frames.len(),
    ensures
        ({
            let peak = heard(tap, frames, channels, count).levels.peak;
            &&& peak.is_level()
            &&& tap.levels.peak.at_most(peak)
            &&& forall|i: int|
                0 <= i < count * channels && !frames[i].is_nan() ==> (
                #[trigger] frames[i]).abs().at_most(peak)
            &&& peak == tap.levels.peak || exists|i: int|
                0 <= i < count * channels && peak == (#[trigger] frames[i]).abs()
        }),
    decreases count,
{
    let peak = heard(tap, frames, channels, count).levels.peak;
    lemma_level_order(tap.levels.peak, tap.levels.peak);
    if count > 0 {
        let fewer = (count - 1) as nat;
        assert(count * channels == fewer * channels + channels && fewer * channels >= 0)
            by (nonlinear_arith)
            requires
                count == fewer + 1,
        ;
        law_peak_is_the_loudest_heard(tap, frames, channels, fewer);
        let before = heard(tap, frames, channels, fewer).levels.peak;
        let frame = frames.subrange((count - 1) * channels, count * channels);
        lemma_loudest(frame);
        lemma_level_order(before, loudest(frame));
        lemma_level_order(before, peak);
        lemma_level_order(loudest(frame), peak);
        reveal(Single::spec_at_most);
        assert forall|i: int| 0 <= i < count * channels && !frames[i].is_nan() implies (
        #[trigger] frames[i]).abs().at_most(peak) by {
            if i >= fewer * channels {
                assert(frame[i - fewer * channels] == frames[i]);
            }
        }
        if peak == loudest(frame) && peak != Single::zero() {
            let i = choose|i: int| 0 <= i < frame.len() && loudest(frame) == (
            #[trigger] frame[i]).abs();
            assert(frames[fewer * channels + i] == frame[i]);
        } else if peak == Single::zero() {
            lemma_level_order(tap.levels.peak, peak);
            assert(before == peak);
        } else {
            assert(peak == before);
        }
        if before != tap.levels.peak && peak == before {
            let i = choose|i: int| 0 <= i < fewer * channels && before == (
            #[trigger] frames[i]).abs();
            assert(peak == frames[i].abs());
        }
    } else {
        assert(0 * channels == 0);
    }
}

/// The clip reading tells exactly whether the peak reading is past full scale.
pub open spec fn readings_agree(levels: VizLevels) -> bool {
    levels.peak.is_level() && (levels.clipped <==> Single::one().less(levels.peak))
}

/// The readings agree from the start, and go on agreeing whatever is heard.
pub proof fn law_readings_agree(tap: TapView, frames: Seq<Single>, channels: usize, count: nat)
    requires
        readings_agree(tap.levels),
    ensures
        readings_agree(crate::audio::quiet()),
        readings_agree(heard(tap, frames, channels, count).levels),
    decreases count,
{
    let one = Single::one();
    lemma_level_order(one, Single::zero());
    if count > 0 {
        law_readings_agree(tap, frames, channels, (count - 1) as nat);
        let before = heard(tap, frames, channels, (count - 1) as nat).levels;
        let frame = frames.subrange((count - 1) * channels, count * channels);
        lemma_loudest(frame);
        lemma_level_order(before.peak, loudest(frame));
        lemma_level_order(one, loudest(frame));
        lemma_level_order(one, before.peak);
    }
}

/// Settings whose gains are numbers are like themselves: taking them on twice starts the filters
/// anew at most once.
pub proof fn law_settings_settle(settings: EqSettings)
    requires
        forall|i: int| 0 <= i < 10 ==> !(#[trigger] settings.gains()[i]).is_nan(),
    ensures
        settings.same_settings(settings),
{
    reveal(Single::spec_same_value);
}

/// However the output is cut into calls, at whole frames, the same frames of a track play.
pub proof fn law_calls_play_on(
    before: PlaybackState,
    after: PlaybackState,
    first_len: nat,
    second_len: nat,
    channels: usize,
)
    requires
        channels > 0,
        before.wf(),
        first_len % (channels as nat) == 0,
        before.spec_track() is Some,
        after.spec_track() == before.spec_track(),
        after.spec_cursor() == before.spec_cursor() + frames_to_play(before, first_len, channels),
    ensures
        frames_to_play(before, first_len + second_len, channels) == frames_to_play(
            before,
            first_len,
            channels,
        ) + frames_to_play(after, second_len, channels),
{
    before.lemma_wf();
    let wide = channels as int;
    let whole_frames = first_len as int / wide;
    vstd::arithmetic::div_mod::lemma_fundamental_div_mod(first_len as int, wide);
    assert(first_len == wide * whole_frames);
    if first_len > 0 {
        assert(whole_frames > 0) by (nonlinear_arith)
            requires
                first_len == wide * whole_frames,
                first_len > 0,
                wide > 0,
        ;
        assert((first_len - 1) == (whole_frames - 1) * wide + (wide - 1)) by (nonlinear_arith)
            requires
                first_len == wide * whole_frames,
        ;
        vstd::arithmetic::div_mod::lemma_fundamental_div_mod_converse(
            first_len - 1,
            wide,
            whole_frames - 1,
            wide - 1,
        );
        if second_len > 0 {
            let rest = second_len - 1;
            vstd::arithmetic::div_mod::lemma_fundamental_div_mod(rest, wide);
            assert(first_len + second_len - 1 == (whole_frames + rest / wide) * wide + rest % wide)
                by (nonlinear_arith)
                requires
                    first_len == wide * whole_frames,
                    rest == wide * (rest / wide) + rest % wide,
                    rest == second_len - 1,
            ;
            vstd::arithmetic::div_mod::lemma_fundamental_div_mod_converse(
                first_len + second_len - 1,
                wide,
                whole_frames + rest / wide,
                rest % wide,
            );
        }
    }
}

/// However the output is cut into calls, the tap hears the same.
pub proof fn law_tap_hears_on(
    tap: TapView,
    first: Seq<Single>,
    second: Seq<Single>,
    channels: usize,
    first_count: nat,
    second_count: nat,
)
    requires
        first.len() == first_count * channels,
        second.len() == second_count * channels,
    ensures
        heard(heard(tap, first, channels, first_count), second, channels, second_count) == heard(
            tap,
            first + second,
            channels,
            first_count + second_count,
        ),
    decreases first_count + second_count,
{
    let all = first + second;
    if second_count > 0 {
        let fewer = (second_count - 1) as nat;
        let shorter = second.take(fewer * channels);
        assert(fewer * channels + channels == second_count * channels) by (nonlinear_arith)
            requires
                second_count == fewer + 1,
        ;
        assert(fewer * channels >= 0) by (nonlinear_arith);
        law_tap_hears_on(tap, first, shorter, channels, first_count, fewer);
        assert((first_count + fewer) * channels == first.len() + fewer * channels)
            by (nonlinear_arith)
            requires
                first.len() == first_count * channels,
        ;
        lemma_heard_prefix(
            heard(tap, first, channels, first_count),
            second,
            shorter,
            channels,
            fewer,
        );
        assert(first + shorter =~= all.take((first + shorter).len() as int));
        lemma_heard_prefix(tap, all, first + shorter, channels, first_count + fewer);
        assert((first_count + second_count) * channels == first.len() + second_count * channels)
            by (nonlinear_arith)
            requires
                first.len() == first_count * channels,
        ;
        let frame = second.subrange(fewer * channels, second_count * channels);
        assert(frame =~= all.subrange(
            (first_count + second_count - 1) * channels,
            (first_count + second_count) * channels,
        ));
    } else if first_count > 0 {
        assert(0 * channels == 0);
        assert(all =~= first);
    } else {
        assert(0 * channels == 0);
    }
}

/// What the tap hears of the first frames does not depend on what follows them.
proof fn lemma_heard_prefix(
    tap: TapView,
    frames: Seq<Single>,
    prefix: Seq<Single>,
    channels: usize,
    count: nat,
)
    requires
        count * channels <= prefix.len() <= frames.len(),
        prefix == frames.take(prefix.len() as int),
    ensures
        heard(tap, frames, channels, count) == heard(tap, prefix, channels, count),
    decreases count,
{
    if count > 0 {
        assert((count - 1) * channels + channels == count * channels) by (nonlinear_arith);
        assert((count - 1) * channels >= 0) by (nonlinear_arith)
            requires
                count > 0,
        ;
        lemma_heard_prefix(tap, frames, prefix, channels, (count - 1) as nat);
        assert(frames.subrange((count - 1) * channels, count * channels) =~= prefix.subrange(
            (count - 1) * channels,
            count * channels,
        ));
    }
}

/// Remixing keeps the number of frames.
pub proof fn law_remix_keeps_frames(
    samples: Seq<Single>,
    input_channels: usize,
    output_channels: usize,
)
    requires
        input_channels > 0,
        output_channels > 0,
    ensures
        frames_in(remixed(samples, input_channels, output_channels).len(), output_channels)
            == frames_in(samples.len(), input_channels),
{
    if input_channels != output_channels {
        let frames = frames_in(samples.len(), input_channels);
        vstd::arithmetic::div_mod::lemma_div_by_multiple(frames as int, output_channels as int);
    }
}

/// While nothing plays, the output is silence, and the visualizer tap hears nothing: whatever the
/// number of channels, none among them.
pub proof fn law_nothing_plays_is_silence(tap: TapView, channels: usize, output_len: nat)
    ensures
        heard(tap, Seq::empty(), channels, frames_in(0, channels)) == tap,
        forall|i: int|
            0 <= i < output_len ==> #[trigger] emitted(Seq::empty(), output_len)[i]
                == Single::zero(),
{
    if channels > 0 {
        assert(0nat / (channels as nat) == 0) by (nonlinear_arith)
            requires
                channels > 0,
        ;
    }
}

} // verus!
