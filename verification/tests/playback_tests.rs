use std::sync::Arc;

use music_player::audio::{
    fill_output_i16, fill_output_u16, highest_band, output_format, AudioEngineError, DeviceFormat,
    EngineShared, EqSettings, OutputFormat, PlaybackBuffer, PlaybackSnapshot, PlaybackState,
    Rendered, TransportState, VizTap, LEAST_EQ_RATE, VIZ_RING,
};
use music_player::single::Single;
use music_player::time::Duration;

fn s(x: f32) -> Single {
    Single::from_bits(x.to_bits())
}

fn f(x: Single) -> f32 {
    f32::from_bits(x.to_bits())
}

fn singles(values: &[f32]) -> Vec<Single> {
    values.iter().map(|x| s(*x)).collect()
}

fn floats(values: &[Single]) -> Vec<f32> {
    values.iter().map(|x| f(*x)).collect()
}

fn buffer(values: &[f32], rate: u32, channels: usize) -> PlaybackBuffer {
    PlaybackBuffer::new(singles(values), rate, channels)
}

fn state_with(frames: usize, rate: u32) -> PlaybackState {
    let mut state = PlaybackState::default();
    state.load(Arc::new(buffer(&vec![0.0; frames * 2], rate, 2)));
    state
}

fn rendered(engine: &mut EngineShared, len: usize, gain: f32) -> (Vec<f32>, bool) {
    match engine.render(len, s(gain)) {
        Rendered::Frames { samples, rebuilt } => (floats(&samples), rebuilt),
        Rendered::Silence => panic!("a track plays"),
    }
}

#[test]
fn buffers_count_frames_and_time() {
    let track = buffer(&[0.0; 7], 2, 2);
    assert_eq!(track.frame_count(), 3);
    assert_eq!(track.duration(), Duration { seconds: 1, nanos: 500_000_000 });
    assert_eq!(buffer(&[0.0; 4], 0, 2).duration(), Duration::zero());
    assert_eq!(buffer(&[0.0; 4], 8, 0).frame_count(), 0);
    assert_eq!(buffer(&[0.0; 4], 8, 0).duration(), Duration::zero());
    assert_eq!(
        buffer(&[0.0; 2], 3, 2).duration(),
        Duration { seconds: 0, nanos: 333_333_333 }
    );
}

#[test]
fn the_transport_follows_its_buttons() {
    let mut state = PlaybackState::default();
    state.play();
    assert_eq!(state.transport(), TransportState::Stopped);
    state.toggle_playback();
    assert_eq!(state.transport(), TransportState::Stopped);

    let mut state = state_with(10, 10);
    state.pause();
    assert_eq!(state.transport(), TransportState::Stopped);
    state.toggle_playback();
    assert_eq!(state.transport(), TransportState::Playing);
    state.toggle_playback();
    assert_eq!(state.transport(), TransportState::Paused);
    state.toggle_playback();
    assert_eq!(state.transport(), TransportState::Playing);
    state.clear();
    assert_eq!(state.transport(), TransportState::Stopped);
    assert!(state.track().is_none());
    assert_eq!(state.duration(), Duration::zero());
    assert_eq!(f(state.position_seconds()), 0.0);
}

#[test]
fn seeking_stays_in_the_track() {
    let mut state = state_with(100, 10);
    state.seek_seconds(s(-3.0));
    assert_eq!(state.cursor_frame(), 0);
    state.seek_seconds(s(2.54));
    assert_eq!(state.cursor_frame(), 25);
    state.seek_seconds(s(2.55));
    assert_eq!(state.cursor_frame(), (2.55_f32 * 10.0).round() as usize);
    state.skip_seconds(s(1.0));
    assert_eq!(f(state.position_seconds()), state.cursor_frame() as f32 / 10.0);
    state.skip_seconds(s(-100.0));
    assert_eq!(state.cursor_frame(), 0);
    state.seek_seconds(s(f32::INFINITY));
    assert_eq!(state.cursor_frame(), 100);
    state.seek_seconds(s(f32::NAN));
    assert_eq!(state.cursor_frame(), 0);
    state.set_cursor_frame(1000);
    assert_eq!(state.cursor_frame(), 100);
    state.set_cursor_frame(7);
    assert_eq!(state.cursor_frame(), 7);

    let mut empty = PlaybackState::default();
    empty.seek_seconds(s(5.0));
    empty.set_cursor_frame(5);
    assert_eq!(empty.cursor_frame(), 0);
}

#[test]
fn the_fader_has_two_ends() {
    let mut state = PlaybackState::default();
    assert_eq!(f(state.volume()), 1.0);
    assert_eq!(f(state.gain_exponent()), 0.0);
    assert_eq!(f(state.gain(s(1.0))), 1.0);
    state.set_volume(s(0.5));
    assert_eq!(f(state.gain_exponent()), -1.5);
    assert_eq!(f(state.gain(s(0.03))), 0.03);
    state.set_volume(s(-4.0));
    assert_eq!(f(state.volume()), 0.0);
    assert_eq!(f(state.gain(s(0.001))), 0.0);
    state.set_volume(s(4.0));
    assert_eq!(f(state.volume()), 1.0);
}

#[test]
fn the_tap_keeps_the_latest_samples() {
    let mut tap = VizTap::new();
    let mut out = singles(&[9.0]);
    tap.drain(&mut out);
    assert_eq!(out.len(), VIZ_RING);
    assert!(out.iter().all(|x| f(*x) == 0.0));

    for i in 0..VIZ_RING + 5 {
        tap.push(s(i as f32), s(0.25));
    }
    tap.push(s(-1.0), s(1.5));
    let levels = tap.drain(&mut out);
    assert_eq!(f(levels.peak), 1.5);
    assert!(levels.clipped);
    assert_eq!(f(out[0]), 6.0);
    assert_eq!(f(out[VIZ_RING - 2]), (VIZ_RING + 4) as f32);
    assert_eq!(f(out[VIZ_RING - 1]), -1.0);

    let after = tap.drain(&mut out);
    assert_eq!(f(after.peak), 0.0);
    assert!(!after.clipped);
    tap.push(s(0.0), s(1.0));
    assert!(!tap.drain(&mut out).clipped);
}

#[test]
fn nothing_plays_until_asked() {
    let mut engine = EngineShared::new(48_000, 2);
    assert!(matches!(engine.render(8, s(1.0)), Rendered::Silence));
    engine.load(buffer(&[0.1, 0.2, 0.3, 0.4], 48_000, 2));
    assert!(matches!(engine.render(8, s(1.0)), Rendered::Silence));
    engine.play();
    assert!(matches!(engine.render(8, s(1.0)), Rendered::Frames { .. }));
    engine.pause();
    assert!(matches!(engine.render(8, s(1.0)), Rendered::Silence));
    assert_eq!(floats(&engine.emit(&Vec::new(), 3)), vec![0.0; 3]);
}

#[test]
fn an_output_without_channels_is_silent() {
    let mut engine = EngineShared::new(48_000, 0);
    let mut before = Vec::new();
    engine.drain_viz(&mut before);
    assert!(matches!(engine.render(4, s(1.0)), Rendered::Silence));
    assert_eq!(floats(&engine.emit(&Vec::new(), 4)), vec![0.0; 4]);
    let mut after = Vec::new();
    let levels = engine.drain_viz(&mut after);
    assert_eq!(floats(&after), floats(&before));
    assert_eq!(f(levels.peak), 0.0);
    assert!(!engine.snapshot().has_track);
}

#[test]
fn rendering_walks_through_the_track() {
    let mut engine = EngineShared::new(48_000, 2);
    engine.load(buffer(&[0.1, 0.2, 0.3, 0.4, 0.5, 0.6], 48_000, 2));
    engine.play();

    assert_eq!(rendered(&mut engine, 4, 0.5).0, vec![0.05, 0.1, 0.15, 0.2]);
    assert_eq!(engine.snapshot().transport, TransportState::Playing);
    assert_eq!(rendered(&mut engine, 2, 1.0).0, vec![0.5, 0.6]);
    assert_eq!(engine.snapshot().transport, TransportState::Playing);
    assert!(rendered(&mut engine, 2, 1.0).0.is_empty());
    assert_eq!(engine.snapshot().transport, TransportState::Stopped);
    assert_eq!(f(engine.snapshot().position_seconds), 3.0 / 48_000.0);
}

#[test]
fn a_part_of_a_frame_takes_a_whole_one() {
    let mut engine = EngineShared::new(48_000, 2);
    engine.load(buffer(&[0.1, 0.2, 0.3, 0.4, 0.5, 0.6], 48_000, 2));
    engine.play();

    let (frames, _) = rendered(&mut engine, 3, 1.0);
    assert_eq!(frames, vec![0.1, 0.2, 0.3, 0.4]);
    assert_eq!(floats(&engine.emit(&singles(&frames), 3)), vec![0.1, 0.2, 0.3]);
}

#[test]
fn output_is_held_to_full_scale_and_heard_before() {
    let mut engine = EngineShared::new(48_000, 2);
    let out = engine.emit(&singles(&[1.5, -0.5, -2.0, 0.25]), 6);
    assert_eq!(floats(&out), vec![1.0, -0.5, -1.0, 0.25, 0.0, 0.0]);

    let mut window = Vec::new();
    let levels = engine.drain_viz(&mut window);
    assert_eq!(f(levels.peak), 2.0);
    assert!(levels.clipped);
    assert_eq!(f(window[VIZ_RING - 2]), 0.5);
    assert_eq!(f(window[VIZ_RING - 1]), -0.875);
}

#[test]
fn calls_can_be_cut_anywhere() {
    let values: Vec<f32> = (0..40).map(|i| (i as f32 - 20.0) / 16.0).collect();
    let play = |cuts: &[usize]| {
        let mut engine = EngineShared::new(48_000, 2);
        engine.load(buffer(&values, 48_000, 2));
        engine.play();
        let mut out = Vec::new();
        for len in cuts {
            let (frames, _) = rendered(&mut engine, *len, 1.0);
            out.extend(floats(&engine.emit(&singles(&frames), *len)));
        }
        let mut window = Vec::new();
        let levels = engine.drain_viz(&mut window);
        (out, floats(&window), f(levels.peak), levels.clipped)
    };
    let whole = play(&[30]);
    assert_eq!(play(&[2, 8, 20]), whole);
    assert_eq!(play(&[28, 2]), whole);
    assert_eq!(whole.2, 1.25);
    assert!(whole.3);
}

#[test]
fn equalizer_changes_reach_the_output() {
    let mut engine = EngineShared::new(48_000, 2);
    engine.load(buffer(&[0.1; 8], 48_000, 2));
    engine.play();
    assert!(!rendered(&mut engine, 2, 1.0).1);

    let mut settings = EqSettings::default();
    settings.set_gain(1, s(6.0));
    assert!(engine.set_eq_settings(settings));
    assert!(!engine.set_eq_settings(settings));
    assert!(engine.eq_settings() == settings);
    assert!(!rendered(&mut engine, 2, 1.0).1);
    assert_eq!(f(engine.eq_processor().filters()[1].gain_db), 6.0);
}

#[test]
fn buffers_must_cover_the_output_channels() {
    let engine = EngineShared::new(48_000, 2);
    assert!(engine.can_load(&buffer(&[0.0; 4], 48_000, 2)));
    assert!(!engine.can_load(&buffer(&[0.0; 4], 48_000, 1)));
    assert!(engine.can_load(&buffer(&[0.0; 6], 48_000, 3)));
}

#[test]
fn snapshots_show_the_state() {
    let mut engine = EngineShared::new(48_000, 2);
    let before = engine.snapshot();
    assert!(!before.has_track);
    engine.load(buffer(&[0.0; 20], 10, 2));
    engine.seek_seconds(s(0.5));
    engine.skip_seconds(s(0.2));
    engine.set_volume(s(0.25));
    let after = engine.snapshot();
    assert!(after.has_track);
    assert_eq!(f(after.position_seconds), 7.0 / 10.0);
    assert_eq!(after.duration, Duration::from_secs(1));
    assert_eq!(f(after.volume), 0.25);
    engine.toggle_playback();
    assert_eq!(engine.snapshot().transport, TransportState::Playing);
    assert_eq!(f(engine.gain_exponent()), -2.25);
    assert_eq!(f(engine.gain(s(0.5))), 0.5);

    let idle = PlaybackSnapshot::idle();
    assert_eq!(idle.transport, TransportState::Stopped);
    assert_eq!(f(idle.volume), 1.0);
    assert!(!idle.has_track);
}

#[test]
fn samples_become_integers() {
    let values = [0.0, 1.0, -1.0, 0.5, -0.5, 2.0, -3.0, f32::NAN, 0.99999, -0.00002];
    let signed: Vec<i16> = values
        .iter()
        .map(|x| (x.clamp(-1.0, 1.0) * i16::MAX as f32) as i16)
        .collect();
    let unsigned: Vec<u16> = values
        .iter()
        .map(|x| ((x.clamp(-1.0, 1.0) * 0.5 + 0.5) * u16::MAX as f32) as u16)
        .collect();
    assert_eq!(fill_output_i16(&singles(&values)), signed);
    assert_eq!(fill_output_u16(&singles(&values)), unsigned);
    assert_eq!(fill_output_i16(&singles(&[1.0, -1.0])), vec![32_767, -32_767]);
    assert_eq!(fill_output_u16(&singles(&[1.0, -1.0, 0.0])), vec![65_535, 0, 32_767]);
}

#[test]
fn devices_and_rates_that_do_not_fit_are_told() {
    assert!(matches!(output_format(DeviceFormat::Float), Ok(OutputFormat::Float)));
    assert!(matches!(output_format(DeviceFormat::Signed), Ok(OutputFormat::Signed)));
    assert!(matches!(output_format(DeviceFormat::Unsigned), Ok(OutputFormat::Unsigned)));
    let error = output_format(DeviceFormat::Other("I24".to_owned())).unwrap_err();
    assert_eq!(error.message(), "Unsupported output sample format: I24");
    assert_eq!(
        AudioEngineError::NoOutputDevice.message(),
        "No default Windows output device is available"
    );
    assert_eq!(
        AudioEngineError::Cpal("lost".to_owned()).message(),
        "Audio output error: lost"
    );
    assert_eq!(LEAST_EQ_RATE, 3);
    assert!(3.0_f32 * 0.45 >= 1.0 && 2.0_f32 * 0.45 < 1.0);
    assert_eq!(f(highest_band(3)), 3.0 * 0.45);
    assert_eq!(f(highest_band(0)), 0.45);
}
