use std::sync::Arc;

use music_player::audio::{
    plan_resample, remix_channels, resample_interleaved, AudioProcessError, Conversion, EqProcessor,
    EqSettings, PlaybackBuffer, PlaybackState, ResamplePlan, TransportState,
};
use music_player::single::Single;
use music_player::time::Duration;
use rubato::audioadapter_buffers::direct::InterleavedSlice;
use rubato::{Fft, FixedSync, Resampler};

fn s(x: f32) -> Single {
    Single::from_bits(x.to_bits())
}

fn f(x: Single) -> f32 {
    f32::from_bits(x.to_bits())
}

fn singles(values: &[f32]) -> Vec<Single> {
    values.iter().map(|x| s(*x)).collect()
}

fn floats(values: &[Single]) -> Vec<f32> {
    values.iter().map(|x| f(*x)).collect()
}

fn nothing() -> Conversion {
    Ok((Vec::new(), 0))
}

fn convert(samples: &[f32], channels: usize, input_rate: u32, output_rate: u32) -> Conversion {
    let plan = plan_resample(samples.len(), channels, input_rate, output_rate).unwrap();
    let (input_frames, chunk_size) = match plan {
        ResamplePlan::Convert { input_frames, chunk_size } => (input_frames, chunk_size),
        _ => return nothing(),
    };
    let input = InterleavedSlice::new(samples, channels, input_frames).unwrap();
    let mut resampler = Fft::<f32>::new(
        input_rate as usize,
        output_rate as usize,
        chunk_size,
        2,
        channels,
        FixedSync::Both,
    )
    .unwrap();
    let needed = resampler.process_all_needed_output_len(input_frames);
    let mut output = vec![0.0_f32; needed * channels];
    let mut adapter = InterleavedSlice::new_mut(&mut output, channels, needed).unwrap();
    let (_, frames) = resampler
        .process_all_into_buffer(&input, &mut adapter, input_frames, None)
        .unwrap();
    Ok((singles(&output), frames))
}

#[test]
fn remix_channels_averages_stereo_to_mono() {
    let stereo = singles(&[1.0, -1.0, 0.5, 0.25]);

    let mono = remix_channels(&stereo, 2, 1);

    assert_eq!(floats(&mono), vec![0.0, 0.375]);
}

#[test]
fn remix_channels_duplicates_mono_to_stereo() {
    let mono = singles(&[0.25, -0.5]);

    let stereo = remix_channels(&mono, 1, 2);

    assert_eq!(floats(&stereo), vec![0.25, 0.25, -0.5, -0.5]);
}

#[test]
fn resample_interleaved_preserves_audio_when_rates_match() {
    let samples = singles(&[0.0, 0.25, -0.25, 0.5]);

    let resampled = resample_interleaved(&samples, 2, 44_100, 44_100, nothing()).unwrap();

    assert_eq!(resampled, samples);
}

#[test]
fn resample_interleaved_changes_frame_count_when_rate_changes() {
    let samples = vec![0.0_f32; 44_100 * 2];

    let converted = convert(&samples, 2, 44_100, 48_000);
    let resampled =
        resample_interleaved(&singles(&samples), 2, 44_100, 48_000, converted).unwrap();

    let frames = resampled.len() / 2;
    assert!((47_900..=48_100).contains(&frames));
}

#[test]
fn playback_state_replaces_track_and_clamps_seek() {
    let first = Arc::new(PlaybackBuffer::new(vec![s(0.0); 44_100 * 2], 44_100, 2));
    let second = Arc::new(PlaybackBuffer::new(vec![s(0.0); 48_000 * 2], 48_000, 2));
    let mut state = PlaybackState::default();

    state.load(first);
    state.play();
    state.seek_seconds(s(999.0));

    assert_eq!(state.transport(), TransportState::Playing);
    assert_eq!(f(state.position_seconds()), 1.0);

    state.load(second);

    assert_eq!(state.transport(), TransportState::Stopped);
    assert_eq!(f(state.position_seconds()), 0.0);
    assert_eq!(state.duration(), Duration::from_secs(1));
}

#[test]
fn eq_processor_bypasses_when_disabled() {
    let mut settings = EqSettings::default();
    settings.set_enabled(false);
    settings.set_gain(5, s(12.0));
    let processor = EqProcessor::new(44_100, 2, settings);
    let mut frame = singles(&[0.25_f32, -0.5_f32]);

    assert_eq!(processor.channels_to_filter(frame.len()), 0);
    processor.process_frame(&mut frame, &[]);

    assert_eq!(floats(&frame), [0.25, -0.5]);
}

#[test]
fn equalizer_replaces_the_filtered_channels() {
    let processor = EqProcessor::new(44_100, 2, EqSettings::default());
    let mut frame = singles(&[0.25, -0.5, 0.75]);

    assert_eq!(processor.channels_to_filter(3), 2);
    assert_eq!(processor.channels_to_filter(1), 1);
    processor.process_frame(&mut frame, &singles(&[0.125, 0.0625]));

    assert_eq!(floats(&frame), [0.125, 0.0625, 0.75]);
}

#[test]
fn equalizer_plans_ten_bands_below_the_sample_rate() {
    let mut settings = EqSettings::default();
    settings.set_gain(9, s(-3.0));
    let processor = EqProcessor::new(20_000, 2, settings);
    let filters = processor.filters();

    assert_eq!(filters.len(), 10);
    assert_eq!(f(filters[0].frequency), 31.0);
    assert_eq!(f(filters[8].frequency), 8000.0);
    assert_eq!(f(filters[9].frequency), 20_000.0_f32 * 0.45);
    assert_eq!(f(filters[9].gain_db), -3.0);
}

#[test]
fn equalizer_rebuilds_only_for_other_settings() {
    let mut settings = EqSettings::default();
    let mut processor = EqProcessor::new(48_000, 2, settings);

    assert!(!processor.update_settings(settings));
    settings.set_gain(3, s(4.0));
    assert!(processor.update_settings(settings));
    assert!(!processor.update_settings(settings));
    assert_eq!(f(processor.filters()[3].gain_db), 4.0);
}

#[test]
fn remix_channels_repeats_the_last_channel() {
    let stereo = singles(&[0.1, 0.2, 0.3, 0.4]);

    assert_eq!(
        floats(&remix_channels(&stereo, 2, 4)),
        vec![0.1, 0.2, 0.2, 0.2, 0.3, 0.4, 0.4, 0.4]
    );
    assert_eq!(floats(&remix_channels(&singles(&[0.1, 0.2, 0.3]), 3, 2)), vec![0.1, 0.2]);
    assert!(remix_channels(&stereo, 0, 2).is_empty());
    assert!(remix_channels(&stereo, 2, 0).is_empty());
    assert!(remix_channels(&[], 2, 1).is_empty());
}

#[test]
fn remixing_keeps_the_frames() {
    for input in 1..5 {
        for output in 1..5 {
            let samples = vec![s(0.5); 7 * input];
            assert_eq!(remix_channels(&samples, input, output).len(), 7 * output);
        }
    }
}

#[test]
fn resampling_reports_its_errors() {
    let samples = singles(&[0.0, 0.25, -0.25]);

    let none = resample_interleaved(&samples, 0, 44_100, 48_000, nothing()).unwrap_err();
    assert!(matches!(none, AudioProcessError::InvalidChannels));
    assert_eq!(none.message(), "Channel count must be greater than zero");

    let uneven = resample_interleaved(&samples, 2, 44_100, 48_000, nothing()).unwrap_err();
    assert!(matches!(uneven, AudioProcessError::InvalidInterleavedLength));
    assert_eq!(uneven.message(), "Audio buffer length is not divisible by channel count");

    let failed =
        resample_interleaved(&samples, 1, 44_100, 48_000, Err("no".to_owned())).unwrap_err();
    assert_eq!(failed.message(), "Could not resample audio: no");
}

#[test]
fn resampling_plans_its_chunks() {
    assert!(matches!(plan_resample(8, 2, 44_100, 44_100), Ok(ResamplePlan::Unchanged)));
    assert!(matches!(plan_resample(0, 2, 44_100, 48_000), Ok(ResamplePlan::Empty)));
    assert!(matches!(
        plan_resample(8, 2, 44_100, 48_000),
        Ok(ResamplePlan::Convert { input_frames: 4, chunk_size: 16 })
    ));
    assert!(matches!(
        plan_resample(2000, 2, 44_100, 48_000),
        Ok(ResamplePlan::Convert { input_frames: 1000, chunk_size: 1000 })
    ));
    assert!(matches!(
        plan_resample(20_000, 2, 44_100, 48_000),
        Ok(ResamplePlan::Convert { input_frames: 10_000, chunk_size: 4096 })
    ));
}

#[test]
fn resampling_cuts_the_converter_s_buffer() {
    let samples = singles(&[0.0, 0.25]);
    let left = singles(&[0.5, 0.25, 0.125, 0.0]);

    let out = resample_interleaved(&samples, 2, 44_100, 48_000, Ok((left.clone(), 1))).unwrap();
    assert_eq!(floats(&out), vec![0.5, 0.25]);

    let whole = resample_interleaved(&samples, 2, 44_100, 48_000, Ok((left, 9))).unwrap();
    assert_eq!(whole.len(), 4);
}
