use music_player::columns::{
    bar_width, bucket_max, holds_bars, played_x, smooth, waveform_bars, waveform_columns, Area,
};
use music_player::color::{lerp_color, level_color, spectral_color, BandLevels, Color};
use music_player::single::Single;
use music_player::time::Duration;
use music_player::waveform::{
    analyze_waveform, band_filters, build_waveform, mono_mix, BandSignals,
    ColorMode, ReductionMode, WaveformAnalysis, WaveformParams, LEAST_SPLIT_RATE,
};

fn s(x: f32) -> Single {
    Single::from_bits(x.to_bits())
}

fn f(x: Single) -> f32 {
    f32::from_bits(x.to_bits())
}

fn singles(values: &[f32]) -> Vec<Single> {
    values.iter().map(|x| s(*x)).collect()
}

fn floats(values: &[Single]) -> Vec<f32> {
    values.iter().map(|x| f(*x)).collect()
}

fn no_bands() -> BandSignals {
    BandSignals { low: None, mid: None, high: None }
}

#[test]
fn peaks_handle_edges() {
    assert!(build_waveform(&[], 2, 4).is_empty());
    assert!(build_waveform(&singles(&[1.0]), 0, 4).is_empty());
    assert!(build_waveform(&singles(&[1.0]), 1, 0).is_empty());
    assert_eq!(floats(&build_waveform(&singles(&[1.0]), 2, 3)), vec![0.0; 3]);
    // More bins than frames: neighbors share a frame.
    assert_eq!(
        floats(&build_waveform(&singles(&[0.5, -0.25]), 1, 4)),
        vec![0.5, 0.5, 0.25, 0.25]
    );
    assert_eq!(
        floats(&build_waveform(&singles(&[3.0, f32::NAN, 0.1, 0.2, 0.3]), 1, 2)),
        vec![1.0, 0.3]
    );
}

#[test]
fn no_sample_escapes_the_peaks() {
    let samples: Vec<Single> = (0..101).map(|i| s(((i * 37) % 101) as f32 / 101.0)).collect();
    for bins in [1, 2, 3, 7, 50, 101, 150] {
        let peaks = build_waveform(&samples, 1, bins);
        let top = floats(&peaks).into_iter().fold(0.0, f32::max);
        assert_eq!(top, 100.0 / 101.0);
        assert!(floats(&peaks).iter().all(|x| (0.0..=1.0).contains(x)));
    }
}

#[test]
fn levels_are_root_mean_squares() {
    let samples = singles(&[0.5, 0.5, -0.5, -0.5, 1.0, 0.0, 0.0, 0.0]);
    let bands = BandSignals {
        low: Some(singles(&[0.5, 0.5, 0.0, 0.0])),
        mid: None,
        high: Some(singles(&[2.0, 2.0, 0.0, 0.0])),
    };
    let analysis = analyze_waveform(&samples, 2, 2, &bands);

    assert_eq!(analysis.len(), 2);
    assert!(!analysis.is_empty());
    assert_eq!(floats(&analysis.peak), vec![0.5, 1.0]);
    assert_eq!(floats(&mono_mix(&samples, 2)), vec![0.5, -0.5, 0.5, 0.0]);
    assert_eq!(f(analysis.rms[0]), 0.5);
    assert_eq!(f(analysis.rms[1]), (0.125_f64).sqrt() as f32);
    assert_eq!(floats(&analysis.low), vec![0.5, 0.0]);
    assert_eq!(floats(&analysis.mid), vec![0.0, 0.0]);
    assert_eq!(floats(&analysis.high), vec![1.0, 0.0]);
    assert_eq!(floats(analysis.amplitude(ReductionMode::Peak)), vec![0.5, 1.0]);
    assert_eq!(f(analysis.amplitude(ReductionMode::Rms)[0]), 0.5);
}

#[test]
fn analysis_of_nothing_is_empty() {
    assert!(analyze_waveform(&[], 2, 10, &no_bands()).is_empty());
    assert!(WaveformAnalysis::default().is_empty());
    let short = analyze_waveform(&singles(&[0.5]), 2, 3, &no_bands());
    assert_eq!(floats(&short.peak), vec![0.0; 3]);
    assert_eq!(floats(&short.rms), vec![0.0; 3]);
    assert_eq!(floats(&short.high), vec![0.0; 3]);
}

#[test]
fn bins_that_share_a_frame_share_its_level() {
    let analysis = analyze_waveform(&singles(&[0.5, 0.25]), 1, 4, &no_bands());
    assert_eq!(floats(&analysis.peak), vec![0.5, 0.5, 0.25, 0.25]);
    assert_eq!(floats(&analysis.rms), vec![0.5, 0.5, 0.25, 0.25]);
}

#[test]
fn levels_and_peaks_are_of_the_same_frames() {
    // Three bins of five frames: the frames 0, 1 and 2, and 3 and 4.
    let samples = singles(&[1.0, 0.0, 0.0, 0.5, 0.5]);
    let analysis = analyze_waveform(&samples, 1, 3, &no_bands());
    assert_eq!(floats(&analysis.peak), vec![1.0, 0.0, 0.5]);
    assert_eq!(floats(&analysis.rms), vec![1.0, 0.0, 0.5]);
}

#[test]
fn no_level_passes_its_peak() {
    let samples: Vec<Single> =
        (0..3001).map(|i: i32| s(((i * 7919) % 2003 - 1001) as f32 / 1001.0)).collect();
    for channels in [1, 2] {
        for bins in [1, 7, 100, 999, 4000] {
            let analysis = analyze_waveform(&samples, channels, bins, &no_bands());
            for (rms, peak) in analysis.rms.iter().zip(&analysis.peak) {
                assert!(f(*rms) <= f(*peak), "{} > {}", f(*rms), f(*peak));
                assert!((0.0..=1.0).contains(&f(*rms)));
            }
        }
    }
    // A flat track has one level, to the last bit.
    for value in [0.1_f32, 0.7, 1.0 / 3.0, 0.99999994] {
        for channels in [1, 2] {
            let flat = vec![s(value); 600];
            let analysis = analyze_waveform(&flat, channels, 5, &no_bands());
            assert_eq!(floats(&analysis.rms), vec![value; 5]);
            assert_eq!(floats(&analysis.peak), vec![value; 5]);
        }
    }
    // The mono mix of ten channels rounds up, by less than a part in a million.
    let wide = analyze_waveform(&vec![s(0.1); 30], 10, 1, &no_bands());
    assert!(f(wide.rms[0]) > 0.1 && f(wide.rms[0]) < 0.1 * 1.000_001);
    // The square of so faint a sample rounds up.
    let faint = f32::from_bits(0x1a0c_cccd);
    let quiet = analyze_waveform(&[s(faint)], 1, 1, &no_bands());
    assert!(f(quiet.rms[0]) > f(quiet.peak[0]));
    assert!(f(quiet.rms[0]) <= 2.0_f32.powi(-63));
}

#[test]
fn band_filters_keep_below_the_sample_rate() {
    let plan = band_filters(44_100).unwrap();
    assert_eq!(f(plan.sample_rate), 44_100.0);
    assert_eq!((f(plan.low), f(plan.mid), f(plan.high)), (250.0, 900.0, 4000.0));
    let slow = band_filters(1000).unwrap();
    assert_eq!(f(slow.mid), 450.0);
    assert_eq!(f(slow.low), 250.0);
    assert_eq!(LEAST_SPLIT_RATE, 45);
    assert!(45.0_f32 * 0.45 >= 20.0 && 44.0_f32 * 0.45 < 20.0);
    assert_eq!(f(band_filters(45).unwrap().low), 45.0 * 0.45);
    assert!(band_filters(44).is_none());
    assert!(band_filters(0).is_none());
}

#[test]
fn smoothing_averages_neighbors() {
    let values = singles(&[1.0, 0.0, 0.5, 0.25]);
    assert_eq!(smooth(&values, 0), values);
    assert_eq!(floats(&smooth(&values, 1)), vec![0.5, 0.5, 0.25, 0.375]);
    assert_eq!(floats(&smooth(&values, 9)), vec![0.4375; 4]);
    assert!(smooth(&[], 3).is_empty());
}

#[test]
fn buckets_take_the_largest() {
    let values = singles(&[0.1, 0.7, 0.3, 0.2, 0.9]);
    assert_eq!(f(bucket_max(&values, 0, 2)), 0.7);
    assert_eq!(f(bucket_max(&values, 1, 2)), 0.9);
    assert_eq!(f(bucket_max(&values, 2, 5)), 0.3);
    assert_eq!(f(bucket_max(&singles(&[-0.5]), 0, 1)), 0.0);
}

#[test]
fn the_largest_bar_reaches_a_column() {
    let values: Vec<Single> = (0..97).map(|i| s(((i * 53) % 97) as f32 / 97.0)).collect();
    for count in 1..=97 {
        let top = (0..count).map(|i| f(bucket_max(&values, i, count))).fold(0.0, f32::max);
        assert_eq!(top, 96.0 / 97.0);
    }
}

fn analysis() -> WaveformAnalysis {
    WaveformAnalysis {
        peak: singles(&[0.2, 0.4, 0.6, 0.8]),
        rms: singles(&[0.1, 0.3, 0.5, 0.5]),
        low: singles(&[1.0, 0.5, 0.0, 0.0]),
        mid: singles(&[0.0, 0.0, 0.25, 0.5]),
        high: singles(&[0.0, 0.0, 0.0, 0.125]),
    }
}

fn params(mode: ReductionMode, bins: usize) -> WaveformParams {
    let mut params = WaveformParams::default();
    params.mode = mode;
    params.bins = bins;
    params.smoothing = 0;
    params
}

#[test]
fn columns_take_bins_together() {
    let peaks = waveform_columns(&analysis(), &params(ReductionMode::Peak, 2), s(100.0), true);
    assert_eq!(peaks.len(), 2);
    assert_eq!(f(peaks[0].amplitude), 0.4);
    assert_eq!(f(peaks[1].amplitude), 0.8);
    assert_eq!(f(peaks[0].bands.low), 1.0);
    assert_eq!(f(peaks[1].bands.mid), 0.5);
    assert_eq!(f(peaks[1].bands.high), 0.125);

    let rms = waveform_columns(&analysis(), &params(ReductionMode::Rms, 2), s(100.0), false);
    let expected = ((-0.0_f32 + 0.1 * 0.1 + 0.3 * 0.3) / 2.0).sqrt();
    assert_eq!(f(rms[0].amplitude), expected);
    assert_eq!(f(rms[0].bands.low), 0.0);

    // Not more columns than bins or pixels, and at least one.
    assert_eq!(waveform_columns(&analysis(), &params(ReductionMode::Peak, 99), s(100.0), true).len(), 4);
    assert_eq!(waveform_columns(&analysis(), &params(ReductionMode::Peak, 99), s(2.6), true).len(), 3);
    assert_eq!(waveform_columns(&analysis(), &params(ReductionMode::Peak, 0), s(100.0), true).len(), 1);
}

#[test]
fn default_drawing_is_smooth_and_spectral() {
    let defaults = WaveformParams::default();
    assert_eq!(defaults.bins, 1100);
    assert_eq!(defaults.mode, ReductionMode::Rms);
    assert_eq!(f(defaults.gamma), 0.65);
    assert_eq!(f(defaults.height_scale), 1.4);
    assert_eq!(defaults.smoothing, 1);
    assert!(defaults.mirror);
    assert_eq!(defaults.color_mode, ColorMode::Spectral);
}

fn area() -> Area {
    Area {
        left: s(10.0),
        bottom: s(120.0),
        width: s(200.0),
        height: s(100.0),
        center_y: s(70.0),
    }
}

#[test]
fn columns_become_lines() {
    let params = params(ReductionMode::Peak, 2);
    let columns = waveform_columns(&analysis(), &params, s(200.0), false);
    let shaped = singles(&[0.5, 1.0]);
    let shades = vec![columns[0].bands; 2];
    let bars = waveform_bars(&area(), &params, false, s(100.0), &columns, &shaped, &shades);

    let half = 100.0_f32 * 0.46;
    let height = 0.5 * half * 1.4_f32;
    assert_eq!(f(bars[0].x), 10.0 + 0.5 * 100.0);
    assert_eq!(f(bars[0].top), 70.0 - height);
    assert_eq!(f(bars[0].bottom), 70.0 + height);
    assert_eq!(bars[0].color, Color { r: 96, g: 158, b: 184 });
    assert_eq!(f(bars[1].top), 70.0 - half);
    assert_eq!(bars[1].color, Color { r: 72, g: 78, b: 84 });
    assert_eq!(f(bar_width(&area(), 2)), 99.0);
    assert_eq!(f(bar_width(&area(), 400)), 1.0);
    assert!(holds_bars(&area()));

    let mut flat = params;
    flat.mirror = false;
    let up = waveform_bars(&area(), &flat, false, s(100.0), &columns, &singles(&[0.0, 0.5]), &shades);
    assert_eq!(f(up[0].bottom), 70.0 + half);
    assert_eq!(f(up[0].top), 70.0 + half - 2.0 * 0.5);
}

#[test]
fn what_has_played_ends_at_the_position() {
    assert_eq!(f(played_x(&area(), s(15.0), Duration::from_secs(60))), 60.0);
    assert_eq!(f(played_x(&area(), s(99.0), Duration::from_secs(60))), 210.0);
    assert_eq!(f(played_x(&area(), s(99.0), Duration::zero())), 10.0);
}

#[test]
fn levels_run_from_green_to_red() {
    let green = Color { r: 54, g: 200, b: 88 };
    let yellow = Color { r: 232, g: 197, b: 58 };
    let red = Color { r: 229, g: 72, b: 58 };
    assert_eq!(level_color(s(0.0)), green);
    assert_eq!(level_color(s(-1.0)), green);
    assert_eq!(level_color(s(0.6)), yellow);
    assert_eq!(level_color(s(1.0)), red);
    assert_eq!(level_color(s(7.0)), red);
    assert_eq!(lerp_color(green, red, s(0.5)), Color { r: 142, g: 136, b: 73 });
    assert_eq!(lerp_color(green, red, s(0.0)), green);
    assert_eq!(lerp_color(green, red, s(1.0)), red);
}

#[test]
fn bands_color_a_column() {
    let levels = BandLevels { low: s(0.25), mid: s(0.1), high: s(0.0) };
    assert_eq!(f(levels.dominant()), 0.25);
    let balance = levels.balance();
    assert_eq!((f(balance.low), f(balance.high)), (1.0, 0.0));
    let power = |x: Single| s(f(x).powf(0.7));
    let shades = BandLevels {
        low: power(balance.low),
        mid: power(balance.mid),
        high: power(balance.high),
    };
    let scale = 255.0 * ((0.35 + 0.65 * 0.5_f32) * 1.0);
    let played = spectral_color(levels, shades, true);
    assert_eq!(played.r, scale as u8);
    assert_eq!(played.g, ((0.1_f32 / 0.25).powf(0.7) * scale) as u8);
    assert_eq!(played.b, 0);
    let dim = spectral_color(levels, shades, false);
    assert_eq!(dim.r, (255.0 * ((0.35 + 0.65 * 0.5_f32) * 0.45)) as u8);
    let quiet = BandLevels { low: s(0.0), mid: s(0.0), high: s(0.0) };
    assert_eq!(f(quiet.dominant()), 1e-4);
}
