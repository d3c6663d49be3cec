use music_player::audio::VIZ_RING;
use music_player::single::Single;
use music_player::spectrum::{
    compute_edges, edge_exponents, edge_ratio, window_angles, SpectrumAnalyzer,
    SpectrumDisplayMode, SpectrumParams, BAR_COUNT, FFT_SIZE, MAX_BIN,
};
use realfft::RealFftPlanner;

const SAMPLE_RATE: u32 = 44_100;

fn s(x: f32) -> Single {
    Single::from_bits(x.to_bits())
}

fn f(x: Single) -> f32 {
    f32::from_bits(x.to_bits())
}

fn powers(sample_rate: u32) -> Vec<Single> {
    let ratio = f(edge_ratio(sample_rate));
    edge_exponents().into_iter().map(|e| s(ratio.powf(f(e)))).collect()
}

fn analyzer(sample_rate: u32) -> SpectrumAnalyzer {
    let sines: Vec<Single> = window_angles().into_iter().map(|a| s(f(a).sin())).collect();
    SpectrumAnalyzer::new(sample_rate, &sines, &powers(sample_rate))
}

fn update(analyzer: &mut SpectrumAnalyzer, samples: &[f32], params: &SpectrumParams, dt: f32) {
    let samples: Vec<Single> = samples.iter().map(|x| s(*x)).collect();
    let mut input: Vec<f32> = analyzer.transform_input(&samples).into_iter().map(f).collect();
    let fft = RealFftPlanner::<f32>::new().plan_fft_forward(FFT_SIZE);
    let mut spectrum = fft.make_output_vec();
    fft.process(&mut input, &mut spectrum).unwrap();
    let magnitudes: Vec<Single> = spectrum.iter().map(|bin| s(bin.norm())).collect();
    let logs: Vec<Single> = analyzer
        .amplitudes(&magnitudes)
        .into_iter()
        .map(|a| s(f(a).log10()))
        .collect();
    analyzer.update(&logs, params, s(dt));
}

fn tone(freq: f32, amplitude: f32) -> Vec<f32> {
    (0..FFT_SIZE)
        .map(|i| {
            let t = i as f32 / SAMPLE_RATE as f32;
            amplitude * (std::f32::consts::TAU * freq * t).sin()
        })
        .collect()
}

fn max_bar(analyzer: &SpectrumAnalyzer) -> f32 {
    analyzer.bars().iter().map(|x| f(*x)).fold(0.0, f32::max)
}

#[test]
fn silence_leaves_bars_at_zero() {
    let mut analyzer = analyzer(SAMPLE_RATE);
    update(&mut analyzer, &vec![0.0; FFT_SIZE], &SpectrumParams::default(), 0.033);
    assert!(
        max_bar(&analyzer) < 1e-3,
        "silence should not light any bar"
    );
}

#[test]
fn loud_tone_lights_the_strip() {
    let mut analyzer = analyzer(SAMPLE_RATE);
    update(&mut analyzer, &tone(1_000.0, 1.0), &SpectrumParams::default(), 0.033);
    assert!(
        max_bar(&analyzer) > 0.5,
        "a full-scale tone should drive a bar near the top"
    );
}

#[test]
fn tone_energy_is_localized_not_smeared() {
    let mut analyzer = analyzer(SAMPLE_RATE);
    update(&mut analyzer, &tone(1_000.0, 1.0), &SpectrumParams::default(), 0.033);
    let bars = analyzer.bars();
    assert_eq!(bars.len(), BAR_COUNT);
    // A 1 kHz tone should leave the sub-bass bar quiet while a mid bar peaks.
    assert!(
        f(bars[0]) < 0.2,
        "sub-bass bar should stay low for a 1 kHz tone (was {})",
        f(bars[0])
    );
}

#[test]
fn the_tap_holds_a_whole_window() {
    assert_eq!(VIZ_RING, FFT_SIZE);
}

#[test]
fn the_window_is_a_squared_sine() {
    let angles = window_angles();
    assert_eq!(angles.len(), FFT_SIZE);
    assert_eq!(f(angles[0]), 0.0);
    assert_eq!(
        f(angles[700]),
        std::f32::consts::PI * 700.0 / (FFT_SIZE as f32 - 1.0)
    );
    let fresh = analyzer(SAMPLE_RATE);
    let input = fresh.transform_input(&vec![s(1.0); FFT_SIZE]);
    let sine = f(angles[700]).sin();
    assert_eq!(f(input[700]), sine * sine);
}

#[test]
fn a_short_run_is_padded_in_front() {
    let fresh = analyzer(SAMPLE_RATE);
    let full = fresh.transform_input(&vec![s(1.0); FFT_SIZE]);
    let input = fresh.transform_input(&vec![s(1.0); 5]);
    assert_eq!(input.len(), FFT_SIZE);
    assert!(input[..FFT_SIZE - 5].iter().all(|x| f(*x) == 0.0));
    assert_eq!(f(input[FFT_SIZE - 3]), f(full[FFT_SIZE - 3]));

    let mut long = vec![s(9.0); 100];
    long.extend(vec![s(1.0); FFT_SIZE]);
    assert_eq!(fresh.transform_input(&long), full);
}

#[test]
fn every_bar_reads_at_least_one_bin() {
    for rate in [0, 1, 8_000, 44_100, 48_000, 192_000] {
        let edges = compute_edges(rate, &powers(rate));
        assert_eq!(edges.len(), BAR_COUNT);
        for (start, end) in &edges {
            assert!(1 <= *start && start < end && *end <= MAX_BIN + 1);
        }
        for pair in edges.windows(2) {
            assert_eq!(pair[1].0, pair[0].1.min(MAX_BIN));
        }
    }
    assert_eq!(compute_edges(44_100, &powers(44_100))[0], (1, 2));
}

#[test]
fn bars_fall_by_steps_and_caps_wait() {
    let mut analyzer = analyzer(SAMPLE_RATE);
    let params = SpectrumParams::default();
    let loud = vec![s(-1.0); BAR_COUNT];
    let quiet = vec![s(-9.0); BAR_COUNT];

    // 20 dB below full scale: (-20 + 84) / 66.
    analyzer.update(&loud, &params, s(0.1));
    let height = (-20.0_f32 - -84.0) / (-18.0_f32 - -84.0);
    assert_eq!(f(analyzer.bars()[7]), height);
    assert_eq!(f(analyzer.peaks()[7]), height);

    analyzer.update(&quiet, &params, s(0.1));
    assert_eq!(f(analyzer.bars()[7]), height * 0.88);
    assert_eq!(f(analyzer.peaks()[7]), height);

    analyzer.decay(s(0.6));
    assert_eq!(f(analyzer.bars()[7]), height * 0.88 * 0.88);
    assert_eq!(f(analyzer.peaks()[7]), height);

    // The wait is over: one step of falling.
    analyzer.decay(s(0.1));
    let fallen = height - (0.0 + 1.8_f32 * 0.1) * 0.1;
    assert_eq!(f(analyzer.peaks()[7]), fallen);

    for _ in 0..200 {
        analyzer.decay(s(0.1));
        for i in 0..BAR_COUNT {
            assert!(f(analyzer.bars()[i]) <= f(analyzer.peaks()[i]));
            assert!(f(analyzer.peaks()[i]) <= 1.0);
        }
    }
}

#[test]
fn the_floor_keeps_below_the_ceiling() {
    let mut params = SpectrumParams::default();
    params.keep_gap();
    assert_eq!(f(params.db_floor), -84.0);
    params.db_floor = s(-30.0);
    params.db_ceil = s(-30.0);
    params.keep_gap();
    assert_eq!(f(params.db_floor), -36.0);
}

fn input_of(analyzer: &SpectrumAnalyzer, samples: &[f32]) -> Vec<u32> {
    let samples: Vec<Single> = samples.iter().map(|x| s(*x)).collect();
    analyzer.transform_input(&samples).into_iter().map(|x| x.to_bits()).collect()
}

#[test]
fn only_the_latest_samples_are_transformed() {
    let analyzer = analyzer(SAMPLE_RATE);
    let tone = tone(440.0, 0.5);
    let mut longer = vec![0.9; 100];
    longer.extend_from_slice(&tone);
    assert_eq!(input_of(&analyzer, &longer), input_of(&analyzer, &tone));

    let short = &tone[..500];
    let mut padded = vec![0.0; FFT_SIZE - 500];
    padded.extend_from_slice(short);
    assert_eq!(input_of(&analyzer, short), input_of(&analyzer, &padded));
    assert_eq!(input_of(&analyzer, &[]), vec![0; FFT_SIZE]);
}

#[test]
fn the_style_does_not_move_the_bars() {
    let plain = SpectrumParams::default();
    let styled = SpectrumParams {
        mode: SpectrumDisplayMode::Line,
        peak_caps: false,
        symmetric: false,
        ..plain
    };
    let mut one = analyzer(SAMPLE_RATE);
    let mut other = analyzer(SAMPLE_RATE);
    for amplitude in [1.0, 0.3, 0.0] {
        update(&mut one, &tone(1_000.0, amplitude), &plain, 0.033);
        update(&mut other, &tone(1_000.0, amplitude), &styled, 0.033);
        assert_eq!(one.bars(), other.bars());
        assert_eq!(one.peaks(), other.peaks());
    }
    assert!(max_bar(&one) > 0.0);
}

fn height_at(db: f32, sensitivity: f32) -> f32 {
    let mut params = SpectrumParams::default();
    params.sensitivity = s(sensitivity);
    let mut analyzer = analyzer(SAMPLE_RATE);
    analyzer.update(&vec![s(db / 20.0); BAR_COUNT], &params, s(0.033));
    f(analyzer.bars()[0])
}

#[test]
fn bars_go_from_the_floor_to_the_ceiling() {
    // Twenty times these logarithms are the floor and the ceiling to the last bit.
    assert_eq!(20.0 * (-84.0_f32 / 20.0), -84.0);
    assert_eq!(20.0 * (-18.0_f32 / 20.0), -18.0);
    for sensitivity in [1.0, 2.0, 9.0] {
        assert_eq!(height_at(-84.0, sensitivity), 0.0);
        assert_eq!(height_at(-18.0, sensitivity), 1.0);
    }
    assert_eq!(height_at(-84.0, 0.5), 0.0);
    assert_eq!(height_at(-18.0, 0.5), 0.5);
    assert_eq!(height_at(-18.0, 0.0), 0.25);
    assert_eq!(height_at(-51.0, 1.0), 0.5);
}

#[test]
fn caps_stay_in_height_however_long_it_runs() {
    let mut analyzer = analyzer(SAMPLE_RATE);
    let params = SpectrumParams::default();
    let steps = [0.0, -0.0, 0.033, 1.0, f32::MAX, f32::INFINITY, 0.0, 0.5];
    for (round, amplitude) in [1.0, 0.0, 0.5, 0.0, 0.0, 1.0].into_iter().enumerate() {
        for dt in steps {
            if round % 2 == 0 {
                update(&mut analyzer, &tone(1_000.0, amplitude), &params, dt);
            } else {
                analyzer.decay(s(dt));
            }
            for (bar, cap) in analyzer.bars().iter().zip(analyzer.peaks()) {
                assert!(0.0 <= f(*bar) && f(*bar) <= f(*cap) && f(*cap) <= 1.0);
            }
        }
    }
}
