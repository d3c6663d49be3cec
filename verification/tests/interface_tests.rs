use music_player::audio::{Conversion, PlaybackBuffer, TransportState};
use music_player::columns::Area;
use music_player::decoder::{DecodeError, DecodedTrack};
use music_player::display::{
    animation_step, cover_side, first_status, fit_size, format_band, format_bitrate,
    format_duration, format_duration_secs, loading_status, optional_text, display_path,
    show_track_info, traktor_label, Size,
};
use music_player::loading::{
    check_memory, load_track, poll_load, prepare_playback_buffer, LoadOutcome, LoadPoll, LoadStep, LoadedData,
};
use music_player::metadata::{MetadataError, TrackInfo};
use music_player::meter::{measure, paint_clip_meter, ClipMeter};
use music_player::path::FilePath;
use music_player::single::Single;
use music_player::single_instance::{
    acquire, first_file, forward, latest_request, path_from_os, requested_path, Startup,
    StartupEvent, StartupStep,
};
use music_player::spectrum::{SpectrumDisplayMode, SpectrumParams};
use music_player::strip::{mountain_triangles, paint_spectrum, StripBar, RidgePoint, StripPicture};
use music_player::time::Duration;
use music_player::transport::{
    bars_to_seconds, controls_offset, jump_buttons, parse_bpm, seek_target, tempo_to_parse,
    visualizer_step, VisualizerStep,
};
use music_player::waveform::WaveformAnalysis;

fn s(x: f32) -> Single {
    Single::from_bits(x.to_bits())
}

fn f(x: Single) -> f32 {
    f32::from_bits(x.to_bits())
}

fn singles(values: &[f32]) -> Vec<Single> {
    values.iter().map(|x| s(*x)).collect()
}

fn floats(values: &[Single]) -> Vec<f32> {
    values.iter().map(|x| f(*x)).collect()
}

fn path(text: &str) -> FilePath {
    FilePath::from_text(text)
}

#[test]
fn time_is_shown_in_minutes_and_seconds() {
    assert_eq!(format_duration_secs(s(0.0)), "0:00");
    assert_eq!(format_duration_secs(s(59.4)), "0:59");
    assert_eq!(format_duration_secs(s(59.5)), "1:00");
    assert_eq!(format_duration_secs(s(-3.0)), "0:00");
    assert_eq!(format_duration_secs(s(f32::NAN)), "0:00");
    assert_eq!(format_duration_secs(s(3725.0)), "62:05");
    assert_eq!(format_duration(Duration { seconds: 130, nanos: 700_000_000 }), "2:11");
    assert_eq!(format_duration_secs(s(f32::INFINITY)), format!("{}:15", u64::MAX / 60));
}

#[test]
fn bands_and_bitrates_have_labels() {
    assert_eq!(format_band(s(31.0)), "31");
    assert_eq!(format_band(s(500.0)), "500");
    assert_eq!(format_band(s(1000.0)), "1k");
    assert_eq!(format_band(s(16_000.0)), "16k");
    assert_eq!(format_band(s(999.9)), "999");
    assert_eq!(format_band(s(1e30)), "4294967295k");
    assert_eq!(format_bitrate(320), "320 kbps");
}

#[test]
fn status_and_rows_tell_what_is_loaded() {
    assert_eq!(first_status(), "Open or drop one audio file.");
    assert_eq!(loading_status(&path("a/b.mp3")), "Loading b.mp3\u{2026}");
    assert_eq!(traktor_label(true), "Traktor analyzed");
    assert_eq!(traktor_label(false), "Not Traktor analyzed");
    assert_eq!(optional_text(&None), "-");
    assert_eq!(optional_text(&Some("x".to_owned())), "x");
    assert_eq!(display_path(&path("a/b")), "a/b");

    let mut info = TrackInfo::fallback(path("a/b.mp3"));
    let rows = |info: &TrackInfo| -> Vec<(String, String)> {
        show_track_info(info, Duration::from_secs(61))
            .into_iter()
            .map(|row| (row.label, row.value))
            .collect()
    };
    let row = |label: &str, value: &str| (label.to_owned(), value.to_owned());
    assert_eq!(
        rows(&info),
        vec![
            row("Title", "b"),
            row("Artist", "-"),
            row("Duration", "1:01"),
            row("File", "a/b.mp3")
        ]
    );
    info.artist = Some("A".to_owned());
    info.genre = Some("G".to_owned());
    info.bpm = Some("120".to_owned());
    info.key = Some("1d".to_owned());
    info.bitrate = Some(128);
    info.traktor_analyzed = true;
    let labels: Vec<String> = rows(&info).into_iter().map(|row| row.0).collect();
    assert_eq!(
        labels,
        ["Title", "Artist", "Genre", "BPM", "Key", "Duration", "Bitrate", "Analyzed", "File"]
    );
}

#[test]
fn pictures_keep_their_shape() {
    let size = |w: f32, h: f32| Size { width: s(w), height: s(h) };
    let fitted = fit_size(size(200.0, 100.0), size(50.0, 50.0));
    assert_eq!((f(fitted.width), f(fitted.height)), (50.0, 25.0));
    let free = fit_size(size(0.0, 100.0), size(50.0, 40.0));
    assert_eq!((f(free.width), f(free.height)), (50.0, 40.0));
    assert_eq!(f(cover_side(size(1000.0, 300.0))), 300.0);
    assert_eq!(f(cover_side(size(1000.0, 30.0))), 180.0);
    assert_eq!(f(cover_side(size(1000.0, 900.0))), 420.0);
    assert_eq!(f(animation_step(s(3.0))), 0.1);
    assert_eq!(f(animation_step(s(-1.0))), 0.0);
    assert_eq!(f(animation_step(s(0.03))), 0.03);
}

#[test]
fn clicks_seek_along_the_waveform() {
    let minute = Duration::from_secs(60);
    assert_eq!(seek_target(s(60.0), s(10.0), s(100.0), minute).map(f), Some(30.0));
    assert_eq!(seek_target(s(0.0), s(10.0), s(100.0), minute).map(f), Some(0.0));
    assert_eq!(seek_target(s(999.0), s(10.0), s(100.0), minute).map(f), Some(60.0));
    assert!(seek_target(s(60.0), s(10.0), s(100.0), Duration::zero()).is_none());
    assert_eq!(f(controls_offset(s(300.0), s(100.0))), 100.0);
    assert_eq!(f(controls_offset(s(50.0), s(100.0))), 0.0);
}

#[test]
fn jumps_follow_the_tempo() {
    assert_eq!(f(bars_to_seconds(4, s(120.0))), 8.0);
    assert_eq!(f(bars_to_seconds(-32, s(128.0))), -60.0);
    assert_eq!(f(bars_to_seconds(16, s(126.5))), 16.0_f32 * 4.0 * 60.0 / 126.5);

    let back: Vec<(String, f32, Option<u32>)> = jump_buttons(Some(s(120.0)), true)
        .into_iter()
        .map(|jump| (jump.label, f(jump.seconds), jump.bars))
        .collect();
    assert_eq!(
        back,
        vec![
            ("-32".to_owned(), -64.0, Some(32)),
            ("-16".to_owned(), -32.0, Some(16)),
            ("-8".to_owned(), -16.0, Some(8)),
            ("-4".to_owned(), -8.0, Some(4)),
        ]
    );
    let ahead: Vec<String> =
        jump_buttons(Some(s(120.0)), false).into_iter().map(|jump| jump.label).collect();
    assert_eq!(ahead, ["+4", "+8", "+16", "+32"]);
    let plain = jump_buttons(None, true);
    assert_eq!(plain.len(), 1);
    assert_eq!(plain[0].label, "-10");
    assert_eq!(f(plain[0].seconds), -10.0);
    assert_eq!(jump_buttons(None, false)[0].label, "+10");
    assert_eq!(f(jump_buttons(None, false)[0].seconds), 10.0);
}

#[test]
fn jumps_back_and_forth_are_even() {
    for bars in [4, 8, 16, 32] {
        for bpm in [60.0, 93.7, 126.0, 174.3] {
            let ahead = f(bars_to_seconds(bars, s(bpm)));
            assert_eq!(f(bars_to_seconds(-bars, s(bpm))), -ahead);
        }
    }
}

#[test]
fn a_tempo_needs_an_analysis() {
    let mut info = TrackInfo::fallback(path("a.mp3"));
    info.bpm = Some(" 126 ".to_owned());
    assert_eq!(tempo_to_parse(&info), None);
    info.traktor_analyzed = true;
    assert_eq!(tempo_to_parse(&info).as_deref(), Some("126"));
    info.bpm = None;
    assert_eq!(tempo_to_parse(&info), None);

    assert_eq!(parse_bpm(Some(s(126.0))).map(f), Some(126.0));
    assert!(parse_bpm(Some(s(1.0))).is_none());
    assert!(parse_bpm(Some(s(-5.0))).is_none());
    assert!(parse_bpm(Some(s(f32::INFINITY))).is_none());
    assert!(parse_bpm(Some(s(f32::NAN))).is_none());
    assert!(parse_bpm(None).is_none());
}

#[test]
fn the_meter_rises_at_once_and_falls_slowly() {
    let mut meter = ClipMeter::default();
    let log = |peak: f32| s(f(measure(s(peak))).log10());
    meter.update(s(0.5), log(0.5), false, s(0.1));
    let level = ((20.0 * 0.5_f32.log10() + 48.0) / 48.0).clamp(0.0, 1.0);
    assert_eq!(f(meter.level), level);
    assert_eq!(f(meter.cap), level);
    assert_eq!(f(meter.clip_latch), 0.0);

    meter.decay(log(0.0), s(0.1));
    assert_eq!(f(meter.level), level - 1.4_f32 * 0.1);
    assert_eq!(f(meter.cap), level - (0.9_f32 * 0.1) * 0.1);

    meter.update(s(1.2), log(1.2), true, s(0.1));
    assert_eq!(f(meter.level), 1.0);
    assert_eq!(f(meter.clip_latch), 0.9);
    meter.decay(log(0.0), s(0.5));
    assert_eq!(f(meter.clip_latch), 0.9_f32 - 0.5);
    for _ in 0..50 {
        meter.decay(log(0.0), s(0.1));
        assert!(f(meter.level) <= f(meter.cap) && f(meter.level) >= 0.0);
    }
    assert_eq!(f(meter.level), 0.0);
    assert_eq!(f(meter.clip_latch), 0.0);
}

#[test]
fn the_clip_light_marks_peaks_past_full_scale_only() {
    let log = |peak: f32| s(f(measure(s(peak))).log10());
    let mut meter = ClipMeter::default();
    meter.update(s(1.0), log(1.0), false, s(0.1));
    assert_eq!(f(meter.level), 1.0);
    assert_eq!(f(meter.cap), 1.0);
    assert_eq!(f(meter.clip_latch), 0.0);
    meter.update(s(1.000_000_1), log(1.000_000_1), false, s(0.1));
    assert_eq!(f(meter.clip_latch), 0.9);
    let mut marked = ClipMeter::default();
    marked.update(s(0.5), log(0.5), true, s(0.1));
    assert_eq!(f(marked.clip_latch), 0.9);
}

#[test]
fn the_meter_stays_in_height_however_long_it_runs() {
    let log = |peak: f32| s(f(measure(s(peak))).log10());
    let mut meter = ClipMeter::default();
    for peak in [0.5, 2.0, 0.0, f32::INFINITY, 0.1, 0.0] {
        for dt in [0.0, -0.0, 0.1, 10.0, f32::INFINITY, 0.0] {
            meter.update(s(peak), log(peak), false, s(dt));
            assert!(0.0 <= f(meter.level) && f(meter.level) <= f(meter.cap));
            assert!(f(meter.cap) <= 1.0);
            assert!((0.0..=0.9).contains(&f(meter.clip_latch)));
        }
    }
}

#[test]
fn visualizers_follow_what_plays() {
    assert_eq!(visualizer_step(true, TransportState::Playing), VisualizerStep::Follow);
    assert_eq!(visualizer_step(true, TransportState::Paused), VisualizerStep::Sink);
    assert_eq!(visualizer_step(true, TransportState::Stopped), VisualizerStep::Sink);
    assert_eq!(visualizer_step(false, TransportState::Playing), VisualizerStep::Rest);
}

#[test]
fn the_meter_is_drawn_from_its_bottom() {
    let mut meter = ClipMeter::default();
    let empty = paint_clip_meter(&meter, s(10.0), s(38.0), s(28.0));
    assert!(empty.bar_top.is_none());
    assert!(empty.clip_bottom.is_none());
    assert_eq!(f(empty.cap_y), 38.0);
    meter.level = s(0.5);
    meter.cap = s(0.75);
    meter.clip_latch = s(0.1);
    let lit = paint_clip_meter(&meter, s(10.0), s(38.0), s(28.0));
    assert_eq!(lit.bar_top.map(f), Some(24.0));
    assert_eq!(f(lit.cap_y), 17.0);
    assert_eq!(lit.clip_bottom.map(f), Some(10.0 + 28.0_f32 * 0.14));
}

fn strip_area(width: f32) -> Area {
    Area {
        left: s(6.0),
        bottom: s(63.0),
        width: s(width),
        height: s(58.0),
        center_y: s(34.0),
    }
}

fn strip_params(mode: SpectrumDisplayMode, symmetric: bool) -> SpectrumParams {
    let mut params = SpectrumParams::default();
    params.mode = mode;
    params.symmetric = symmetric;
    params
}

fn bars_of(picture: StripPicture) -> Vec<StripBar> {
    match picture {
        StripPicture::Bars(bars) => bars,
        _ => panic!("bars are drawn"),
    }
}

fn ridge_of(picture: StripPicture) -> Vec<RidgePoint> {
    match picture {
        StripPicture::Line(ridge) => ridge,
        _ => panic!("a line is drawn"),
    }
}

#[test]
fn the_strip_shows_bars_from_low_to_high() {
    let bars = singles(&[0.1, 0.5, 0.25, 0.0]);
    let peaks = singles(&[0.2, 1.0, 0.5, 0.0]);
    let params = strip_params(SpectrumDisplayMode::Bars, false);
    let shown = bars_of(paint_spectrum(&strip_area(10.0), &params, &bars, &peaks));

    assert_eq!(shown.len(), 2);
    let gap = (5.0_f32 * 0.22).clamp(0.5, 3.0);
    assert_eq!(f(shown[1].left), 6.0 + 5.0 + gap * 0.5);
    assert_eq!(f(shown[1].right), 6.0 + 5.0 + gap * 0.5 + (5.0 - gap));
    assert_eq!(f(shown[0].top), 62.0 - 0.5 * 56.0);
    assert_eq!(shown[0].cap.map(f), Some(62.0 - 56.0));
    assert!(shown[0].visible);

    let narrow = bars_of(paint_spectrum(&strip_area(1000.0), &params, &bars, &peaks));
    assert_eq!(narrow.len(), 4);
    assert!(!narrow[3].visible);
}

#[test]
fn the_symmetric_strip_mirrors_its_halves() {
    let bars = singles(&[0.1, 0.5, 0.25, 0.0]);
    let peaks = singles(&[0.2, 1.0, 0.5, 0.0]);
    let mut params = strip_params(SpectrumDisplayMode::Bars, true);
    let shown = bars_of(paint_spectrum(&strip_area(40.0), &params, &bars, &peaks));
    assert_eq!(shown.len(), 8);
    // The left edge is the highest frequency, the middle the lowest.
    assert_eq!(f(shown[0].top), 62.0);
    assert_eq!(f(shown[1].top), 62.0 - 0.1_f32 * 56.0);
    assert_eq!(f(shown[6].top), f(shown[1].top));
    assert_eq!(f(shown[1].left), 26.0 + (5.0_f32 * 0.22) * 0.5);
    for i in 0..8 {
        assert_eq!(f(shown[i].top), f(shown[7 - i].top));
        assert_eq!(shown[i].visible, shown[7 - i].visible);
        assert_eq!(shown[i].cap.map(f), shown[7 - i].cap.map(f));
    }

    params.mode = SpectrumDisplayMode::Line;
    params.peak_caps = false;
    let ridge = ridge_of(paint_spectrum(&strip_area(40.0), &params, &bars, &peaks));
    assert_eq!(ridge.len(), 8);
    assert_eq!(f(ridge[0].x), 8.5);
    assert_eq!(f(ridge[4].x), 28.5);
    for i in 0..8 {
        assert_eq!(f(ridge[i].y), f(ridge[7 - i].y));
        assert!(ridge[i].cap.is_none());
    }
}

#[test]
fn a_wider_strip_shows_more_bars() {
    let bars = singles(&[0.5; 192]);
    for symmetric in [false, true] {
        let params = strip_params(SpectrumDisplayMode::Bars, symmetric);
        let mut before = 0;
        for width in 2..=2200 {
            let area = strip_area(width as f32);
            let shown = bars_of(paint_spectrum(&area, &params, &bars, &bars)).len();
            assert!(shown >= before);
            before = shown;
        }
        assert_eq!(before, if symmetric { 384 } else { 192 });
    }
}

#[test]
fn the_strip_needs_room_and_bars() {
    let params = SpectrumParams::default();
    let none = paint_spectrum(&strip_area(1.0), &params, &singles(&[0.5]), &singles(&[0.5]));
    assert!(matches!(none, StripPicture::Nothing));
    assert!(matches!(
        paint_spectrum(&strip_area(40.0), &params, &[], &[]),
        StripPicture::Nothing
    ));
}

#[test]
fn the_mountain_is_filled_with_triangles() {
    assert!(mountain_triangles(0).is_empty());
    assert!(mountain_triangles(1).is_empty());
    assert_eq!(
        mountain_triangles(3),
        vec![(0, 1, 2), (1, 3, 2), (2, 3, 4), (3, 5, 4)]
    );
}

fn decoded(samples: &[f32], rate: u32, channels: usize) -> DecodedTrack {
    DecodedTrack {
        path: path("a.mp3"),
        samples: singles(samples),
        sample_rate: rate,
        channels,
        duration: Duration::from_secs(2),
        waveform: WaveformAnalysis::default(),
    }
}

fn unconverted() -> Conversion {
    Ok((Vec::new(), 0))
}

fn unread() -> Result<TrackInfo, MetadataError> {
    Err(MetadataError::Read { path: path("a.mp3"), message: "none".to_owned() })
}

fn loaded(outcome: LoadOutcome) -> LoadedData {
    match outcome {
        LoadOutcome::Loaded(data) => *data,
        LoadOutcome::Failed(error) => panic!("{error}"),
    }
}

fn failed(outcome: LoadOutcome) -> String {
    match outcome {
        LoadOutcome::Failed(error) => error,
        LoadOutcome::Loaded(_) => panic!("the load fails"),
    }
}

#[test]
fn tracks_are_prepared_for_the_device() {
    let track = decoded(&[0.5, 0.25, 1.0, 0.0], 44_100, 2);
    let buffer: PlaybackBuffer =
        prepare_playback_buffer(&track, 44_100, 1, unconverted()).unwrap();
    assert_eq!(floats(&buffer.samples), vec![0.375, 0.5]);
    assert_eq!((buffer.sample_rate, buffer.channels), (44_100, 1));

    let converted = Ok((singles(&[0.1, 0.2, 0.3, 0.4]), 1));
    let other = prepare_playback_buffer(&track, 48_000, 4, converted).unwrap();
    assert_eq!(floats(&other.samples), vec![0.1, 0.2, 0.2, 0.2]);
}

#[test]
fn what_does_not_fit_in_memory_is_told_before() {
    let track = decoded(&[0.5, 0.25, 1.0, 0.0], 44_100, 2);
    assert!(check_memory(&track, 44_100, 2, &unconverted()));
    assert!(!check_memory(&track, 44_100, usize::MAX, &unconverted()));
    assert!(!check_memory(&track, 48_000, 2, &Ok((Vec::new(), usize::MAX))));
    assert!(check_memory(&track, 48_000, usize::MAX, &Ok((singles(&[0.1, 0.2]), 1))));
    assert!(!check_memory(&track, 48_000, usize::MAX, &Ok((singles(&[0.1; 4]), 2))));
    assert!(check_memory(&track, 48_000, usize::MAX, &Err("no converter".to_owned())));
    assert!(check_memory(&decoded(&[0.5], 8_000, 0), 8_000, usize::MAX, &unconverted()));
}

#[test]
fn loading_puts_tags_and_samples_together() {
    let track = decoded(&[0.5, 0.25], 44_100, 2);
    let data = loaded(load_track(
        path("dir/a.mp3"),
        Ok(track),
        unread(),
        Some((44_100, 2)),
        unconverted(),
    ));
    assert_eq!(data.info.title, "a");
    assert_eq!(data.info.duration, Some(Duration::from_secs(2)));
    assert_eq!(data.info.sample_rate, Some(44_100));
    assert_eq!(data.info.channels, Some(2));
    assert_eq!(floats(&data.buffer.unwrap().samples), vec![0.5, 0.25]);

    let mut tags = TrackInfo::fallback(path("b.mp3"));
    tags.title = "Tagged".to_owned();
    let silent = loaded(load_track(
        path("b.mp3"),
        Ok(decoded(&[0.5], 22_050, 1)),
        Ok(tags),
        None,
        unconverted(),
    ));
    assert_eq!(silent.info.title, "Tagged");
    assert_eq!(silent.info.sample_rate, Some(22_050));
    assert!(silent.buffer.is_none());
}

#[test]
fn loads_that_fail_say_why() {
    let error = DecodeError::EmptyAudio { path: path("e.mp3") };
    assert_eq!(
        failed(load_track(path("e.mp3"), Err(error), unread(), None, unconverted())),
        "Audio file has no decoded samples: e.mp3"
    );
    let track = decoded(&[0.5], 44_100, 1);
    assert_eq!(
        failed(load_track(
            path("e.mp3"),
            Ok(track),
            unread(),
            Some((48_000, 2)),
            Err("no plan".to_owned())
        )),
        "Could not resample audio: no plan"
    );
}

#[test]
fn finished_loads_are_taken_on() {
    assert!(matches!(poll_load(LoadPoll::Waiting), LoadStep::Wait));
    assert!(matches!(poll_load(LoadPoll::Gone), LoadStep::Forget));
    match poll_load(LoadPoll::Done(LoadOutcome::Failed("bad".to_owned()))) {
        LoadStep::Report(status) => assert_eq!(status, "bad"),
        _ => panic!("a failure is reported"),
    }
    let track = decoded(&[0.5], 44_100, 1);
    let outcome = load_track(path("song.mp3"), Ok(track), unread(), None, unconverted());
    match poll_load(LoadPoll::Done(outcome)) {
        LoadStep::Take(status, data) => {
            assert_eq!(status, "Loaded song");
            assert_eq!(data.info.title, "song");
        }
        _ => panic!("a loaded track is taken on"),
    }
}

#[test]
fn one_launch_owns_the_window() {
    assert_eq!(acquire(StartupEvent::Launched), StartupStep::Forward);
    let forwarded = |reached, bound_before| {
        acquire(StartupEvent::Forwarded { reached, bound_before })
    };
    assert_eq!(forwarded(true, false), StartupStep::Settled(Startup::Secondary));
    assert_eq!(forwarded(false, false), StartupStep::Bind);
    assert_eq!(forwarded(false, true), StartupStep::Settled(Startup::Secondary));
    assert_eq!(
        acquire(StartupEvent::Bound { listening: true }),
        StartupStep::Settled(Startup::Primary)
    );
    assert_eq!(acquire(StartupEvent::Bound { listening: false }), StartupStep::Forward);
}

#[test]
fn requests_arrive_as_they_were_sent() {
    let sent = path("C:\\Music\\d\u{e9}j\u{e0} vu.mp3");
    let request = forward(&sent);
    assert_eq!(requested_path(&request), Some(sent));
    assert_eq!(requested_path("  a.mp3\n"), Some(path("a.mp3")));
    assert_eq!(requested_path(" \n"), None);
    assert_eq!(path_from_os(Vec::new()), None);
    assert_eq!(path_from_os(b"a.mp3".to_vec()), Some(path("a.mp3")));
    assert_eq!(latest_request(0), None);
    assert_eq!(latest_request(3), Some(2));
    assert_eq!(first_file(&[false, true, true]), Some(1));
    assert_eq!(first_file(&[false]), None);
}
