use music_player::audio::{clamp_seek_seconds, EqSettings, EQ_BANDS_HZ};
use music_player::decoder::is_supported_extension;
use music_player::metadata::{metadata_fallback_from_path, TrackInfo};
use music_player::path::FilePath;
use music_player::single::Single;
use music_player::time::Duration;
use music_player::waveform::build_waveform;

fn s(x: f32) -> Single {
    Single::from_bits(x.to_bits())
}

fn f(x: Single) -> f32 {
    f32::from_bits(x.to_bits())
}

#[test]
fn waveform_generation_returns_requested_normalized_bins() {
    let samples: Vec<Single> = vec![0.0, 0.0, 0.5, -0.5, 1.0, -1.0, 0.25, -0.25]
        .into_iter()
        .map(s)
        .collect();

    let bins = build_waveform(&samples, 2, 4);

    assert_eq!(bins.len(), 4);
    assert_eq!(f(bins[0]), 0.0);
    assert!((f(bins[1]) - 0.5).abs() < f32::EPSILON);
    assert_eq!(f(bins[2]), 1.0);
    assert!((f(bins[3]) - 0.25).abs() < f32::EPSILON);
}

#[test]
fn seek_math_clamps_to_track_duration() {
    let duration = Duration::from_secs(180);

    assert_eq!(f(clamp_seek_seconds(s(-10.0), duration)), 0.0);
    assert_eq!(f(clamp_seek_seconds(s(42.5), duration)), 42.5);
    assert_eq!(f(clamp_seek_seconds(s(999.0), duration)), 180.0);
}

#[test]
fn equalizer_settings_clamp_gain_and_reset_to_flat() {
    let mut settings = EqSettings::default();

    settings.set_gain(0, s(-99.0));
    settings.set_gain(4, s(6.5));
    settings.set_gain(9, s(99.0));
    settings.set_gain(100, s(4.0));

    assert_eq!(
        EQ_BANDS_HZ.map(|hz| hz as f32),
        [
            31.0, 62.0, 125.0, 250.0, 500.0, 1000.0, 2000.0, 4000.0, 8000.0, 16000.0
        ]
    );
    assert_eq!(f(settings.gains_db()[0]), -12.0);
    assert_eq!(f(settings.gains_db()[4]), 6.5);
    assert_eq!(f(settings.gains_db()[9]), 12.0);

    settings.reset();

    assert!(settings.gains_db().iter().all(|gain| f(*gain) == 0.0));
}

#[test]
fn metadata_fallback_uses_file_stem_when_tags_are_missing() {
    let info = TrackInfo::fallback(FilePath::from_text(
        r"C:\Users\Phil\Downloads\Reverse Skydiving.mp3",
    ));

    assert_eq!(info.title, "Reverse Skydiving");
    assert_eq!(info.artist.as_deref(), None);
    assert_eq!(info.album.as_deref(), None);
    assert!(info.cover_art.is_none());
}

#[test]
fn metadata_path_helper_matches_trackinfo_fallback() {
    let info = metadata_fallback_from_path(FilePath::from_text("loose-download.wav"));

    assert_eq!(info.title, "loose-download");
    assert_eq!(info.path, FilePath::from_text("loose-download.wav"));
}

#[test]
fn supported_extension_scope_is_limited_to_v1_audio_formats() {
    assert!(is_supported_extension("mp3"));
    assert!(is_supported_extension("WAV"));
    assert!(is_supported_extension("flac"));
    assert!(is_supported_extension("m4a"));
    assert!(is_supported_extension("aac"));
    assert!(!is_supported_extension("ogg"));
    assert!(!is_supported_extension("wem"));
}

#[test]
fn extension_ignores_leading_dots() {
    assert!(is_supported_extension(".mp3"));
    assert!(is_supported_extension("..Flac"));
    assert!(!is_supported_extension("mp3 "));
    assert!(!is_supported_extension(""));
    assert!(!is_supported_extension("mp"));
    assert!(!is_supported_extension("mp33"));
}

#[test]
fn equalizer_gains_are_read_back() {
    let mut settings = EqSettings::default();
    settings.set_gain(2, s(1.5));

    assert!(settings.enabled());
    assert_eq!(settings.gain_db(2).map(f), Some(1.5));
    assert_eq!(settings.gain_db(3).map(f), Some(0.0));
    assert!(settings.gain_db(10).is_none());
    assert!(settings == settings);
    assert!(settings != EqSettings::default());
}
