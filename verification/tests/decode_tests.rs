use std::io::{Cursor, ErrorKind};

use biquad::{Biquad, Coefficients, DirectForm1, ToHertz, Type, Q_BUTTERWORTH_F32};
use lofty::file::{AudioFile, TaggedFileExt};
use lofty::prelude::Accessor;
use lofty::probe::Probe;
use lofty::tag::ItemKey;
use music_player::decoder::{
    check_extension, AudioCodec, AudioTrack, DecodeError, DecodedTrack, Decoding, NextStep,
    PacketDecoded, PacketRead,
};
use music_player::metadata::{read_id3v2_tag, read_track_info, Tag, TaggedFile, TrackInfo};
use music_player::path::FilePath;
use music_player::single::Single;
use music_player::time::Duration;
use music_player::waveform::{band_filters, mono_mix, BandSignals};

fn s(x: f32) -> Single {
    Single::from_bits(x.to_bits())
}

fn f(x: Single) -> f32 {
    f32::from_bits(x.to_bits())
}

fn filtered(kind: Type<f32>, rate: Single, frequency: Single, mono: &[Single]) -> Option<Vec<Single>> {
    let coefficients = Coefficients::<f32>::from_params(
        kind,
        f(rate).hz(),
        f(frequency).hz(),
        Q_BUTTERWORTH_F32,
    )
    .ok()?;
    let mut filter = DirectForm1::<f32>::new(coefficients);
    Some(mono.iter().map(|x| s(filter.run(f(*x)))).collect())
}

fn bands_of(decoding: &Decoding) -> BandSignals {
    let mono = mono_mix(decoding.samples(), decoding.channels());
    let Some(plan) = band_filters(decoding.sample_rate()) else {
        return BandSignals { low: None, mid: None, high: None };
    };
    BandSignals {
        low: filtered(Type::LowPass, plan.sample_rate, plan.low, &mono),
        mid: filtered(Type::BandPass, plan.sample_rate, plan.mid, &mono),
        high: filtered(Type::HighPass, plan.sample_rate, plan.high, &mono),
    }
}

fn decode_track(name: &str, bytes: Vec<u8>) -> Result<DecodedTrack, DecodeError> {
    let path = FilePath::from_text(name);
    let extension = check_extension(&path)?;
    let failed = |error: symphonia::core::errors::Error| DecodeError::Decode {
        path: FilePath::from_text(name),
        source: error.to_string(),
    };
    let mut hint = symphonia::core::formats::probe::Hint::new();
    hint.with_extension(&extension);
    let source = symphonia::core::io::MediaSourceStream::new(Box::new(Cursor::new(bytes)), Default::default());
    let mut format = symphonia::default::get_probe()
        .probe(
            &hint,
            source,
            symphonia::core::formats::FormatOptions::default(),
            symphonia::core::meta::MetadataOptions::default(),
        )
        .map_err(failed)?;
    let track = format.default_track(symphonia::core::formats::TrackType::Audio);
    let params = track
        .and_then(|track| track.codec_params.as_ref())
        .and_then(|params| params.audio())
        .cloned();
    let found = track.map(|track| AudioTrack {
        id: track.id,
        codec: params.as_ref().map(|params| AudioCodec {
            is_null: params.codec == symphonia::core::codecs::audio::CODEC_ID_NULL_AUDIO,
            sample_rate: params.sample_rate,
            channels: params.channels.as_ref().map(|channels| channels.count()),
        }),
    });
    let mut decoding = Decoding::begin(&path, found)?;
    let mut decoder = symphonia::default::get_codecs()
        .make_audio_decoder(&params.unwrap(), &symphonia::core::codecs::audio::AudioDecoderOptions::default())
        .map_err(failed)?;
    let mut scratch: Vec<f32> = Vec::new();
    loop {
        let (read, packet) = match format.next_packet() {
            Ok(Some(packet)) => (
                PacketRead::Packet { track_id: packet.track_id },
                Some(packet),
            ),
            Ok(None) => (PacketRead::End, None),
            Err(symphonia::core::errors::Error::IoError(error)) if error.kind() == ErrorKind::UnexpectedEof => {
                (PacketRead::CutShort, None)
            }
            Err(error) => (PacketRead::Failed(error.to_string()), None),
        };
        match decoding.after_read(read) {
            NextStep::Decode => {
                let decoded = match decoder.decode(&packet.unwrap()) {
                    Ok(decoded) => {
                        decoded.copy_to_vec_interleaved::<f32>(&mut scratch);
                        PacketDecoded::Samples(scratch.iter().map(|x| s(*x)).collect())
                    }
                    Err(symphonia::core::errors::Error::DecodeError(_)) => PacketDecoded::Corrupt,
                    Err(error) => PacketDecoded::Failed(error.to_string()),
                };
                decoding.after_decode(decoded)?;
            }
            NextStep::Skip => {}
            NextStep::Finish => {
                let bands = bands_of(&decoding);
                return decoding.finish(&bands);
            }
            NextStep::Fail(error) => return Err(error),
        }
    }
}

fn tag_of(tag: &lofty::tag::Tag) -> Tag {
    Tag {
        title: tag.title().map(|text| text.into_owned()),
        artist: tag.artist().map(|text| text.into_owned()),
        album: tag.album().map(|text| text.into_owned()),
        genre: tag.genre().map(|text| text.into_owned()),
        date: tag.date().map(|date| date.to_string()),
        picture: tag.pictures().first().map(|picture| picture.data().to_vec()),
        integer_bpm: tag.get_string(ItemKey::IntegerBpm).map(|text| text.to_owned()),
        bpm: tag.get_string(ItemKey::Bpm).map(|text| text.to_owned()),
        initial_key: tag.get_string(ItemKey::InitialKey).map(|text| text.to_owned()),
    }
}

fn read_info(name: &str, bytes: Vec<u8>) -> TrackInfo {
    let file = Probe::new(Cursor::new(bytes.clone()))
        .guess_file_type()
        .unwrap()
        .read()
        .unwrap();
    let properties = file.properties();
    let found = TaggedFile {
        duration: Duration {
            seconds: properties.duration().as_secs(),
            nanos: properties.duration().subsec_nanos(),
        },
        sample_rate: properties.sample_rate(),
        channels: properties.channels(),
        audio_bitrate: properties.audio_bitrate(),
        overall_bitrate: properties.overall_bitrate(),
        primary_tag: file.primary_tag().map(tag_of),
        first_tag: file.first_tag().map(tag_of),
    };
    let mut header = [0u8; 10];
    header.copy_from_slice(&bytes[..10]);
    let id3v2 = read_id3v2_tag(&header, &bytes[10..]);
    let mut info = read_track_info(FilePath::from_text(name), Ok(found), &id3v2).unwrap();
    if info.lacks_audio_properties() {
        if let Ok(decoded) = decode_track(name, bytes) {
            info.set_audio_properties(decoded.duration, decoded.sample_rate, decoded.channels);
        }
    }
    info
}

#[test]
fn wav_decode_returns_samples_properties_and_waveform() {
    let decoded =
        decode_track("untagged test.wav", test_wav()).expect("test WAV should decode");

    assert_eq!(decoded.sample_rate, 44_100);
    assert_eq!(decoded.channels, 2);
    assert_eq!(decoded.samples.len(), 8);
    assert!(f(decoded.duration.as_seconds()) > 0.0);
    assert_eq!(decoded.waveform.len(), 2000);
}

#[test]
fn wav_decode_accumulates_all_packets() {
    // A file large enough to span many decoder packets.
    let frames = 50_000;

    let decoded =
        decode_track("long.wav", ramp_wav(frames)).expect("multi-packet WAV should decode");

    assert_eq!(decoded.samples.len(), frames * 2);
    assert!((f(decoded.duration.as_seconds()) - frames as f32 / 44_100.0).abs() < 0.01);
}

#[test]
fn unsupported_file_extension_returns_visible_error() {
    let error = decode_track("engine.wem", b"not audio".to_vec())
        .expect_err("wem should be outside v1 scope");

    assert!(matches!(error, DecodeError::UnsupportedExtension { .. }));
    assert!(error.message().contains("Unsupported audio format"));
}

#[test]
fn untagged_metadata_uses_filename_and_audio_properties() {
    let info = read_info("fresh download.wav", test_wav());

    assert_eq!(info.title, "fresh download");
    assert_eq!(info.sample_rate, Some(44_100));
    assert_eq!(info.channels, Some(2));
    assert!(f(info.duration.unwrap().as_seconds()) > 0.0);
    assert!(info.cover_art.is_none());
}

#[test]
fn mp3_with_oversized_id3_tag_decodes_past_false_frame_syncs() {
    let decoded = decode_track("traktor tagged.mp3", mp3_with_false_sync_in_id3())
        .expect("tagged MP3 should decode past the ID3 tag");

    assert_eq!(decoded.sample_rate, 44_100);
    assert_eq!(decoded.channels, 2);
    // 30 Layer III frames * 1152 samples/frame * 2 channels.
    assert_eq!(decoded.samples.len(), 30 * 1152 * 2);
}

#[test]
fn decoded_samples_keep_their_values() {
    let decoded = decode_track("values.wav", test_wav()).unwrap();

    let expected = [0.0, 0.0, 12_000.0, -12_000.0, 24_000.0, -24_000.0, -6000.0, 6000.0];
    for (sample, value) in decoded.samples.iter().zip(expected) {
        assert_eq!(f(*sample), value / 32_768.0_f32);
    }
    assert_eq!(decoded.duration, Duration { seconds: 0, nanos: 90_703 });
    let loudest = decoded.waveform.peak.iter().map(|x| f(*x)).fold(0.0, f32::max);
    assert_eq!(loudest, 24_000.0 / 32_768.0);
}

#[test]
fn files_without_audio_are_refused() {
    let path = FilePath::from_text("a/b.mp3");
    let codec = AudioCodec { is_null: true, sample_rate: None, channels: None };

    for track in [
        None,
        Some(AudioTrack { id: 1, codec: None }),
        Some(AudioTrack { id: 1, codec: Some(codec) }),
    ] {
        let error = Decoding::begin(&path, track).unwrap_err();
        assert!(matches!(error, DecodeError::NoAudioTrack { .. }));
        assert_eq!(error.message(), "No decodable audio track found in a/b.mp3");
    }
}

#[test]
fn decoding_takes_what_belongs_to_its_track() {
    let path = FilePath::from_text("b.mp3");
    let codec = AudioCodec { is_null: false, sample_rate: None, channels: None };
    let track = Some(AudioTrack { id: 3, codec: Some(codec) });
    let mut decoding = Decoding::begin(&path, track).unwrap();

    assert_eq!(decoding.sample_rate(), 44_100);
    assert_eq!(decoding.channels(), 2);
    assert!(matches!(
        decoding.after_read(PacketRead::Packet { track_id: 3 }),
        NextStep::Decode
    ));
    assert!(matches!(
        decoding.after_read(PacketRead::Packet { track_id: 4 }),
        NextStep::Skip
    ));
    assert!(matches!(decoding.after_read(PacketRead::End), NextStep::Finish));
    assert!(matches!(decoding.after_read(PacketRead::CutShort), NextStep::Finish));
    match decoding.after_read(PacketRead::Failed("bad".to_owned())) {
        NextStep::Fail(error) => {
            assert_eq!(error.message(), "Could not decode audio file b.mp3: bad")
        }
        _ => panic!("a failed read ends the decoding"),
    }

    decoding.after_decode(PacketDecoded::Samples(vec![s(0.5), s(0.25)])).unwrap();
    decoding.after_decode(PacketDecoded::Corrupt).unwrap();
    decoding.after_decode(PacketDecoded::Samples(vec![s(1.0), s(-1.0)])).unwrap();
    let kept: Vec<f32> = decoding.samples().iter().map(|x| f(*x)).collect();
    assert_eq!(kept, vec![0.5, 0.25, 1.0, -1.0]);

    let error = decoding.after_decode(PacketDecoded::Failed("worse".to_owned())).unwrap_err();
    assert_eq!(error.message(), "Could not decode audio file b.mp3: worse");
}

#[test]
fn a_file_without_samples_is_empty() {
    let path = FilePath::from_text("c.mp3");
    let codec = AudioCodec { is_null: false, sample_rate: Some(48_000), channels: Some(1) };
    let decoding = Decoding::begin(&path, Some(AudioTrack { id: 0, codec: Some(codec) })).unwrap();
    let bands = BandSignals { low: None, mid: None, high: None };

    let error = decoding.finish(&bands).unwrap_err();

    assert!(matches!(error, DecodeError::EmptyAudio { .. }));
    assert_eq!(error.message(), "Audio file has no decoded samples: c.mp3");
}

#[test]
fn a_file_that_does_not_open_says_why() {
    let error = DecodeError::Open {
        path: FilePath::from_text("d.mp3"),
        source: "gone".to_owned(),
    };

    assert_eq!(error.message(), "Could not open audio file d.mp3: gone");
}

fn test_wav() -> Vec<u8> {
    let mut bytes = Vec::new();
    let samples: [i16; 8] = [0, 0, 12_000, -12_000, 24_000, -24_000, -6000, 6000];
    let data_len = (samples.len() * 2) as u32;
    let file_len = 36 + data_len;

    bytes.extend_from_slice(b"RIFF");
    bytes.extend_from_slice(&file_len.to_le_bytes());
    bytes.extend_from_slice(b"WAVE");
    bytes.extend_from_slice(b"fmt ");
    bytes.extend_from_slice(&16_u32.to_le_bytes());
    bytes.extend_from_slice(&1_u16.to_le_bytes());
    bytes.extend_from_slice(&2_u16.to_le_bytes());
    bytes.extend_from_slice(&44_100_u32.to_le_bytes());
    bytes.extend_from_slice(&(44_100_u32 * 2 * 16 / 8).to_le_bytes());
    bytes.extend_from_slice(&(2_u16 * 16 / 8).to_le_bytes());
    bytes.extend_from_slice(&16_u16.to_le_bytes());
    bytes.extend_from_slice(b"data");
    bytes.extend_from_slice(&data_len.to_le_bytes());
    for sample in samples {
        bytes.extend_from_slice(&sample.to_le_bytes());
    }
    bytes
}

/// A large ID3v2.3 tag whose body opens with a false MPEG frame-sync pair, followed by real
/// Layer III audio.
fn mp3_with_false_sync_in_id3() -> Vec<u8> {
    let mut bytes = id3v2_tag_with_false_sync(1024);
    for _ in 0..30 {
        bytes.extend_from_slice(&silent_l3_frame());
    }
    bytes
}

/// A frame of digital silence: 44.1 kHz, 128 kbps, stereo.
fn silent_l3_frame() -> Vec<u8> {
    let mut frame = vec![0u8; 417];
    frame[0] = 0xFF;
    frame[1] = 0xFB;
    frame[2] = 0x90;
    frame[3] = 0x00;
    frame
}

fn id3v2_tag_with_false_sync(body_len: usize) -> Vec<u8> {
    let mut body = vec![0u8; body_len];
    for &start in &[0usize, 136] {
        body[start] = 0xFF;
        body[start + 1] = 0xFF;
        body[start + 2] = 0x40;
        body[start + 3] = 0x00;
    }

    let mut tag = Vec::new();
    tag.extend_from_slice(b"ID3");
    tag.extend_from_slice(&[0x03, 0x00]);
    tag.push(0x00);
    let size = body_len as u32;
    tag.push(((size >> 21) & 0x7F) as u8);
    tag.push(((size >> 14) & 0x7F) as u8);
    tag.push(((size >> 7) & 0x7F) as u8);
    tag.push((size & 0x7F) as u8);
    tag.extend_from_slice(&body);
    tag
}

fn ramp_wav(frames: usize) -> Vec<u8> {
    let channels = 2_u16;
    let bytes_per_sample = 2_u32;
    let block_align = channels as u32 * bytes_per_sample;
    let data_len = frames as u32 * block_align;
    let mut bytes = Vec::with_capacity(44 + data_len as usize);

    bytes.extend_from_slice(b"RIFF");
    bytes.extend_from_slice(&(36 + data_len).to_le_bytes());
    bytes.extend_from_slice(b"WAVE");
    bytes.extend_from_slice(b"fmt ");
    bytes.extend_from_slice(&16_u32.to_le_bytes());
    bytes.extend_from_slice(&1_u16.to_le_bytes());
    bytes.extend_from_slice(&channels.to_le_bytes());
    bytes.extend_from_slice(&44_100_u32.to_le_bytes());
    bytes.extend_from_slice(&(44_100_u32 * block_align).to_le_bytes());
    bytes.extend_from_slice(&(block_align as u16).to_le_bytes());
    bytes.extend_from_slice(&16_u16.to_le_bytes());
    bytes.extend_from_slice(b"data");
    bytes.extend_from_slice(&data_len.to_le_bytes());
    for frame in 0..frames {
        let sample = (frame % 2000) as i16;
        bytes.extend_from_slice(&sample.to_le_bytes());
        bytes.extend_from_slice(&sample.to_le_bytes());
    }
    bytes
}
