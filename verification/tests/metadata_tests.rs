use std::io::Cursor;

use image::{ImageFormat, Rgba, RgbaImage};
use music_player::id3::LONGEST_BODY;
use music_player::metadata::{
    contains, detect_traktor, id3v2_body_len, owned_non_empty, read_id3v2_tag, read_track_info,
    CoverArt, MetadataError, Tag, TaggedFile, TrackInfo,
};
use music_player::path::FilePath;
use music_player::text::trim;
use music_player::time::Duration;

fn path(text: &str) -> FilePath {
    FilePath::from_text(text)
}

fn title(text: &str) -> String {
    TrackInfo::fallback(path(text)).title
}

fn text(value: &str) -> Option<String> {
    Some(value.to_owned())
}

fn tag() -> Tag {
    Tag {
        title: None,
        artist: None,
        album: None,
        genre: None,
        date: None,
        picture: None,
        integer_bpm: None,
        bpm: None,
        initial_key: None,
    }
}

fn file() -> TaggedFile {
    TaggedFile {
        duration: Duration::from_secs(3),
        sample_rate: Some(44_100),
        channels: Some(2),
        audio_bitrate: None,
        overall_bitrate: Some(320),
        primary_tag: None,
        first_tag: None,
    }
}

fn png(width: u32, height: u32) -> Vec<u8> {
    let mut image = RgbaImage::new(width, height);
    image.put_pixel(1, 0, Rgba([10, 20, 30, 40]));
    let mut bytes = Cursor::new(Vec::new());
    image.write_to(&mut bytes, ImageFormat::Png).unwrap();
    bytes.into_inner()
}

#[test]
fn titles_come_from_file_names() {
    assert_eq!(title("/music/a.b.mp3"), "a.b");
    assert_eq!(title("song"), "song");
    assert_eq!(title(".hidden"), ".hidden");
    assert_eq!(title("dir/song.mp3/"), "song");
    assert_eq!(title("dir/song.mp3/./"), "song");
    assert_eq!(title("song."), "song");
    assert_eq!(title(r"a\b/c.d"), "c");
    assert_eq!(title("  x .wav"), "  x ");
    for nameless in ["", "/", "..", "dir/..", ".", "./", "   .mp3", "\u{3000}.mp3"] {
        assert_eq!(title(nameless), "Unknown Track", "{nameless:?}");
    }
    assert_eq!(
        TrackInfo::fallback(FilePath::from_bytes(vec![0x61, 0xff, 0x2e, 0x62])).title,
        "Unknown Track"
    );
    assert_eq!(title("d\u{e9}j\u{e0} vu.flac"), "d\u{e9}j\u{e0} vu");
}

#[test]
fn extensions_follow_the_last_dot() {
    assert_eq!(path("a/b.tar.gz").extension().as_deref(), Some("gz"));
    assert_eq!(path("a.b/c").extension(), None);
    assert_eq!(path(".mp3").extension(), None);
    assert_eq!(path("x.").extension().as_deref(), Some(""));
    assert_eq!(path("..").extension(), None);
    assert_eq!(FilePath::from_bytes(vec![0x61, 0x2e, 0xff]).extension(), None);
    assert_eq!(path("a/b.c").file_stem().as_deref(), Some("b"));
    assert_eq!(path("a/b.c").display_name(), "b.c");
    assert_eq!(path("..").display_name(), "..");
    assert_eq!(FilePath::from_bytes(vec![0x61, 0xff]).display(), "a\u{fffd}");
    assert!(path("").is_empty());
    assert_eq!(path("x").duplicate(), path("x"));
}

#[test]
fn text_is_trimmed_and_blank_text_dropped() {
    assert_eq!(trim(" \t a b \u{a0}\n"), "a b");
    assert_eq!(trim("\u{2003}\u{85}"), "");
    assert_eq!(trim("x"), "x");
    assert_eq!(trim("\u{200b}x"), "\u{200b}x");
    assert_eq!(owned_non_empty(text("  key ")).as_deref(), Some("key"));
    assert_eq!(owned_non_empty(text(" \r\n ")), None);
    assert_eq!(owned_non_empty(None), None);
    for code in 0..0x11_0000_u32 {
        if let Some(c) = char::from_u32(code) {
            let alone = c.to_string();
            assert_eq!(trim(&alone).is_empty(), c.is_whitespace(), "{code:x}");
        }
    }
}

#[test]
fn tags_are_read_before_paths() {
    let mut found = file();
    found.audio_bitrate = Some(256);
    let mut primary = tag();
    primary.title = text(" Tune ");
    primary.artist = text("  ");
    primary.album = text("Album");
    primary.genre = text("House\n");
    primary.date = text("2024-01-02");
    primary.bpm = text("127.5");
    primary.initial_key = text("4m");
    primary.picture = Some(png(3, 2));
    found.primary_tag = Some(primary);
    let mut other = tag();
    other.title = text("Other");
    found.first_tag = Some(other);

    let info = read_track_info(path("x/file.mp3"), Ok(found), &None).unwrap();

    assert_eq!(info.title, "Tune");
    assert_eq!(info.artist, None);
    assert_eq!(info.album.as_deref(), Some("Album"));
    assert_eq!(info.genre.as_deref(), Some("House"));
    assert_eq!(info.year.as_deref(), Some("2024-01-02"));
    assert_eq!(info.bpm.as_deref(), Some("127.5"));
    assert_eq!(info.key.as_deref(), Some("4m"));
    assert_eq!(info.bitrate, Some(256));
    assert_eq!(info.channels, Some(2));
    assert!(!info.traktor_analyzed);
    let cover = info.cover_art.unwrap();
    assert_eq!((cover.width, cover.height), (3, 2));
    assert_eq!(&cover.rgba[4..8], &[10, 20, 30, 40]);
}

#[test]
fn other_tags_and_the_path_fill_in() {
    let mut found = file();
    let mut other = tag();
    other.integer_bpm = text("126");
    other.bpm = text("126.01");
    other.picture = Some(vec![1, 2, 3]);
    found.first_tag = Some(other);
    let info = read_track_info(path("x/file.mp3"), Ok(found), &None).unwrap();
    assert_eq!(info.title, "file");
    assert_eq!(info.bpm.as_deref(), Some("126"));
    assert_eq!(info.bitrate, Some(320));
    assert!(info.cover_art.is_none());
    assert!(!info.lacks_audio_properties());

    let bare = read_track_info(path("bare.wav"), Ok(file()), &None).unwrap();
    assert_eq!(bare.title, "bare");
    assert_eq!(bare.artist, None);
}

#[test]
fn a_reader_that_fails_is_reported() {
    let error = read_track_info(path("bad.mp3"), Err("broken".to_owned()), &None).unwrap_err();
    let MetadataError::Read { message, .. } = &error;
    assert_eq!(message, "broken");
    assert_eq!(error.message(), "Could not read metadata from bad.mp3: broken");
}

#[test]
fn missing_properties_are_filled_from_decoding() {
    let mut info = TrackInfo::fallback(path("a.mp3"));
    assert!(info.lacks_audio_properties());
    info.set_audio_properties(Duration::zero(), 48_000, 65_538);
    assert_eq!(info.channels, Some(2));
    assert!(info.lacks_audio_properties());
    info.set_audio_properties(Duration::from_secs(1), 48_000, 1);
    assert!(!info.lacks_audio_properties());
    assert_eq!(info.sample_rate, Some(48_000));
    info.channels = None;
    assert!(info.lacks_audio_properties());
}

#[test]
fn drives_and_shares_are_no_names() {
    assert_eq!(title("C:\\"), "Unknown Track");
    assert_eq!(title("C:"), "Unknown Track");
    assert_eq!(title("C:song.mp3"), "song");
    assert_eq!(title("c:\\Music\\song.mp3"), "song");
    assert_eq!(title("C:/Music/song.mp3"), "song");
    assert_eq!(title("C:..\\song.mp3"), "song");
    assert_eq!(title("C:."), "Unknown Track");
    assert_eq!(title("1:song.mp3"), "1:song");
    assert_eq!(title("Music\\C:song.mp3"), "C:song");
    assert_eq!(path("C:.mp3").extension(), None);
    assert_eq!(path("C:song.mp3").extension().as_deref(), Some("mp3"));
    assert_eq!(path("C:\\").display_name(), "C:\\");
    assert_eq!(path("C:a.wav").display_name(), "a.wav");

    assert_eq!(title("\\\\server\\share"), "Unknown Track");
    assert_eq!(title("\\\\server\\share\\"), "Unknown Track");
    assert_eq!(title("\\\\server\\share\\song.mp3"), "song");
    assert_eq!(title("\\\\server"), "server");
    assert_eq!(title("\\\\server\\\\share"), "share");
    assert_eq!(title("//server/share"), "share");
    assert_eq!(title("\\\\.\\COM1"), "Unknown Track");
    assert_eq!(title("\\\\?\\C:\\song.mp3"), "song");
    assert_eq!(title("\\\\?\\C:\\"), "Unknown Track");
    assert_eq!(title("\\\\?\\C:\\a\\."), "Unknown Track");
    assert_eq!(title("\\\\?\\pictures\\kittens"), "kittens");
    assert_eq!(title("\\\\?\\UNC\\server\\share\\song.mp3"), "song");
    assert_eq!(title("\\\\?\\UNC\\server\\share"), "Unknown Track");
}

fn frame(id: &[u8; 4], size: [u8; 4], flags: [u8; 2], body: &[u8]) -> Vec<u8> {
    let mut bytes = id.to_vec();
    bytes.extend_from_slice(&size);
    bytes.extend_from_slice(&flags);
    bytes.extend_from_slice(body);
    bytes
}

fn small_frame(id: &[u8; 4], body: &[u8]) -> Vec<u8> {
    frame(id, [0, 0, 0, body.len() as u8], [0, 0], body)
}

fn tag_bytes(version: u8, flags: u8, body: &[u8]) -> Vec<u8> {
    let size = body.len();
    let mut bytes = b"ID3".to_vec();
    bytes.extend_from_slice(&[version, 0, flags, 0, 0, (size / 128) as u8, (size % 128) as u8]);
    bytes.extend_from_slice(body);
    bytes
}

fn is_traktor(version: u8, flags: u8, body: &[u8]) -> bool {
    detect_traktor(&Some(tag_bytes(version, flags, body)))
}

#[test]
fn traktor_signs_the_leading_tag() {
    let private = small_frame(b"PRIV", b"TRAKTOR4\0data");
    for version in [3, 4] {
        assert!(is_traktor(version, 0, &private));
        let mut second = small_frame(b"TIT2", b"\0Song");
        second.extend_from_slice(&private);
        assert!(is_traktor(version, 0, &second));
        second.extend_from_slice(&[0; 20]);
        assert!(is_traktor(version, 0, &second));
    }
    assert!(!detect_traktor(&None));
    assert!(!detect_traktor(&Some(b"TRAKTO".to_vec())));
    assert!(!detect_traktor(&Some(b"..TRAKTOR4".to_vec())));

    let mut found = file();
    found.first_tag = None;
    let info = read_track_info(path("t.mp3"), Ok(found), &Some(tag_bytes(4, 0, &private))).unwrap();
    assert!(info.traktor_analyzed);
}

#[test]
fn only_a_private_frame_of_traktor_counts() {
    for version in [3, 4] {
        // A title, and audio behind the tag, that name Traktor.
        assert!(!is_traktor(version, 0, &small_frame(b"TIT2", b"\0TRAKTOR MIX")));
        assert!(!is_traktor(version, 0, &small_frame(b"TXXX", b"TRAKTOR4\0data")));
        let mut bytes = tag_bytes(version, 0, &small_frame(b"TIT2", b"\0Song"));
        bytes.extend_from_slice(&small_frame(b"PRIV", b"TRAKTOR4\0data"));
        assert!(!detect_traktor(&Some(bytes)));
        // Owners that only begin or end like Traktor's, and one that does not end.
        assert!(!is_traktor(version, 0, &small_frame(b"PRIV", b"TRAKTOR\0data")));
        assert!(!is_traktor(version, 0, &small_frame(b"PRIV", b"TRAKTOR42\0data")));
        assert!(!is_traktor(version, 0, &small_frame(b"PRIV", b"xTRAKTOR4\0data")));
        assert!(!is_traktor(version, 0, &small_frame(b"PRIV", b"TRAKTOR4")));
        assert!(is_traktor(version, 0, &small_frame(b"PRIV", b"TRAKTOR4\0")));
        // Behind the padding there are no frames.
        let mut padded = vec![0; 10];
        padded.extend_from_slice(&small_frame(b"PRIV", b"TRAKTOR4\0data"));
        assert!(!is_traktor(version, 0, &padded));
    }
    let private = small_frame(b"PRIV", b"TRAKTOR4\0data");
    assert!(is_traktor(2, 0, &private));
    let mut other = tag_bytes(3, 0, &private);
    other[0] = b'X';
    assert!(!detect_traktor(&Some(other)));

    let mut found = file();
    found.first_tag = None;
    let title = tag_bytes(3, 0, &small_frame(b"TIT2", b"\0TRAKTOR MIX"));
    let info = read_track_info(path("t.mp3"), Ok(found), &Some(title)).unwrap();
    assert!(!info.traktor_analyzed);
}

#[test]
fn frame_sizes_and_flags_depend_on_the_version() {
    let private = small_frame(b"PRIV", b"TRAKTOR4\0data");
    // A picture of 200 bytes: 0x00c8 in version 3, 0x0148 in version 4.
    for (version, size) in [(3, [0, 0, 0, 200]), (4, [0, 0, 1, 72])] {
        let mut body = frame(b"APIC", size, [0, 0], &[b'A'; 200]);
        body.extend_from_slice(&private);
        assert!(is_traktor(version, 0, &body));
        // Sizes of the other version are understood too.
        assert!(is_traktor(7 - version, 0, &body));
        body.truncate(body.len() - private.len());
        body.extend_from_slice(&small_frame(b"TIT2", b"\0TRAKTOR4 MIX"));
        assert!(!is_traktor(version, 0, &body));
        assert!(!is_traktor(7 - version, 0, &body));
    }
    // A first frame of 128 bytes whose size is written as a plain byte.
    let mut plain = frame(b"APIC", [0, 0, 0, 0x80], [0, 0], &[b'A'; 128]);
    plain.extend_from_slice(&private);
    assert!(is_traktor(4, 0, &plain));
    assert!(is_traktor(3, 0, &plain));
    // An extended header of six bytes, which version 4 counts with its own size.
    let mut extended = vec![0, 0, 0, 6, 0, 0, 0, 0, 0, 0];
    extended.extend_from_slice(&private);
    assert!(is_traktor(3, 0x40, &extended));
    let mut extended = vec![0, 0, 0, 6, 1, 0];
    extended.extend_from_slice(&private);
    assert!(is_traktor(4, 0x40, &extended));
    assert!(!is_traktor(4, 0, &extended));
    assert!(!is_traktor(4, 0x40, &[0, 0]));
    // A group, and a length, stand before the owner.
    let grouped = b"\x81TRAKTOR4\0data";
    let size = [0, 0, 0, grouped.len() as u8];
    assert!(is_traktor(3, 0, &frame(b"PRIV", size, [0, 0x20], grouped)));
    assert!(is_traktor(4, 0, &frame(b"PRIV", size, [0, 0x40], grouped)));
    let counted = b"\0\0\0\x0dTRAKTOR4\0data";
    let size = [0, 0, 0, counted.len() as u8];
    assert!(is_traktor(4, 0, &frame(b"PRIV", size, [0, 0x01], counted)));
    // Whatever the flags, an owner that can be read counts.
    let size = [0, 0, 0, 13];
    for (version, flags) in [(3, 0x80), (3, 0x40), (3, 0x20), (4, 0x08), (4, 0x40), (4, 0x41)] {
        assert!(is_traktor(version, 0, &frame(b"PRIV", size, [0, flags], b"TRAKTOR4\0data")));
        assert!(!is_traktor(version, 0, &frame(b"PRIV", size, [0, flags], b"\x01\x02TRAKTOR4\0x")));
    }
    // Version 3 puts a zero behind each byte of all ones.
    let mut unsynchronised = frame(b"APIC", [0, 0, 0, 2], [0, 0], &[0xff, 0, 0xe0]);
    unsynchronised.extend_from_slice(&private);
    assert!(is_traktor(3, 0x80, &unsynchronised));
    assert!(is_traktor(4, 0x80, &unsynchronised));
    assert!(!is_traktor(3, 0, &unsynchronised));
    // Version 4 does so frame by frame, and counts the zeros.
    let mut by_frame = frame(b"APIC", [0, 0, 0, 3], [0, 2], &[0xff, 0, 0xe0]);
    by_frame.extend_from_slice(&private);
    assert!(is_traktor(4, 0x80, &by_frame));
    assert!(is_traktor(4, 0, &by_frame));
}

#[test]
fn a_tag_is_read_as_far_as_it_is_declared() {
    let header = *b"ID3\x04\x00\x00\x00\x00\x02\x01";
    assert_eq!(id3v2_body_len(&header), Some(257));
    let tag = read_id3v2_tag(&header, b"PRIV....TRAKTOR4").unwrap();
    assert_eq!(&tag[..10], &header);
    assert_eq!(&tag[10..], b"PRIV....TRAKTOR4");
    assert_eq!(read_id3v2_tag(&header, &[7; 300]).unwrap().len(), 10 + 257);

    assert_eq!(id3v2_body_len(b"RIFF......"), None);
    assert!(read_id3v2_tag(b"RIFF......", b"TRAKTOR").is_none());
    assert_eq!(id3v2_body_len(b"ID3\0\0\0\xff\xff\xff\xff"), Some(LONGEST_BODY));
    assert_eq!(id3v2_body_len(b"ID3\0\0\0\x80\x80\x80\x85"), Some(5));
}

#[test]
fn bytes_are_found_in_bytes() {
    assert!(contains(b"abcabd", b"abd"));
    assert!(contains(b"abc", b"abc"));
    assert!(contains(b"abc", b"c"));
    assert!(!contains(b"abc", b"abcd"));
    assert!(!contains(b"abc", b""));
    assert!(!contains(b"", b"a"));
    assert!(!contains(b"aab", b"aba"));
}

#[test]
fn only_pictures_with_pixels_are_visible() {
    assert!(CoverArt::decode(&png(2, 2)).unwrap().is_visible());
    let empty = CoverArt { rgba: Vec::new(), width: 1, height: 1 };
    assert!(!empty.is_visible());
    let flat = CoverArt { rgba: vec![0; 4], width: 1, height: 0 };
    assert!(!flat.is_visible());
}
