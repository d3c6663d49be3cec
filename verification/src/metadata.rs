//! What is known of a track: its tags, its properties, and whether Traktor has analyzed it.
use crate::id3::{
    body_len, carries_traktor_frame, has_traktor_frame, is_id3v2, matches_at, read_synchsafe,
    synchsafe, LONGEST_BODY,
};
use crate::path::{exact, stem_of, FilePath};
use crate::picture::{pixels, shows};
use crate::text::{
    is_core_of, is_white, law_trimmed, law_trimming_takes_white_space_only, mended, trim, trimmed,
    trimmed_end, trimmed_start,
};
use crate::time::Duration;
use vstd::prelude::*;

pub use crate::picture::CoverArt;

verus! {

/// What is known of a track.
#[derive(Clone, Debug, PartialEq)]
pub struct TrackInfo {
    /// Where the track is.
    pub path: FilePath,
    /// Its title.
    pub title: String,
    /// Who made it.
    pub artist: Option<String>,
    /// The album it is from.
    pub album: Option<String>,
    /// The date of its release.
    pub year: Option<String>,
    /// Its genre.
    pub genre: Option<String>,
    /// How long it plays.
    pub duration: Option<Duration>,
    /// Frames in a second.
    pub sample_rate: Option<u32>,
    /// Samples in a frame.
    pub channels: Option<u16>,
    /// Thousands of bits in a second.
    pub bitrate: Option<u32>,
    /// Beats per minute, as the tag has them.
    pub bpm: Option<String>,
    /// Musical key, in whatever notation the tag has it.
    pub key: Option<String>,
    /// Whether Traktor has left its analysis in the file.
    pub traktor_analyzed: bool,
    /// The cover picture.
    pub cover_art: Option<CoverArt>,
}

/// The text that may be there.
pub open spec fn text_of(value: Option<String>) -> Option<Seq<char>> {
    match value {
        Some(text) => Some(text@),
        None => None,
    }
}

/// The title of a track whose path gives none.
pub open spec fn untitled() -> Seq<char> {
    "Unknown Track"@
}

/// The title that a path gives: the name of the file without its extension, where that is text
/// and not blank.
pub open spec fn title_of(path: Seq<u8>) -> Seq<char> {
    match exact(stem_of(path)) {
        Some(stem) => if trimmed(stem).len() > 0 {
            stem
        } else {
            untitled()
        },
        None => untitled(),
    }
}

/// The title that a path gives is never blank.
pub proof fn law_title_is_not_blank(path: Seq<u8>)
    ensures
        trimmed(title_of(path)).len() > 0,
{
    reveal_strlit("Unknown Track");
    let title = untitled();
    assert(title.first() == 'U' && title.last() == 'k');
    assert(trimmed_start(title) == title);
    assert(trimmed_end(title) == title);
}

/// Nothing is known but the path.
pub open spec fn only_path_known(info: TrackInfo, path: Seq<u8>) -> bool {
    &&& info.path@ == path
    &&& info.title@ == title_of(path)
    &&& info.artist is None
    &&& info.album is None
    &&& info.year is None
    &&& info.genre is None
    &&& info.duration is None
    &&& info.sample_rate is None
    &&& info.channels is None
    &&& info.bitrate is None
    &&& info.bpm is None
    &&& info.key is None
    &&& !info.traktor_analyzed
    &&& info.cover_art is None
}

impl TrackInfo {
    /// A track of which only the path is known.
    pub fn fallback(path: FilePath) -> (r: TrackInfo)
        ensures
            only_path_known(r, path@),
    {
        let title = match path.file_stem() {
            Some(stem) => {
                if trim(stem.as_str()).as_str().is_empty() {
                    "Unknown Track".to_owned()
                } else {
                    stem
                }
            },
            None => "Unknown Track".to_owned(),
        };
        TrackInfo {
            path,
            title,
            artist: None,
            album: None,
            year: None,
            genre: None,
            duration: None,
            sample_rate: None,
            channels: None,
            bitrate: None,
            bpm: None,
            key: None,
            traktor_analyzed: false,
            cover_art: None,
        }
    }

    /// Whether the length, the sample rate or the channel count is not known.
    pub open spec fn spec_lacks_audio_properties(self) -> bool {
        ||| self.duration is None
        ||| self.duration matches Some(d) && d.seconds == 0 && d.nanos == 0
        ||| self.sample_rate is None
        ||| self.channels is None
    }

    /// Whether the length, the sample rate or the channel count is not known: decoding the track
    /// then tells them.
    pub fn lacks_audio_properties(&self) -> (r: bool)
        ensures
            r == self.spec_lacks_audio_properties(),
    {
        let no_time = match self.duration {
            Some(duration) => duration.is_zero(),
            None => true,
        };
        no_time || self.sample_rate.is_none() || self.channels.is_none()
    }

    /// Takes on the properties that decoding the track has shown.
    pub fn set_audio_properties(&mut self, duration: Duration, sample_rate: u32, channels: usize)
        ensures
            *final(self) == (TrackInfo {
                duration: Some(duration),
                sample_rate: Some(sample_rate),
                channels: Some((channels % 0x1_0000) as u16),
                ..*old(self)
            }),
    {
        self.duration = Some(duration);
        self.sample_rate = Some(sample_rate);
        self.channels = Some((channels % 0x1_0000) as u16);
    }
}

/// What a path alone tells of a track.
pub fn metadata_fallback_from_path(path: FilePath) -> (r: TrackInfo)
    ensures
        only_path_known(r, path@),
{
    TrackInfo::fallback(path)
}

/// Why a file's tags could not be read.
#[derive(Debug)]
pub enum MetadataError {
    /// The tag reader failed, and says why.
    Read {
        /// The file.
        path: FilePath,
        /// What the reader said.
        message: String,
    },
}

impl MetadataError {
    /// The error in words.
    pub open spec fn words(self) -> Seq<char> {
        match self {
            MetadataError::Read { path, message } => "Could not read metadata from "@ + mended(
                path@,
            ) + ": "@ + message@,
        }
    }

    /// The error in words.
    pub fn message(&self) -> (r: String)
        ensures
            r@ == self.words(),
    {
        match self {
            MetadataError::Read { path, message } => {
                let mut text = "Could not read metadata from ".to_owned();
                text.append(path.display().as_str());
                text.append(": ");
                text.append(message.as_str());
                text
            },
        }
    }
}

/// A tag, as a file has it.
#[derive(Debug)]
pub struct Tag {
    /// The title.
    pub title: Option<String>,
    /// The artist.
    pub artist: Option<String>,
    /// The album.
    pub album: Option<String>,
    /// The genre.
    pub genre: Option<String>,
    /// The date.
    pub date: Option<String>,
    /// The first picture, encoded.
    pub picture: Option<Vec<u8>>,
    /// Whole beats per minute.
    pub integer_bpm: Option<String>,
    /// Beats per minute.
    pub bpm: Option<String>,
    /// The key at the start.
    pub initial_key: Option<String>,
}

/// A file's properties and tags, as a tag reader finds them.
#[derive(Debug)]
pub struct TaggedFile {
    /// How long it plays.
    pub duration: Duration,
    /// Frames in a second.
    pub sample_rate: Option<u32>,
    /// Samples in a frame.
    pub channels: Option<u8>,
    /// Thousands of bits of audio in a second.
    pub audio_bitrate: Option<u32>,
    /// Thousands of bits in a second, all told.
    pub overall_bitrate: Option<u32>,
    /// The tag of the kind that the file's format prefers.
    pub primary_tag: Option<Tag>,
    /// The first tag of any kind.
    pub first_tag: Option<Tag>,
}

/// A text without the white space around it, if anything is left.
pub open spec fn non_empty(value: Option<Seq<char>>) -> Option<Seq<char>> {
    match value {
        Some(text) => if trimmed(text).len() > 0 {
            Some(trimmed(text))
        } else {
            None
        },
        None => None,
    }
}

/// A text that is kept is not blank, and has no white space around it.
pub proof fn law_kept_text_is_trimmed(value: Option<Seq<char>>)
    ensures
        non_empty(value) matches Some(text) ==> text.len() > 0 && trimmed(text) == text,
{
    if let Some(text) = value {
        law_trimmed(text);
    }
}

/// The first of two that is there.
pub open spec fn either<T>(first: Option<T>, second: Option<T>) -> Option<T> {
    if first is Some {
        first
    } else {
        second
    }
}

/// What is known of a track from its tags and from its path.
pub open spec fn told_by_tag(info: TrackInfo, path: Seq<u8>, tag: Tag) -> bool {
    &&& info.title@ == match non_empty(text_of(tag.title)) {
        Some(title) => title,
        None => title_of(path),
    }
    &&& text_of(info.artist) == non_empty(text_of(tag.artist))
    &&& text_of(info.album) == non_empty(text_of(tag.album))
    &&& text_of(info.genre) == non_empty(text_of(tag.genre))
    &&& text_of(info.year) == text_of(tag.date)
    &&& shows(
        info.cover_art,
        match tag.picture {
            Some(encoded) => pixels(encoded@),
            None => None,
        },
    )
    &&& text_of(info.bpm) == non_empty(either(text_of(tag.integer_bpm), text_of(tag.bpm)))
    &&& text_of(info.key) == non_empty(text_of(tag.initial_key))
}

/// What is shown of a text that a tag has: all of it but the white space around it, and nothing
/// where it is blank or not there.
pub open spec fn is_kept(shown: Option<String>, written: Option<String>) -> bool {
    match written {
        Some(text) => if exists|i: int| 0 <= i < text@.len() && !is_white(#[trigger] text@[i]) {
            shown is Some && shown->0@.len() > 0 && is_core_of(shown->0@, text@)
        } else {
            shown is None
        },
        None => shown is None,
    }
}

/// Every text of a tag is shown where it belongs, and the whole beats per minute before others.
pub open spec fn tag_is_kept(info: TrackInfo, tag: Tag) -> bool {
    &&& is_kept(info.artist, tag.artist)
    &&& is_kept(info.album, tag.album)
    &&& is_kept(info.genre, tag.genre)
    &&& is_kept(info.key, tag.initial_key)
    &&& tag.integer_bpm is Some ==> is_kept(info.bpm, tag.integer_bpm)
    &&& tag.integer_bpm is None ==> is_kept(info.bpm, tag.bpm)
    &&& info.year is Some <==> tag.date is Some
    &&& info.year is Some ==> info.year->0@ == tag.date->0@
    &&& tag.title matches Some(title) ==> (exists|i: int|
        0 <= i < title@.len() && !is_white(#[trigger] title@[i])) ==> is_core_of(
        info.title@,
        title@,
    )
    &&& info.cover_art is Some ==> tag.picture is Some
    &&& tag.picture matches Some(encoded) ==> (pixels(encoded@) matches Some((rgba, width, height))
        ==> (info.cover_art matches Some(art) && art.rgba@ == rgba && art.width == width
        && art.height == height))
}

/// What a tag tells of a track is kept, text by text.
pub proof fn law_tag_is_kept(info: TrackInfo, path: Seq<u8>, tag: Tag)
    requires
        told_by_tag(info, path, tag),
    ensures
        tag_is_kept(info, tag),
{
    lemma_kept(info.artist, tag.artist);
    lemma_kept(info.album, tag.album);
    lemma_kept(info.genre, tag.genre);
    lemma_kept(info.key, tag.initial_key);
    if tag.integer_bpm is Some {
        lemma_kept(info.bpm, tag.integer_bpm);
    } else {
        lemma_kept(info.bpm, tag.bpm);
    }
    if let Some(title) = tag.title {
        law_trimming_takes_white_space_only(title@);
    }
}

/// A text that is trimmed, and dropped where nothing is left, is kept.
proof fn lemma_kept(shown: Option<String>, written: Option<String>)
    requires
        text_of(shown) == non_empty(text_of(written)),
    ensures
        is_kept(shown, written),
{
    if let Some(text) = written {
        law_trimming_takes_white_space_only(text@);
    }
}

/// What is known of a track from its path alone, where there is no tag.
pub open spec fn told_by_path(info: TrackInfo, path: Seq<u8>) -> bool {
    &&& info.title@ == title_of(path)
    &&& info.artist is None
    &&& info.album is None
    &&& info.genre is None
    &&& info.year is None
    &&& info.cover_art is None
    &&& info.bpm is None
    &&& info.key is None
}

/// Takes the white space around a text away, and keeps it only if anything is left.
pub fn owned_non_empty(value: Option<String>) -> (r: Option<String>)
    ensures
        text_of(r) == non_empty(text_of(value)),
{
    match value {
        Some(text) => {
            let rest = trim(text.as_str());
            if rest.as_str().is_empty() {
                None
            } else {
                Some(rest)
            }
        },
        None => None,
    }
}

/// What is known of a track, given what a tag reader found and the file's leading ID3v2 tag, or
/// why the reader failed.
pub fn read_track_info(
    path: FilePath,
    file: Result<TaggedFile, String>,
    id3v2: &Option<Vec<u8>>,
) -> (r: Result<TrackInfo, MetadataError>)
    ensures
        match file {
            Err(message) => r matches Err(MetadataError::Read { path: at, message: said }) && at@
                == path@ && said@ == message@,
            Ok(found) => {
                &&& r matches Ok(info)
                &&& info.path@ == path@
                &&& info.duration == Some(found.duration)
                &&& info.sample_rate == found.sample_rate
                &&& info.channels == match found.channels {
                    Some(count) => Some(count as u16),
                    None => None::<u16>,
                }
                &&& info.bitrate == either(found.audio_bitrate, found.overall_bitrate)
                &&& info.traktor_analyzed == signed_by_traktor(*id3v2)
                &&& match either(found.primary_tag, found.first_tag) {
                    Some(tag) => told_by_tag(info, path@, tag),
                    None => told_by_path(info, path@),
                }
            },
        },
        file matches Ok(found) ==> (found.primary_tag matches Some(tag) ==> tag_is_kept(r->Ok_0, tag)),
        file matches Ok(found) ==> (found.primary_tag is None ==> (found.first_tag matches Some(tag)
            ==> tag_is_kept(r->Ok_0, tag))),
        file matches Ok(found) ==> {
            let info = r->Ok_0;
            &&& info.duration is Some && info.duration->0 == found.duration
            &&& found.sample_rate matches Some(rate) ==> info.sample_rate == Some(rate)
            &&& found.channels matches Some(count) ==> info.channels is Some && info.channels->0
                == count
            &&& found.audio_bitrate matches Some(rate) ==> info.bitrate == Some(rate)
            &&& found.audio_bitrate is None && found.overall_bitrate is Some ==> info.bitrate
                == found.overall_bitrate
            &&& info.bitrate is None ==> found.audio_bitrate is None
            &&& id3v2 is None ==> !info.traktor_analyzed
        },
{
    let ghost read = file;
    let ghost at = path@;
    let found = match file {
        Ok(found) => found,
        Err(message) => {
            return Err(MetadataError::Read { path, message });
        },
    };
    let mut info = TrackInfo::fallback(path);
    info.duration = Some(found.duration);
    info.sample_rate = found.sample_rate;
    info.channels = match found.channels {
        Some(count) => Some(count as u16),
        None => None,
    };
    info.bitrate = if found.audio_bitrate.is_some() {
        found.audio_bitrate
    } else {
        found.overall_bitrate
    };
    info.traktor_analyzed = detect_traktor(id3v2);
    let tag = match found.primary_tag {
        Some(tag) => Some(tag),
        None => found.first_tag,
    };
    if let Some(tag) = tag {
        if let Some(title) = owned_non_empty(tag.title) {
            info.title = title;
        }
        info.artist = owned_non_empty(tag.artist);
        info.album = owned_non_empty(tag.album);
        info.genre = owned_non_empty(tag.genre);
        info.year = tag.date;
        info.cover_art = match &tag.picture {
            Some(encoded) => CoverArt::decode(encoded),
            None => None,
        };
        let bpm = match tag.integer_bpm {
            Some(bpm) => Some(bpm),
            None => tag.bpm,
        };
        info.bpm = owned_non_empty(bpm);
        info.key = owned_non_empty(tag.initial_key);
    }
    proof {
        if let Some(tag) = either((read->Ok_0).primary_tag, (read->Ok_0).first_tag) {
            law_tag_is_kept(info, at, tag);
        }
    }
    Ok(info)
}

/// Bytes occur in others in one run.
pub open spec fn occurs(needle: Seq<u8>, haystack: Seq<u8>) -> bool {
    exists|at: int|
        0 <= at <= haystack.len() - needle.len() && #[trigger] haystack.subrange(
            at,
            at + needle.len(),
        ) == needle
}

/// A tag holds Traktor's analysis: one of its frames is private, and owned by `TRAKTOR4`.
pub open spec fn signed_by_traktor(tag: Option<Vec<u8>>) -> bool {
    match tag {
        Some(bytes) => carries_traktor_frame(bytes@),
        None => false,
    }
}

/// Whether bytes hold others, of which there is at least one, in one run.
pub fn contains(haystack: &[u8], needle: &[u8]) -> (r: bool)
    ensures
        r <==> needle@.len() > 0 && occurs(needle@, haystack@),
{
    let total = haystack.len();
    let wanted = needle.len();
    if wanted == 0 || total < wanted {
        return false;
    }
    let mut at: usize = 0;
    while at <= total - wanted
        invariant
            0 < wanted <= total,
            total == haystack@.len(),
            wanted == needle@.len(),
            at <= total - wanted + 1,
            forall|j: int|
                0 <= j < at ==> #[trigger] haystack@.subrange(j, j + needle@.len()) != needle@,
        decreases total - at,
    {
        if matches_at(haystack, needle, at) {
            return true;
        }
        at = at + 1;
    }
    false
}

/// Whether a file's leading ID3v2 tag holds Traktor's analysis: Traktor writes it into a private
/// frame whose owner identifier is `TRAKTOR4`.
pub fn detect_traktor(tag: &Option<Vec<u8>>) -> (r: bool)
    ensures
        r == signed_by_traktor(*tag),
{
    match tag {
        Some(bytes) => has_traktor_frame(bytes),
        None => false,
    }
}

/// Whatever size a header declares, not more than eight mebibytes are read after it.
pub proof fn law_body_is_capped(header: Seq<u8>)
    requires
        header.len() == 10,
    ensures
        body_len(header) <= LONGEST_BODY,
        synchsafe(header.subrange(6, 10)) < 0x1000_0000,
{
}

/// How many bytes to read after the ten of a header; nothing where it is no ID3v2 tag's.
pub fn id3v2_body_len(header: &[u8; 10]) -> (r: Option<usize>)
    ensures
        r == if is_id3v2(header@) { Some(body_len(header@) as usize) } else { None::<usize> },
{
    if header[0] != 0x49 || header[1] != 0x44 || header[2] != 0x33 {
        return None;
    }
    let size = read_synchsafe(header, 6);
    Some(
        if size < LONGEST_BODY {
            size
        } else {
            LONGEST_BODY
        },
    )
}

/// The leading tag of a file: the header, and of what follows it the bytes that the header
/// declares, as many as are looked at.
pub fn read_id3v2_tag(header: &[u8; 10], body: &[u8]) -> (r: Option<Vec<u8>>)
    ensures
        r is Some <==> is_id3v2(header@),
        r matches Some(bytes) ==> bytes@ == header@ + if body_len(header@) < body@.len() {
            body@.take(body_len(header@) as int)
        } else {
            body@
        },
{
    let declared = match id3v2_body_len(header) {
        Some(declared) => declared,
        None => {
            return None;
        },
    };
    let len = if declared < body.len() {
        declared
    } else {
        body.len()
    };
    let mut bytes: Vec<u8> = Vec::new();
    let mut i: usize = 0;
    while i < 10
        invariant
            i <= 10,
            bytes@ == header@.take(i as int),
        decreases 10 - i,
    {
        bytes.push(header[i]);
        i = i + 1;
        assert(bytes@ =~= header@.take(i as int));
    }
    let mut j: usize = 0;
    assert(bytes@ =~= header@ + body@.take(0));
    while j < len
        invariant
            j <= len <= body@.len(),
            bytes@ == header@ + body@.take(j as int),
        decreases len - j,
    {
        bytes.push(body[j]);
        j = j + 1;
        assert(bytes@ =~= header@ + body@.take(j as int));
    }
    assert(body@.take(body@.len() as int) =~= body@);
    Some(bytes)
}

} // verus!
