//! Decoding: which files are taken, and how their packets become a track.
use crate::audio::{frames_in, seconds_at};
use crate::double::Double;
use crate::output::{lasts, law_frames_play_for_their_time};
use crate::path::{exact, extension_of, FilePath};
use crate::reduction::shows_root_mean_squares;
use crate::single::Single;
use crate::text::{is_word_from, lower, mended};
use crate::time::{lemma_count_over_rate, nanoseconds, of_nanos, Duration};
use crate::waveform::{
    analyze_waveform, band_levels, bin_levels, bin_peaks, filters_frames, mono_frames, BandSignals,
    WaveformAnalysis,
};
use vstd::prelude::*;

verus! {

/// A track that has been decoded.
#[derive(Clone, Debug)]
pub struct DecodedTrack {
    /// Where it is.
    pub path: FilePath,
    /// Its samples, frame by frame.
    pub samples: Vec<Single>,
    /// Frames in a second.
    pub sample_rate: u32,
    /// Samples in a frame.
    pub channels: usize,
    /// How long it plays.
    pub duration: Duration,
    /// What is kept to draw it.
    pub waveform: WaveformAnalysis,
}

/// Why a file could not be decoded.
#[derive(Debug)]
pub enum DecodeError {
    /// The name does not end as an audio file's does.
    UnsupportedExtension {
        /// The file.
        path: FilePath,
    },
    /// The file has no audio that could be decoded.
    NoAudioTrack {
        /// The file.
        path: FilePath,
    },
    /// Decoding gave no samples.
    EmptyAudio {
        /// The file.
        path: FilePath,
    },
    /// The file could not be opened.
    Open {
        /// The file.
        path: FilePath,
        /// What the system said.
        source: String,
    },
    /// The decoder failed.
    Decode {
        /// The file.
        path: FilePath,
        /// What the decoder said.
        source: String,
    },
}

impl DecodeError {
    /// The error in words.
    pub open spec fn words(self) -> Seq<char> {
        match self {
            DecodeError::UnsupportedExtension { path } => "Unsupported audio format: "@ + mended(
                path@,
            ),
            DecodeError::NoAudioTrack { path } => "No decodable audio track found in "@ + mended(
                path@,
            ),
            DecodeError::EmptyAudio { path } => "Audio file has no decoded samples: "@ + mended(
                path@,
            ),
            DecodeError::Open { path, source } => "Could not open audio file "@ + mended(path@)
                + ": "@ + source@,
            DecodeError::Decode { path, source } => "Could not decode audio file "@ + mended(path@)
                + ": "@ + source@,
        }
    }

    /// The error in words.
    pub fn message(&self) -> (r: String)
        ensures
            r@ == self.words(),
    {
        match self {
            DecodeError::UnsupportedExtension { path } => {
                let mut text = "Unsupported audio format: ".to_owned();
                text.append(path.display().as_str());
                text
            },
            DecodeError::NoAudioTrack { path } => {
                let mut text = "No decodable audio track found in ".to_owned();
                text.append(path.display().as_str());
                text
            },
            DecodeError::EmptyAudio { path } => {
                let mut text = "Audio file has no decoded samples: ".to_owned();
                text.append(path.display().as_str());
                text
            },
            DecodeError::Open { path, source } => {
                let mut text = "Could not open audio file ".to_owned();
                text.append(path.display().as_str());
                text.append(": ");
                text.append(source.as_str());
                text
            },
            DecodeError::Decode { path, source } => {
                let mut text = "Could not decode audio file ".to_owned();
                text.append(path.display().as_str());
                text.append(": ");
                text.append(source.as_str());
                text
            },
        }
    }
}

/// Text without the dots it begins with.
pub open spec fn without_dots(s: Seq<char>) -> Seq<char>
    decreases s.len(),
{
    if s.len() > 0 && s.first() == '.' {
        without_dots(s.drop_first())
    } else {
        s
    }
}

/// An extension of a file that is taken: leading dots and case do not matter.
pub open spec fn supported(extension: Seq<char>) -> bool {
    let name = without_dots(extension).map_values(|c: char| lower(c));
    name == "mp3"@ || name == "wav"@ || name == "flac"@ || name == "m4a"@ || name == "aac"@
}

/// Whether files with an extension are taken.
pub fn is_supported_extension(extension: &str) -> (r: bool)
    ensures
        r == supported(extension@),
{
    let len = extension.unicode_len();
    let mut from: usize = 0;
    assert(extension@.skip(0) =~= extension@);
    while from < len && extension.get_char(from) == '.'
        invariant
            from <= len == extension@.len(),
            without_dots(extension@) == without_dots(extension@.skip(from as int)),
        decreases len - from,
    {
        proof {
            let rest = extension@.skip(from as int);
            assert(rest.first() == extension@[from as int]);
            assert(rest.drop_first() =~= extension@.skip(from + 1));
        }
        from = from + 1;
    }
    proof {
        if from < len {
            assert(extension@.skip(from as int).first() == extension@[from as int]);
        }
    }
    is_word_from(extension, from, "mp3") || is_word_from(extension, from, "wav") || is_word_from(
        extension,
        from,
        "flac",
    ) || is_word_from(extension, from, "m4a") || is_word_from(extension, from, "aac")
}

/// Neither dots before an extension nor the case of its letters decide whether it is taken.
pub proof fn law_dots_and_case_do_not_matter(extension: Seq<char>)
    ensures
        supported(seq!['.'] + extension) == supported(extension),
        supported(extension.map_values(|c: char| lower(c))) == supported(extension),
        !supported(Seq::empty()),
{
    let dotted = seq!['.'] + extension;
    assert(dotted.first() == '.');
    assert(dotted.drop_first() =~= extension);
    lemma_lower_case(extension);
    let small = extension.map_values(|c: char| lower(c));
    let (a, b) = (without_dots(extension), without_dots(small));
    assert(b.map_values(|c: char| lower(c)) =~= a.map_values(|c: char| lower(c)));
    reveal_strlit("mp3");
    reveal_strlit("wav");
    reveal_strlit("flac");
    reveal_strlit("m4a");
    reveal_strlit("aac");
    assert(without_dots(Seq::<char>::empty()).map_values(|c: char| lower(c)).len() == 0);
}

/// Taking dots away and making letters small can be done in either order.
proof fn lemma_lower_case(s: Seq<char>)
    ensures
        without_dots(s.map_values(|c: char| lower(c))) == without_dots(s).map_values(
            |c: char| lower(c),
        ),
    decreases s.len(),
{
    let small = s.map_values(|c: char| lower(c));
    if s.len() > 0 {
        assert(small.first() == lower(s.first()));
        assert(small.first() == '.' <==> s.first() == '.');
        if s.first() == '.' {
            lemma_lower_case(s.drop_first());
            assert(small.drop_first() =~= s.drop_first().map_values(|c: char| lower(c)));
        }
    } else {
        assert(small =~= s);
    }
}

/// The extension of a path; no text where it has none, or none that is text.
pub open spec fn extension_text(path: Seq<u8>) -> Seq<char> {
    match exact(extension_of(path)) {
        Some(text) => text,
        None => Seq::empty(),
    }
}

/// The extension of a file that is taken, or the error for one that is not.
pub fn check_extension(path: &FilePath) -> (r: Result<String, DecodeError>)
    ensures
        r is Ok <==> supported(extension_text(path@)),
        r matches Ok(extension) ==> extension@ == extension_text(path@),
        r matches Err(error) ==> (error matches DecodeError::UnsupportedExtension { path: at }
            && at@ == path@),
{
    let extension = match path.extension() {
        Some(text) => text,
        None => String::new(),
    };
    assert(extension@ =~= extension_text(path@));
    if is_supported_extension(extension.as_str()) {
        Ok(extension)
    } else {
        Err(DecodeError::UnsupportedExtension { path: path.duplicate() })
    }
}

/// How a file's default audio track is coded.
#[derive(Clone, Copy, Debug)]
pub struct AudioCodec {
    /// Whether the codec is the one that stands for none.
    pub is_null: bool,
    /// Frames in a second, if the file says so.
    pub sample_rate: Option<u32>,
    /// Samples in a frame, if the file says so.
    pub channels: Option<usize>,
}

/// A file's default audio track.
#[derive(Clone, Copy, Debug)]
pub struct AudioTrack {
    /// The track's number in the file.
    pub id: u32,
    /// How it is coded, if it is audio.
    pub codec: Option<AudioCodec>,
}

/// What came of reading a packet.
#[derive(Debug)]
pub enum PacketRead {
    /// A packet of a track.
    Packet {
        /// The track's number.
        track_id: u32,
    },
    /// The end of the file.
    End,
    /// The file broke off.
    CutShort,
    /// The reader failed, and says why.
    Failed(String),
}

/// What to do after reading a packet.
#[derive(Debug)]
pub enum NextStep {
    /// Decode the packet.
    Decode,
    /// Leave the packet, and read the next.
    Skip,
    /// No more packets.
    Finish,
    /// Give up.
    Fail(DecodeError),
}

/// What came of decoding a packet.
#[derive(Debug)]
pub enum PacketDecoded {
    /// The packet's samples, frame by frame.
    Samples(Vec<Single>),
    /// The packet was broken.
    Corrupt,
    /// The decoder failed, and says why.
    Failed(String),
}

/// Frames in a second where the file does not say.
pub const USUAL_RATE: u32 = 44_100;

/// Samples in a frame where the file does not say.
pub const USUAL_CHANNELS: usize = 2;

/// Bins of a track's analysis: more than are drawn, so that drawing only takes together.
pub const ANALYSIS_BINS: usize = 2000;

/// A track that is being decoded.
#[derive(Debug)]
pub struct Decoding {
    path: FilePath,
    track_id: u32,
    sample_rate: u32,
    channels: usize,
    samples: Vec<Single>,
}

/// What there is, or else something usual.
pub open spec fn or_usual<T>(value: Option<T>, usual: T) -> T {
    match value {
        Some(v) => v,
        None => usual,
    }
}

/// A codec that can be decoded.
pub open spec fn decodable(track: Option<AudioTrack>) -> Option<AudioCodec> {
    match track {
        Some(t) => match t.codec {
            Some(codec) => if codec.is_null {
                None
            } else {
                Some(codec)
            },
            None => None,
        },
        None => None,
    }
}

impl Decoding {
    /// The file.
    pub closed spec fn spec_path(self) -> Seq<u8> {
        self.path@
    }

    /// The number of the track.
    pub closed spec fn spec_track_id(self) -> u32 {
        self.track_id
    }

    /// Frames in a second.
    pub closed spec fn spec_sample_rate(self) -> u32 {
        self.sample_rate
    }

    /// Samples in a frame.
    pub closed spec fn spec_channels(self) -> usize {
        self.channels
    }

    /// The samples so far.
    pub closed spec fn spec_samples(self) -> Seq<Single> {
        self.samples@
    }

    /// Begins to decode a file's default audio track.
    pub fn begin(path: &FilePath, track: Option<AudioTrack>) -> (r: Result<Decoding, DecodeError>)
        ensures
            r is Ok <==> decodable(track) is Some,
            r matches Err(error) ==> (error matches DecodeError::NoAudioTrack { path: at } && at@
                == path@),
            r matches Ok(decoding) ==> {
                let codec = decodable(track)->0;
                &&& decoding.spec_path() == path@
                &&& decoding.spec_track_id() == (track->0).id
                &&& decoding.spec_sample_rate() == or_usual(codec.sample_rate, USUAL_RATE)
                &&& decoding.spec_channels() == or_usual(codec.channels, USUAL_CHANNELS)
                &&& decoding.spec_samples() == Seq::<Single>::empty()
            },
    {
        if let Some(found) = track {
            if let Some(codec) = found.codec {
                if !codec.is_null {
                    let sample_rate = match codec.sample_rate {
                        Some(rate) => rate,
                        None => USUAL_RATE,
                    };
                    let channels = match codec.channels {
                        Some(count) => count,
                        None => USUAL_CHANNELS,
                    };
                    return Ok(
                        Decoding {
                            path: path.duplicate(),
                            track_id: found.id,
                            sample_rate,
                            channels,
                            samples: Vec::new(),
                        },
                    );
                }
            }
        }
        Err(DecodeError::NoAudioTrack { path: path.duplicate() })
    }

    /// Decides what to do after reading a packet. A file that breaks off ends there.
    pub fn after_read(&self, read: PacketRead) -> (r: NextStep)
        ensures
            match read {
                PacketRead::Packet { track_id } => if track_id == self.spec_track_id() {
                    r is Decode
                } else {
                    r is Skip
                },
                PacketRead::End => r is Finish,
                PacketRead::CutShort => r is Finish,
                PacketRead::Failed(cause) => r matches NextStep::Fail(
                    DecodeError::Decode { path, source },
                ) && path@ == self.spec_path() && source@ == cause@,
            },
    {
        match read {
            PacketRead::Packet { track_id } => {
                if track_id == self.track_id {
                    NextStep::Decode
                } else {
                    NextStep::Skip
                }
            },
            PacketRead::End => NextStep::Finish,
            PacketRead::CutShort => NextStep::Finish,
            PacketRead::Failed(source) => {
                NextStep::Fail(DecodeError::Decode { path: self.path.duplicate(), source })
            },
        }
    }

    /// Takes on what decoding a packet gave: the samples of every good packet are kept, a broken
    /// packet is left out.
    pub fn after_decode(&mut self, decoded: PacketDecoded) -> (r: Result<(), DecodeError>)
        ensures
            final(self).spec_path() == old(self).spec_path(),
            final(self).spec_track_id() == old(self).spec_track_id(),
            final(self).spec_sample_rate() == old(self).spec_sample_rate(),
            final(self).spec_channels() == old(self).spec_channels(),
            match decoded {
                PacketDecoded::Samples(samples) => r is Ok && final(self).spec_samples() == old(
                    self,
                ).spec_samples() + samples@,
                PacketDecoded::Corrupt => r is Ok && final(self).spec_samples() == old(
                    self,
                ).spec_samples(),
                PacketDecoded::Failed(cause) => final(self).spec_samples() == old(
                    self,
                ).spec_samples() && (r matches Err(DecodeError::Decode { path, source }) && path@
                    == old(self).spec_path() && source@ == cause@),
            },
    {
        match decoded {
            PacketDecoded::Samples(samples) => {
                let mut samples = samples;
                self.samples.append(&mut samples);
                Ok(())
            },
            PacketDecoded::Corrupt => Ok(()),
            PacketDecoded::Failed(source) => {
                Err(DecodeError::Decode { path: self.path.duplicate(), source })
            },
        }
    }

    /// The samples so far.
    pub fn samples(&self) -> (r: &[Single])
        ensures
            r@ == self.spec_samples(),
    {
        self.samples.as_slice()
    }

    /// Frames in a second.
    pub fn sample_rate(&self) -> (r: u32)
        ensures
            r == self.spec_sample_rate(),
    {
        self.sample_rate
    }

    /// Samples in a frame.
    pub fn channels(&self) -> (r: usize)
        ensures
            r == self.spec_channels(),
    {
        self.channels
    }

    /// The decoded track. `bands` holds its mono mix after each of the band filters.
    pub fn finish(self, bands: &BandSignals) -> (r: Result<DecodedTrack, DecodeError>)
        requires
            self.spec_samples().len() > 0 ==> self.spec_channels() > 0 && self.spec_sample_rate()
                > 0,
            self.spec_samples().len() <= 0x7fff_ffff_ffff_ffff,
            frames_in(self.spec_samples().len(), self.spec_channels()) * ANALYSIS_BINS
                <= usize::MAX,
            filters_frames(
                bands.low,
                frames_in(self.spec_samples().len(), self.spec_channels()),
            ),
            filters_frames(
                bands.mid,
                frames_in(self.spec_samples().len(), self.spec_channels()),
            ),
            filters_frames(
                bands.high,
                frames_in(self.spec_samples().len(), self.spec_channels()),
            ),
        ensures
            r is Err <==> self.spec_samples().len() == 0,
            r matches Err(error) ==> (error matches DecodeError::EmptyAudio { path } && path@
                == self.spec_path()),
            r matches Ok(track) ==> {
                let frames = frames_in(self.spec_samples().len(), self.spec_channels());
                &&& track.path@ == self.spec_path()
                &&& track.samples@ == self.spec_samples()
                &&& track.sample_rate == self.spec_sample_rate()
                &&& track.channels == self.spec_channels()
                &&& track.duration == of_nanos(nanoseconds(seconds_at(frames, track.sample_rate)))
                &&& analyzed(track.waveform, track.samples@, track.channels, *bands)
                &&& frames < 0x20_0000_0000_0000 && frames <= 0x40_0000 * track.sample_rate
                    ==> lasts(track.duration, frames, track.sample_rate)
                &&& bands.low matches Some(signal) ==> shows_root_mean_squares(
                    track.waveform.low@,
                    signal@,
                )
                &&& bands.mid matches Some(signal) ==> shows_root_mean_squares(
                    track.waveform.mid@,
                    signal@,
                )
                &&& bands.high matches Some(signal) ==> shows_root_mean_squares(
                    track.waveform.high@,
                    signal@,
                )
            },
    {
        if self.samples.len() == 0 {
            return Err(DecodeError::EmptyAudio { path: self.path });
        }
        let frames = self.samples.len() / self.channels;
        proof {
            vstd::arithmetic::div_mod::lemma_div_nonincreasing(
                self.samples@.len() as int,
                self.channels as int,
            );
            lemma_count_over_rate(frames as nat, self.sample_rate as nat);
            if frames < 0x20_0000_0000_0000 && frames <= 0x40_0000 * self.sample_rate {
                law_frames_play_for_their_time(frames as nat, self.sample_rate);
            }
        }
        let seconds = Double::of_word(frames as u64).over(
            Double::of_word(self.sample_rate as u64),
        );
        let duration = match Duration::from_seconds(seconds) {
            Some(duration) => duration,
            None => Duration::zero(),
        };
        let waveform = analyze_waveform(&self.samples, self.channels, ANALYSIS_BINS, bands);
        Ok(
            DecodedTrack {
                path: self.path,
                samples: self.samples,
                sample_rate: self.sample_rate,
                channels: self.channels,
                duration,
                waveform,
            },
        )
    }
}

/// The samples of the good packets, one after the other.
pub open spec fn kept(packets: Seq<Option<Seq<Single>>>) -> Seq<Single>
    decreases packets.len(),
{
    if packets.len() == 0 {
        Seq::empty()
    } else {
        let before = kept(packets.drop_last());
        match packets.last() {
            Some(samples) => before + samples,
            None => before,
        }
    }
}

/// A step that took on a packet: its samples where it was good, nothing where it was broken.
pub open spec fn took_on(before: Decoding, after: Decoding, packet: Option<Seq<Single>>) -> bool {
    after.spec_samples() == match packet {
        Some(samples) => before.spec_samples() + samples,
        None => before.spec_samples(),
    }
}

/// However many packets a file has, the samples of every good one are kept, in order.
pub proof fn law_every_packet_is_kept(states: Seq<Decoding>, packets: Seq<Option<Seq<Single>>>)
    requires
        states.len() == packets.len() + 1,
        forall|i: int|
            0 <= i < packets.len() ==> took_on(
                #[trigger] states[i],
                states[i + 1],
                packets[i],
            ),
    ensures
        states.last().spec_samples() == states.first().spec_samples() + kept(packets),
    decreases packets.len(),
{
    if packets.len() == 0 {
        assert(states.first().spec_samples() + kept(packets) =~= states.first().spec_samples());
    } else {
        let fewer = packets.drop_last();
        let earlier = states.drop_last();
        assert forall|i: int| 0 <= i < fewer.len() implies took_on(
            #[trigger] earlier[i],
            earlier[i + 1],
            fewer[i],
        ) by {
            assert(took_on(states[i], states[i + 1], packets[i]));
        }
        law_every_packet_is_kept(earlier, fewer);
        let last = packets.len() - 1;
        assert(took_on(states[last], states[last + 1], packets[last]));
        assert(states.last().spec_samples() =~= states.first().spec_samples() + kept(packets));
    }
}

/// The analysis of a track's samples in all bins.
pub open spec fn analyzed(
    waveform: WaveformAnalysis,
    samples: Seq<Single>,
    channels: usize,
    bands: BandSignals,
) -> bool {
    let bins = ANALYSIS_BINS as nat;
    &&& waveform.wf()
    &&& waveform.peak@ == bin_peaks(samples, channels, bins)
    &&& frames_in(samples.len(), channels) > 0 ==> {
        &&& waveform.rms@ == bin_levels(mono_frames(samples, channels), bins)
        &&& waveform.low@ == band_levels(bands.low, bins)
        &&& waveform.mid@ == band_levels(bands.mid, bins)
        &&& waveform.high@ == band_levels(bands.high, bins)
    }
    &&& frames_in(samples.len(), channels) == 0 ==> {
        let nothing = Seq::new(bins, |bin: int| Single::zero());
        &&& waveform.rms@ == nothing
        &&& waveform.low@ == nothing
        &&& waveform.mid@ == nothing
        &&& waveform.high@ == nothing
    }
}

} // verus!
