//! Loading a file: what becomes of it once it is decoded.
use crate::audio::{
    frames_in, is_interleaved, remix_channels, remixed, resample_interleaved, AudioProcessError,
    Conversion, PlaybackBuffer,
};
use crate::decoder::{DecodeError, DecodedTrack};
use crate::metadata::{only_path_known, MetadataError, TrackInfo};
use crate::path::FilePath;
use crate::single::Single;
use vstd::prelude::*;

verus! {

/// What came of loading a file.
#[derive(Debug)]
pub enum LoadOutcome {
    /// The file is ready.
    Loaded(Box<LoadedData>),
    /// It could not be loaded: what is shown then.
    Failed(String),
}

/// A file that is ready.
#[derive(Debug)]
pub struct LoadedData {
    /// What is known of it.
    pub info: TrackInfo,
    /// The decoded track.
    pub decoded: DecodedTrack,
    /// The track as the audio device takes it, if there is a device.
    pub buffer: Option<PlaybackBuffer>,
}

/// The samples that a converter left.
pub open spec fn converted_samples(converted: Conversion, channels: usize) -> Seq<Single> {
    match converted {
        Ok((output, frames)) => if frames * channels < output@.len() {
            output@.take(frames * channels)
        } else {
            output@
        },
        Err(_) => Seq::empty(),
    }
}

/// A track's samples at the rate of the device.
pub open spec fn at_rate(decoded: DecodedTrack, output_rate: u32, converted: Conversion) -> Seq<
    Single,
> {
    if decoded.sample_rate == output_rate || decoded.samples@.len() == 0 {
        decoded.samples@
    } else {
        converted_samples(converted, decoded.channels)
    }
}

/// Why a track cannot be made ready for a device.
pub open spec fn preparation_error(
    decoded: DecodedTrack,
    output_rate: u32,
    converted: Conversion,
) -> Option<AudioProcessError> {
    if decoded.channels == 0 {
        Some(AudioProcessError::InvalidChannels)
    } else if !is_interleaved(decoded.samples@.len(), decoded.channels) {
        Some(AudioProcessError::InvalidInterleavedLength)
    } else if decoded.sample_rate == output_rate || decoded.samples@.len() == 0 {
        None
    } else {
        match converted {
            Ok(_) => None,
            Err(cause) => Some(AudioProcessError::Resample(cause)),
        }
    }
}

/// The sizes of what is made of a track fit in memory.
pub open spec fn fits_memory(
    decoded: DecodedTrack,
    output_rate: u32,
    output_channels: usize,
    converted: Conversion,
) -> bool {
    &&& converted matches Ok((output, frames)) ==> frames * decoded.channels <= usize::MAX
    &&& frames_in(at_rate(decoded, output_rate, converted).len(), decoded.channels)
        * output_channels <= usize::MAX
}

/// Whether the sizes of what is made of a track fit in memory.
pub fn check_memory(
    decoded: &DecodedTrack,
    output_rate: u32,
    output_channels: usize,
    converted: &Conversion,
) -> (r: bool)
    ensures
        r == fits_memory(*decoded, output_rate, output_channels, *converted),
{
    let held = match converted {
        Ok((output, frames)) => match frames.checked_mul(decoded.channels) {
            Some(samples) => if samples < output.len() {
                samples
            } else {
                output.len()
            },
            None => {
                return false;
            },
        },
        Err(_) => 0,
    };
    let total = if decoded.sample_rate == output_rate || decoded.samples.len() == 0 {
        decoded.samples.len()
    } else {
        held
    };
    let frames = if decoded.channels == 0 {
        0
    } else {
        total / decoded.channels
    };
    frames.checked_mul(output_channels).is_some()
}

/// A track as an audio device takes it, once a converter has run where the rates differ.
pub fn prepare_playback_buffer(
    decoded: &DecodedTrack,
    output_sample_rate: u32,
    output_channels: usize,
    converted: Conversion,
) -> (r: Result<PlaybackBuffer, AudioProcessError>)
    requires
        fits_memory(*decoded, output_sample_rate, output_channels, converted),
    ensures
        match preparation_error(*decoded, output_sample_rate, converted) {
            Some(error) => r == Err::<PlaybackBuffer, _>(error),
            None => {
                &&& r matches Ok(buffer)
                &&& buffer.samples@ == remixed(
                    at_rate(*decoded, output_sample_rate, converted),
                    decoded.channels,
                    output_channels,
                )
                &&& buffer.sample_rate == output_sample_rate
                &&& buffer.channels == output_channels
            },
        },
{
    match resample_interleaved(
        &decoded.samples,
        decoded.channels,
        decoded.sample_rate,
        output_sample_rate,
        converted,
    ) {
        Ok(resampled) => {
            assert(resampled@ =~= at_rate(*decoded, output_sample_rate, converted));
            let mix = remix_channels(&resampled, decoded.channels, output_channels);
            Ok(PlaybackBuffer::new(mix, output_sample_rate, output_channels))
        },
        Err(error) => Err(error),
    }
}

/// A buffer has a sample for each of its channels in each of its frames: one that is made for a
/// device's channels can be played there.
pub proof fn law_buffer_fits_its_channels(buffer: PlaybackBuffer)
    ensures
        buffer.frames() * buffer.channels <= buffer.samples@.len(),
        buffer.channels > 0 ==> buffer.samples@.len() < (buffer.frames() + 1) * buffer.channels,
{
    if buffer.channels > 0 {
        vstd::arithmetic::div_mod::lemma_fundamental_div_mod(
            buffer.samples@.len() as int,
            buffer.channels as int,
        );
        assert(buffer.frames() * buffer.channels <= buffer.samples@.len()) by (nonlinear_arith)
            requires
                buffer.samples@.len() == buffer.channels * buffer.frames() + (
                buffer.samples@.len() % (buffer.channels as nat)),
        ;
        assert(buffer.samples@.len() < (buffer.frames() + 1) * buffer.channels) by (nonlinear_arith)
            requires
                buffer.samples@.len() == buffer.channels * buffer.frames() + (
                buffer.samples@.len() % (buffer.channels as nat)),
                buffer.samples@.len() % (buffer.channels as nat) < buffer.channels,
        ;
    } else {
        assert(0 * buffer.channels == 0);
    }
}

/// What is known of a file that has been decoded: its tags, or its path where they could not be
/// read, with the properties that decoding has shown.
pub open spec fn known_of(
    info: TrackInfo,
    read: Result<TrackInfo, MetadataError>,
    path: Seq<u8>,
    decoded: DecodedTrack,
) -> bool {
    exists|before: TrackInfo|
        (match read {
            Ok(tags) => before == tags,
            Err(_) => only_path_known(before, path),
        }) && info == #[trigger] with_audio_properties(before, decoded)
}

/// What is known of a track, with the properties that decoding has shown.
pub open spec fn with_audio_properties(info: TrackInfo, decoded: DecodedTrack) -> TrackInfo {
    TrackInfo {
        duration: Some(decoded.duration),
        sample_rate: Some(decoded.sample_rate),
        channels: Some((decoded.channels % 0x1_0000) as u16),
        ..info
    }
}

/// A track that is at the device's rate is not converted: whatever a converter may have left, its
/// own samples play, and with the device's channels they play as they are.
pub proof fn law_a_fitting_track_is_left_alone(
    decoded: DecodedTrack,
    rate: u32,
    converted: Conversion,
)
    requires
        decoded.sample_rate == rate,
        decoded.channels > 0,
        decoded.samples@.len() % (decoded.channels as nat) == 0,
    ensures
        preparation_error(decoded, rate, converted) is None,
        at_rate(decoded, rate, converted) == decoded.samples@,
        remixed(decoded.samples@, decoded.channels, decoded.channels) == decoded.samples@,
{
    let (samples, channels) = (decoded.samples@, decoded.channels as int);
    vstd::arithmetic::div_mod::lemma_fundamental_div_mod(samples.len() as int, channels);
    let same = remixed(samples, decoded.channels, decoded.channels);
    let frames = frames_in(samples.len(), decoded.channels);
    assert(frames * channels == channels * frames) by (nonlinear_arith);
    assert forall|i: int| 0 <= i < samples.len() implies same[i] == samples[i] by {
        let (frame, channel) = (i / channels, i % channels);
        vstd::arithmetic::div_mod::lemma_fundamental_div_mod(i, channels);
        vstd::arithmetic::div_mod::lemma_mod_bound(i, channels);
        assert(frame * channels == channels * frame) by (nonlinear_arith);
        assert(0 <= frame < frames) by (nonlinear_arith)
            requires
                i == channels * frame + channel,
                0 <= channel < channels,
                0 <= i < channels * frames,
        ;
        crate::mixing::law_remix_keeps_every_channel(
            samples,
            decoded.channels,
            decoded.channels,
            frame,
            channel,
        );
    }
    assert(same =~= samples);
}

/// A track at another rate plays what the converter left of it: all the frames that the converter
/// says it wrote, as far as there are any, and none after them.
pub proof fn law_converted_frames_play(
    decoded: DecodedTrack,
    rate: u32,
    output: Vec<Single>,
    frames: usize,
)
    requires
        decoded.sample_rate != rate,
        decoded.channels > 0,
        decoded.samples@.len() > 0,
        decoded.samples@.len() % (decoded.channels as nat) == 0,
    ensures
        ({
            let converted: Conversion = Ok((output, frames));
            let played = at_rate(decoded, rate, converted);
            &&& preparation_error(decoded, rate, converted) is None
            &&& played.is_prefix_of(output@)
            &&& played.len() <= frames * decoded.channels
            &&& played.len() == frames * decoded.channels || played.len() == output@.len()
        }),
{
}

/// Nothing that the tags tell is lost once a file is decoded; its length, its rate and its channels
/// are those that decoding has shown.
pub proof fn law_decoding_keeps_the_tags(
    info: TrackInfo,
    tags: TrackInfo,
    path: Seq<u8>,
    decoded: DecodedTrack,
)
    requires
        known_of(info, Ok(tags), path, decoded),
    ensures
        info.path == tags.path,
        info.title == tags.title,
        info.artist == tags.artist,
        info.album == tags.album,
        info.year == tags.year,
        info.genre == tags.genre,
        info.bitrate == tags.bitrate,
        info.bpm == tags.bpm,
        info.key == tags.key,
        info.cover_art == tags.cover_art,
        info.traktor_analyzed == tags.traktor_analyzed,
        info.duration == Some(decoded.duration),
        info.sample_rate == Some(decoded.sample_rate),
        decoded.channels < 0x1_0000 ==> info.channels == Some(decoded.channels as u16),
{
}

/// What becomes of a file once it is decoded and its tags are read. `output` is the device's
/// sample rate and channel count, and nothing where there is no device.
pub fn load_track(
    path: FilePath,
    decoded: Result<DecodedTrack, DecodeError>,
    read: Result<TrackInfo, MetadataError>,
    output: Option<(u32, usize)>,
    converted: Conversion,
) -> (r: LoadOutcome)
    requires
        decoded matches Ok(track) ==> (output matches Some((rate, channels)) ==> fits_memory(
            track,
            rate,
            channels,
            converted,
        )),
    ensures
        match decoded {
            Err(error) => r matches LoadOutcome::Failed(text) && text@ == error.words(),
            Ok(track) => match output {
                None => {
                    &&& r matches LoadOutcome::Loaded(data)
                    &&& data.buffer is None
                    &&& data.decoded == track
                    &&& known_of(data.info, read, path@, track)
                },
                Some((rate, channels)) => match preparation_error(track, rate, converted) {
                    Some(error) => r matches LoadOutcome::Failed(text) && text@ == error.words(),
                    None => {
                        &&& r matches LoadOutcome::Loaded(data)
                        &&& data.buffer matches Some(buffer)
                        &&& buffer.samples@ == remixed(
                            at_rate(track, rate, converted),
                            track.channels,
                            channels,
                        )
                        &&& buffer.sample_rate == rate
                        &&& buffer.channels == channels
                        &&& data.decoded == track
                        &&& known_of(data.info, read, path@, track)
                    },
                },
            },
        },
{
    let decoded = match decoded {
        Ok(decoded) => decoded,
        Err(error) => {
            return LoadOutcome::Failed(error.message());
        },
    };
    let mut info = match read {
        Ok(info) => info,
        Err(_) => TrackInfo::fallback(path),
    };
    let ghost before = info;
    info.set_audio_properties(decoded.duration, decoded.sample_rate, decoded.channels);
    assert(info == with_audio_properties(before, decoded));
    let buffer = match output {
        Some((sample_rate, channels)) => {
            match prepare_playback_buffer(&decoded, sample_rate, channels, converted) {
                Ok(buffer) => Some(buffer),
                Err(error) => {
                    return LoadOutcome::Failed(error.message());
                },
            }
        },
        None => None,
    };
    LoadOutcome::Loaded(Box::new(LoadedData { info, decoded, buffer }))
}

/// What has come from the thread that loads a file.
#[derive(Debug)]
pub enum LoadPoll {
    /// Nothing yet.
    Waiting,
    /// The thread is gone without a word.
    Gone,
    /// The file is loaded, or has failed to load.
    Done(LoadOutcome),
}

/// What to do with what has come.
#[derive(Debug)]
pub enum LoadStep {
    /// Go on waiting.
    Wait,
    /// Stop waiting.
    Forget,
    /// Stop waiting, and show the status.
    Report(String),
    /// Stop waiting, show the status, and take on the file: it plays at once where there is a
    /// device.
    Take(String, Box<LoadedData>),
}

/// Decides what to do with what has come from the thread that loads a file.
pub fn poll_load(poll: LoadPoll) -> (r: LoadStep)
    ensures
        match poll {
            LoadPoll::Waiting => r is Wait,
            LoadPoll::Gone => r is Forget,
            LoadPoll::Done(LoadOutcome::Failed(error)) => r matches LoadStep::Report(status)
                && status@ == error@,
            LoadPoll::Done(LoadOutcome::Loaded(data)) => r matches LoadStep::Take(status, taken)
                && status@ == "Loaded "@ + data.info.title@ && taken == data,
        },
{
    match poll {
        LoadPoll::Waiting => LoadStep::Wait,
        LoadPoll::Gone => LoadStep::Forget,
        LoadPoll::Done(LoadOutcome::Failed(error)) => LoadStep::Report(error),
        LoadPoll::Done(LoadOutcome::Loaded(data)) => {
            let mut status = "Loaded ".to_owned();
            status.append(data.info.title.as_str());
            LoadStep::Take(status, data)
        },
    }
}

} // verus!
