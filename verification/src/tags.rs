//! What is written into an ID3v2 tag is read from it.
use crate::id3::{
    begins_with_name, big_endian, body_len, carries_traktor_frame, first_frame, frame_size,
    frames_from, frames_of, is_traktor_frame, resynchronised, synchsafe, tag_body, FrameView,
    Reading, LONGEST_BODY, PRIVATE, TRAKTOR4,
};
use vstd::prelude::*;

verus! {

/// A size as four bytes: of seven bits each, or of eight.
pub open spec fn written_size(synchsafe_sizes: bool, size: nat) -> Seq<u8> {
    let base: nat = if synchsafe_sizes {
        128
    } else {
        256
    };
    seq![
        (size / base / base / base % base) as u8,
        (size / base / base % base) as u8,
        (size / base % base) as u8,
        (size % base) as u8,
    ]
}

/// The sizes that four bytes can hold.
pub open spec fn size_limit(synchsafe_sizes: bool) -> nat {
    if synchsafe_sizes {
        0x1000_0000
    } else {
        0x1_0000_0000
    }
}

/// A size that is written is the size that is read.
pub proof fn law_written_size_is_read(synchsafe_sizes: bool, size: nat)
    requires
        size < size_limit(synchsafe_sizes),
    ensures
        frame_size(synchsafe_sizes, written_size(synchsafe_sizes, size)) == size,
        written_size(synchsafe_sizes, size).len() == 4,
{
    let b = written_size(synchsafe_sizes, size);
    if synchsafe_sizes {
        let (p, q, r) = (size / 128, size / 128 / 128, size / 128 / 128 / 128);
        assert(r < 128);
        assert(b[0] == r && b[1] == q % 128 && b[2] == p % 128 && b[3] == size % 128);
        assert(synchsafe(b) == size);
    } else {
        let (p, q, r) = (size / 256, size / 256 / 256, size / 256 / 256 / 256);
        assert(r < 256);
        assert(b[0] == r && b[1] == q % 256 && b[2] == p % 256 && b[3] == size % 256);
        assert(big_endian(b) == size);
    }
}

/// A frame that can be written: its id has four letters, its flags two bytes, and its size fits.
pub open spec fn is_writable(synchsafe_sizes: bool, frame: FrameView) -> bool {
    &&& frame.id.len() == 4
    &&& frame.id[0] != 0
    &&& frame.flags.len() == 2
    &&& frame.body.len() < size_limit(synchsafe_sizes)
}

/// A frame as bytes.
pub open spec fn written(synchsafe_sizes: bool, frame: FrameView) -> Seq<u8> {
    frame.id + written_size(synchsafe_sizes, frame.body.len()) + frame.flags + frame.body
}

/// Frames as bytes, one after the other.
pub open spec fn all_written(synchsafe_sizes: bool, frames: Seq<FrameView>) -> Seq<u8>
    decreases frames.len(),
{
    if frames.len() == 0 {
        Seq::empty()
    } else {
        written(synchsafe_sizes, frames.first()) + all_written(synchsafe_sizes, frames.drop_first())
    }
}

/// Where the parts of a frame stand that is written between other bytes.
proof fn lemma_parts(synchsafe_sizes: bool, before: Seq<u8>, frame: FrameView, tail: Seq<u8>)
    requires
        is_writable(synchsafe_sizes, frame),
    ensures
        ({
            let bytes = before + written(synchsafe_sizes, frame) + tail;
            let at = before.len() as int;
            let end = at + 10 + frame.body.len();
            &&& end <= bytes.len()
            &&& (before + written(synchsafe_sizes, frame)).len() == end
            &&& bytes[at] == frame.id[0]
            &&& bytes.subrange(at, at + 4) == frame.id
            &&& bytes.subrange(at + 4, at + 8) == written_size(
                synchsafe_sizes,
                frame.body.len(),
            )
            &&& bytes.subrange(at + 8, at + 10) == frame.flags
            &&& bytes.subrange(at + 10, end) == frame.body
        }),
{
    let size = written_size(synchsafe_sizes, frame.body.len());
    let bytes = before + written(synchsafe_sizes, frame) + tail;
    let at = before.len() as int;
    assert(size.len() == 4);
    assert(bytes.subrange(at, at + 4) =~= frame.id);
    assert(bytes.subrange(at + 4, at + 8) =~= size);
    assert(bytes.subrange(at + 8, at + 10) =~= frame.flags);
    assert(bytes.subrange(at + 10, at + 10 + frame.body.len()) =~= frame.body);
}

/// The frames that are written behind some bytes are read from there on; the padding ends them.
proof fn lemma_frames_from(
    synchsafe_sizes: bool,
    before: Seq<u8>,
    frames: Seq<FrameView>,
    padding: Seq<u8>,
)
    requires
        forall|i: int| 0 <= i < frames.len() ==> is_writable(synchsafe_sizes, #[trigger] frames[i]),
        padding.len() == 0 || padding[0] == 0,
    ensures
        frames_from(
            synchsafe_sizes,
            before + all_written(synchsafe_sizes, frames) + padding,
            before.len(),
        ) == frames,
    decreases frames.len(),
{
    let bytes = before + all_written(synchsafe_sizes, frames) + padding;
    let at = before.len() as int;
    if frames.len() == 0 {
        if padding.len() > 0 {
            assert(bytes[at] == padding[0]);
        }
        assert(frames =~= Seq::empty());
    } else {
        let first = frames.first();
        let rest = frames.drop_first();
        assert(is_writable(synchsafe_sizes, frames[0]));
        assert forall|i: int| 0 <= i < rest.len() implies is_writable(
            synchsafe_sizes,
            #[trigger] rest[i],
        ) by {
            assert(rest[i] == frames[i + 1]);
        }
        let head = written(synchsafe_sizes, first);
        let after = all_written(synchsafe_sizes, rest);
        law_written_size_is_read(synchsafe_sizes, first.body.len());
        lemma_parts(synchsafe_sizes, before, first, after + padding);
        assert(before + head + (after + padding) =~= bytes);
        lemma_frames_from(synchsafe_sizes, before + head, rest, padding);
        assert(before + head + after + padding =~= bytes);
        assert(seq![first] + rest =~= frames);
    }
}

/// A tag without an extended header, as bytes: a version, and the frames with some padding.
pub open spec fn written_tag(version: u8, size: nat, body: Seq<u8>) -> Seq<u8> {
    seq![0x49u8, 0x44u8, 0x33u8, version, 0u8, 0u8] + written_size(true, size) + body
}

/// The frames that are written into a tag are those that are read from it, up to the padding: all
/// of them, in their order, whatever they hold.
pub proof fn law_written_frames_are_read(
    version: u8,
    synchsafe_sizes: bool,
    frames: Seq<FrameView>,
    padding: Seq<u8>,
    after: Seq<u8>,
)
    requires
        forall|i: int| 0 <= i < frames.len() ==> is_writable(synchsafe_sizes, #[trigger] frames[i]),
        padding.len() == 0 || padding[0] == 0,
        (all_written(synchsafe_sizes, frames) + padding).len() < LONGEST_BODY,
    ensures
        ({
            let body = all_written(synchsafe_sizes, frames) + padding;
            let tag = written_tag(version, body.len(), body + after);
            frames_of(tag, Reading { synchsafe: synchsafe_sizes, whole: false }) == frames
        }),
{
    let body = all_written(synchsafe_sizes, frames) + padding;
    let tag = written_tag(version, body.len(), body + after);
    let size = written_size(true, body.len());
    law_written_size_is_read(true, body.len());
    assert(tag.subrange(6, 10) =~= size);
    assert(body_len(tag) == body.len());
    assert(tag[5] == 0);
    assert(tag_body(tag, false) =~= body);
    lemma_frames_from(synchsafe_sizes, Seq::empty(), frames, padding);
    assert(Seq::<u8>::empty() + all_written(synchsafe_sizes, frames) + padding =~= body);
    assert(first_frame(version, 0, synchsafe_sizes, body) == 0);
}

/// A private frame that Traktor has signed, behind any frames and before any others, gives a tag
/// away.
pub proof fn law_signed_tag_is_recognised(
    version: u8,
    synchsafe_sizes: bool,
    before: Seq<FrameView>,
    rest: Seq<u8>,
    flags: Seq<u8>,
    others: Seq<FrameView>,
)
    requires
        ({
            let signed = FrameView { id: PRIVATE@, flags, body: TRAKTOR4@ + seq![0u8] + rest };
            let frames = before + seq![signed] + others;
            &&& forall|i: int|
                0 <= i < frames.len() ==> is_writable(synchsafe_sizes, #[trigger] frames[i])
            &&& all_written(synchsafe_sizes, frames).len() < LONGEST_BODY
        }),
    ensures
        ({
            let signed = FrameView { id: PRIVATE@, flags, body: TRAKTOR4@ + seq![0u8] + rest };
            let body = all_written(synchsafe_sizes, before + seq![signed] + others);
            carries_traktor_frame(written_tag(version, body.len(), body))
        }),
{
    let signed = FrameView { id: PRIVATE@, flags, body: TRAKTOR4@ + seq![0u8] + rest };
    let frames = before + seq![signed] + others;
    let body = all_written(synchsafe_sizes, frames);
    let none = Seq::<u8>::empty();
    let reading = Reading { synchsafe: synchsafe_sizes, whole: false };
    assert(body + none =~= body);
    law_written_frames_are_read(version, synchsafe_sizes, frames, none, none);
    let tag = written_tag(version, body.len(), body);
    let i = before.len() as int;
    assert(frames[i] == signed);
    assert(signed.body.take(8) =~= TRAKTOR4@);
    assert(signed.body[8] == 0);
    assert(begins_with_name(signed.body, TRAKTOR4@));
    assert(tag[3] == version);
    assert(is_traktor_frame(tag[3], frames_of(tag, reading)[i]));
    crate::id3::law_traktor_frame_is_found(tag, reading, i);
}

/// Unsynchronisation: a zero behind each byte of all ones.
pub open spec fn unsynchronised(bytes: Seq<u8>) -> Seq<u8>
    decreases bytes.len(),
{
    if bytes.len() == 0 {
        bytes
    } else {
        let rest = unsynchronised(bytes.drop_last()).push(bytes.last());
        if bytes.last() == 0xff {
            rest.push(0)
        } else {
            rest
        }
    }
}

/// What unsynchronisation does is undone, whatever the bytes are.
pub proof fn law_resynchronising_undoes_unsynchronisation(bytes: Seq<u8>)
    ensures
        resynchronised(unsynchronised(bytes)) == bytes,
    decreases bytes.len(),
{
    let all = unsynchronised(bytes);
    if bytes.len() > 0 {
        let fewer = bytes.drop_last();
        let last = bytes.last();
        let head = unsynchronised(fewer);
        law_resynchronising_undoes_unsynchronisation(fewer);
        lemma_no_ones_at_the_end(fewer);
        let next = head.push(last);
        assert(next.drop_last() =~= head);
        assert(next.last() == last);
        if head.len() > 0 {
            assert(next[next.len() - 2] == head.last());
        }
        assert(resynchronised(next) =~= fewer.push(last));
        assert(fewer.push(last) =~= bytes);
        if last == 0xff {
            assert(all =~= next.push(0));
            assert(all.drop_last() =~= next);
            assert(all.last() == 0 && all[all.len() - 2] == 0xff);
        }
    }
}

/// What is unsynchronised does not end with a byte of all ones.
proof fn lemma_no_ones_at_the_end(bytes: Seq<u8>)
    ensures
        unsynchronised(bytes).len() > 0 ==> unsynchronised(bytes).last() != 0xff,
{
}

/// An extended header is skipped: its own four bytes and the size that it declares, which since
/// version 4 is that of the whole extended header.
pub proof fn law_extended_header_is_skipped(
    version: u8,
    flags: u8,
    synchsafe_sizes: bool,
    extension: Seq<u8>,
    frames: Seq<u8>,
)
    requires
        extension.len() + 4 < size_limit(synchsafe_sizes),
    ensures
        ({
            let declared = if version == 4 {
                extension.len() + 4
            } else {
                extension.len()
            };
            let body = written_size(synchsafe_sizes, declared) + extension + frames;
            let first = first_frame(version, flags, synchsafe_sizes, body);
            &&& flags / 0x40 % 2 == 1 ==> body.skip(first as int) == frames
            &&& flags / 0x40 % 2 == 0 ==> first == 0
        }),
{
    let declared = if version == 4 {
        extension.len() + 4
    } else {
        extension.len()
    };
    let size = written_size(synchsafe_sizes, declared);
    let body = size + extension + frames;
    law_written_size_is_read(synchsafe_sizes, declared);
    assert(body.take(4) =~= size);
    assert(body.skip((extension.len() + 4) as int) =~= frames);
}

} // verus!
