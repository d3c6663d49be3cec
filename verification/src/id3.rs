//! The frames of an ID3v2 tag.
use vstd::prelude::*;

verus! {

/// The longest tag body that is looked at: eight mebibytes.
pub const LONGEST_BODY: usize = 0x80_0000;

/// The id of a frame that is private to the program that wrote it.
pub const PRIVATE: [u8; 4] = [0x50, 0x52, 0x49, 0x56];

/// The name that Traktor's frame is owned by.
pub const TRAKTOR4: [u8; 8] = [0x54, 0x52, 0x41, 0x4b, 0x54, 0x4f, 0x52, 0x34];

/// A size in four bytes of seven bits each.
pub open spec fn synchsafe(b: Seq<u8>) -> nat {
    ((b[0] % 128) * 0x20_0000 + (b[1] % 128) * 0x4000 + (b[2] % 128) * 0x80 + (b[3] % 128)) as nat
}

/// A size in four bytes of eight bits each.
pub open spec fn big_endian(b: Seq<u8>) -> nat {
    (b[0] * 0x100_0000 + b[1] * 0x1_0000 + b[2] * 0x100 + b[3]) as nat
}

/// The bytes that follow the header of an ID3v2 tag, as many as are looked at.
pub open spec fn body_len(header: Seq<u8>) -> nat {
    let size = synchsafe(header.subrange(6, 10));
    if size < LONGEST_BODY {
        size
    } else {
        LONGEST_BODY as nat
    }
}

/// The header begins as that of an ID3v2 tag does.
pub open spec fn is_id3v2(header: Seq<u8>) -> bool {
    header[0] == 0x49 && header[1] == 0x44 && header[2] == 0x33
}

/// A frame of a tag.
pub ghost struct FrameView {
    /// The four letters that say what it is.
    pub id: Seq<u8>,
    /// The two bytes of flags.
    pub flags: Seq<u8>,
    /// What it holds, as far as the tag goes on.
    pub body: Seq<u8>,
}

/// How a tag's frames are read. Version 4 writes sizes with seven bits to a byte, and version 3
/// unsynchronises the frames as a whole; but programs that write tags have not always kept to it.
#[derive(Clone, Copy, Debug)]
pub struct Reading {
    /// Sizes have seven bits to a byte.
    pub synchsafe: bool,
    /// A tag that says it is unsynchronised is so as a whole.
    pub whole: bool,
}

/// The size that a frame declares.
pub open spec fn frame_size(synchsafe_sizes: bool, b: Seq<u8>) -> nat {
    if synchsafe_sizes {
        synchsafe(b)
    } else {
        big_endian(b)
    }
}

/// The frames from a place on: up to the padding, or to where no header fits.
pub open spec fn frames_from(synchsafe_sizes: bool, bytes: Seq<u8>, at: nat) -> Seq<FrameView>
    decreases bytes.len() - at,
{
    if at + 10 > bytes.len() || bytes[at as int] == 0 {
        Seq::empty()
    } else {
        let i = at as int;
        let next = at + 10 + frame_size(synchsafe_sizes, bytes.subrange(i + 4, i + 8));
        let end = if next < bytes.len() {
            next
        } else {
            bytes.len()
        };
        let frame = FrameView {
            id: bytes.subrange(i, i + 4),
            flags: bytes.subrange(i + 8, i + 10),
            body: bytes.subrange(i + 10, end as int),
        };
        seq![frame] + frames_from(synchsafe_sizes, bytes, end)
    }
}

/// Bytes without the zero that unsynchronisation puts behind each of all ones.
pub open spec fn resynchronised(bytes: Seq<u8>) -> Seq<u8>
    decreases bytes.len(),
{
    if bytes.len() == 0 {
        bytes
    } else {
        let rest = resynchronised(bytes.drop_last());
        if bytes.len() > 1 && bytes.last() == 0 && bytes[bytes.len() - 2] == 0xff {
            rest
        } else {
            rest.push(bytes.last())
        }
    }
}

/// The bytes of a tag that its header declares, without the header.
pub open spec fn tag_body(tag: Seq<u8>, whole: bool) -> Seq<u8> {
    let end = if 10 + body_len(tag) < tag.len() {
        10 + body_len(tag)
    } else {
        tag.len()
    };
    let body = tag.subrange(10, end as int);
    if whole && tag[5] >= 0x80 {
        resynchronised(body)
    } else {
        body
    }
}

/// Where the frames of a tag's body begin: behind the extended header, where it has one. Since
/// version 4 its size counts the bytes of the size too.
pub open spec fn first_frame(version: u8, flags: u8, synchsafe_sizes: bool, body: Seq<u8>) -> nat {
    if flags / 0x40 % 2 == 0 {
        0
    } else if body.len() < 4 {
        body.len()
    } else if version == 4 {
        frame_size(synchsafe_sizes, body.take(4))
    } else {
        4 + frame_size(synchsafe_sizes, body.take(4))
    }
}

/// The frames of a tag, read in one of the ways.
pub open spec fn frames_of(tag: Seq<u8>, reading: Reading) -> Seq<FrameView> {
    if tag.len() < 10 || !is_id3v2(tag) {
        Seq::empty()
    } else {
        let body = tag_body(tag, reading.whole);
        frames_from(
            reading.synchsafe,
            body,
            first_frame(tag[3], tag[5], reading.synchsafe, body),
        )
    }
}

/// The bytes that a frame's flags put in front of what it holds: the group that it is in, and
/// its length.
pub open spec fn prefix_len(version: u8, flags: u8) -> nat {
    if version == 4 {
        (flags / 0x40 % 2 + 4 * (flags % 2)) as nat
    } else {
        (flags / 0x20 % 2) as nat
    }
}

/// Bytes begin with a name and the zero that ends it.
pub open spec fn begins_with_name(bytes: Seq<u8>, name: Seq<u8>) -> bool {
    &&& name.len() < bytes.len()
    &&& bytes.take(name.len() as int) == name
    &&& bytes[name.len() as int] == 0
}

/// A private frame whose owner, up to its zero byte, is Traktor. The owner comes first, or behind
/// the bytes that the frame's flags put before it.
pub open spec fn is_traktor_frame(version: u8, frame: FrameView) -> bool {
    let prefix = prefix_len(version, frame.flags[1]) as int;
    &&& frame.id == PRIVATE@
    &&& begins_with_name(frame.body, TRAKTOR4@) || (prefix <= frame.body.len() && begins_with_name(
        frame.body.skip(prefix),
        TRAKTOR4@,
    ))
}

/// One of some frames is Traktor's.
pub open spec fn any_traktor_frame(version: u8, frames: Seq<FrameView>) -> bool {
    exists|i: int| 0 <= i < frames.len() && is_traktor_frame(version, #[trigger] frames[i])
}

/// A tag carries Traktor's frame, in one of the ways to read it.
pub open spec fn carries_traktor_frame(tag: Seq<u8>) -> bool {
    exists|reading: Reading| any_traktor_frame(tag[3], #[trigger] frames_of(tag, reading))
}

/// Names and titles do not count: a tag without a private frame is not Traktor's.
pub proof fn law_only_private_frames_count(tag: Seq<u8>)
    requires
        forall|reading: Reading, i: int|
            0 <= i < frames_of(tag, reading).len() ==> (#[trigger] frames_of(tag, reading)[i]).id
                != PRIVATE@,
    ensures
        !carries_traktor_frame(tag),
{
}

/// However large the frames before it are, and whichever way their sizes are written, a private
/// frame of Traktor's that the walk comes to is found.
pub proof fn law_traktor_frame_is_found(tag: Seq<u8>, reading: Reading, i: int)
    requires
        0 <= i < frames_of(tag, reading).len(),
        is_traktor_frame(tag[3], frames_of(tag, reading)[i]),
    ensures
        carries_traktor_frame(tag),
{
    assert(any_traktor_frame(tag[3], frames_of(tag, reading)));
}

/// The first of some frames is Traktor's, or one of the others is.
proof fn lemma_first_or_rest(version: u8, first: FrameView, rest: Seq<FrameView>)
    ensures
        any_traktor_frame(version, seq![first] + rest) <==> is_traktor_frame(version, first)
            || any_traktor_frame(version, rest),
{
    let all = seq![first] + rest;
    assert(all[0] == first);
    if any_traktor_frame(version, rest) {
        let i = choose|i: int| 0 <= i < rest.len() && is_traktor_frame(version, #[trigger] rest[i]);
        assert(all[i + 1] == rest[i]);
    }
    if any_traktor_frame(version, all) {
        let i = choose|i: int| 0 <= i < all.len() && is_traktor_frame(version, #[trigger] all[i]);
        if i > 0 {
            assert(rest[i - 1] == all[i]);
        }
    }
}

/// Reads a size of seven bits to a byte.
pub fn read_synchsafe(bytes: &[u8], at: usize) -> (r: usize)
    requires
        at + 4 <= bytes@.len(),
    ensures
        r == synchsafe(bytes@.subrange(at as int, at + 4)),
        r < 0x1000_0000,
{
    let ghost b = bytes@.subrange(at as int, at + 4);
    assert(b[0] == bytes@[at as int] && b[1] == bytes@[at + 1]);
    assert(b[2] == bytes@[at + 2] && b[3] == bytes@[at + 3]);
    (bytes[at] % 128) as usize * 0x20_0000 + (bytes[at + 1] % 128) as usize * 0x4000 + (bytes[at
        + 2] % 128) as usize * 0x80 + (bytes[at + 3] % 128) as usize
}

/// Reads the size that a frame declares.
fn read_size(synchsafe_sizes: bool, bytes: &[u8], at: usize) -> (r: u64)
    requires
        at + 4 <= bytes@.len(),
    ensures
        r == frame_size(synchsafe_sizes, bytes@.subrange(at as int, at + 4)),
{
    if synchsafe_sizes {
        read_synchsafe(bytes, at) as u64
    } else {
        let ghost b = bytes@.subrange(at as int, at + 4);
        assert(b[0] == bytes@[at as int] && b[1] == bytes@[at + 1]);
        assert(b[2] == bytes@[at + 2] && b[3] == bytes@[at + 3]);
        bytes[at] as u64 * 0x100_0000 + bytes[at + 1] as u64 * 0x1_0000 + bytes[at + 2] as u64
            * 0x100 + bytes[at + 3] as u64
    }
}

/// Whether bytes stand in others at a place.
pub fn matches_at(haystack: &[u8], needle: &[u8], at: usize) -> (r: bool)
    requires
        at + needle@.len() <= haystack@.len(),
    ensures
        r <==> haystack@.subrange(at as int, at + needle@.len()) == needle@,
{
    let total = haystack.len();
    let wanted = needle.len();
    let ghost window = haystack@.subrange(at as int, at + needle@.len());
    let mut i: usize = 0;
    while i < wanted
        invariant
            i <= wanted == needle@.len(),
            total == haystack@.len(),
            at + wanted <= total,
            window == haystack@.subrange(at as int, at + needle@.len()),
            forall|j: int| 0 <= j < i ==> window[j] == needle@[j],
        decreases wanted - i,
    {
        if haystack[at + i] != needle[i] {
            assert(window[i as int] != needle@[i as int]);
            return false;
        }
        i = i + 1;
    }
    assert(window =~= needle@);
    true
}

/// Whether Traktor's name, and the zero that ends it, stand from one place on and before another.
fn named_at(bytes: &[u8], from: usize, end: usize) -> (r: bool)
    requires
        from <= end <= bytes@.len(),
    ensures
        r == begins_with_name(bytes@.subrange(from as int, end as int), TRAKTOR4@),
{
    if end - from < 9 {
        return false;
    }
    let ghost held = bytes@.subrange(from as int, end as int);
    assert(held.take(8) =~= bytes@.subrange(from as int, from + 8));
    assert(held[8] == bytes@[from + 8]);
    matches_at(bytes, &TRAKTOR4, from) && bytes[from + 8] == 0
}

/// Whether the frame at a place, which goes on up to another, is Traktor's.
fn traktor_frame_at(version: u8, bytes: &[u8], at: usize, end: usize) -> (r: bool)
    requires
        at + 10 <= end <= bytes@.len(),
    ensures
        r == is_traktor_frame(
            version,
            FrameView {
                id: bytes@.subrange(at as int, at + 4),
                flags: bytes@.subrange(at + 8, at + 10),
                body: bytes@.subrange(at + 10, end as int),
            },
        ),
{
    let ghost body = bytes@.subrange(at + 10, end as int);
    let flags = bytes[at + 9];
    assert(bytes@.subrange(at + 8, at + 10)[1] == flags);
    let prefix: usize = if version == 4 {
        (flags / 0x40 % 2 + 4 * (flags % 2)) as usize
    } else {
        (flags / 0x20 % 2) as usize
    };
    let from = at + 10;
    if !matches_at(bytes, &PRIVATE, at) {
        return false;
    }
    if named_at(bytes, from, end) {
        return true;
    }
    if prefix > end - from {
        return false;
    }
    assert(body.skip(prefix as int) =~= bytes@.subrange(from + prefix, end as int));
    named_at(bytes, from + prefix, end)
}

/// Whether one of the frames from a place on is Traktor's.
fn find_traktor_frame(version: u8, synchsafe_sizes: bool, bytes: &[u8], start: usize) -> (r: bool)
    ensures
        r == any_traktor_frame(version, frames_from(synchsafe_sizes, bytes@, start as nat)),
{
    let total = bytes.len();
    let mut at = start;
    while at <= total && total - at >= 10 && bytes[at] != 0
        invariant
            total == bytes@.len(),
            any_traktor_frame(version, frames_from(synchsafe_sizes, bytes@, start as nat))
                == any_traktor_frame(version, frames_from(synchsafe_sizes, bytes@, at as nat)),
        decreases total - at,
    {
        let size = read_size(synchsafe_sizes, bytes, at + 4);
        let left = total - at - 10;
        let cut = size >= left as u64;
        let end = if cut {
            total
        } else {
            at + 10 + size as usize
        };
        proof {
            let frame = FrameView {
                id: bytes@.subrange(at as int, at + 4),
                flags: bytes@.subrange(at + 8, at + 10),
                body: bytes@.subrange(at + 10, end as int),
            };
            lemma_first_or_rest(version, frame, frames_from(synchsafe_sizes, bytes@, end as nat));
        }
        if traktor_frame_at(version, bytes, at, end) {
            return true;
        }
        if cut {
            return false;
        }
        at = end;
    }
    false
}

/// Takes out the zero that unsynchronisation puts behind each byte of all ones.
fn resynchronise(bytes: &[u8], from: usize, to: usize) -> (r: Vec<u8>)
    requires
        from <= to <= bytes@.len(),
    ensures
        r@ == resynchronised(bytes@.subrange(from as int, to as int)),
{
    let mut kept: Vec<u8> = Vec::new();
    let mut i = from;
    while i < to
        invariant
            from <= i <= to <= bytes@.len(),
            kept@ == resynchronised(bytes@.subrange(from as int, i as int)),
        decreases to - i,
    {
        let ghost longer = bytes@.subrange(from as int, i + 1);
        assert(longer.drop_last() =~= bytes@.subrange(from as int, i as int));
        if i == from || bytes[i] != 0 || bytes[i - 1] != 0xff {
            kept.push(bytes[i]);
        }
        i = i + 1;
    }
    kept
}

/// Whether one of the frames of a tag's body is Traktor's.
fn search_body(version: u8, flags: u8, synchsafe_sizes: bool, body: &[u8]) -> (r: bool)
    ensures
        r == any_traktor_frame(
            version,
            frames_from(
                synchsafe_sizes,
                body@,
                first_frame(version, flags, synchsafe_sizes, body@),
            ),
        ),
{
    let total = body.len();
    let mut start: usize = 0;
    if flags / 0x40 % 2 == 1 {
        if total < 4 {
            start = total;
        } else {
            let size = read_size(synchsafe_sizes, body, 0);
            assert(body@.take(4) =~= body@.subrange(0, 4));
            let skipped: u64 = if version == 4 {
                size
            } else {
                4 + size
            };
            if skipped > total as u64 {
                return false;
            }
            start = skipped as usize;
        }
    }
    find_traktor_frame(version, synchsafe_sizes, body, start)
}

/// Whether a tag carries Traktor's frame.
pub fn has_traktor_frame(tag: &[u8]) -> (r: bool)
    ensures
        r == carries_traktor_frame(tag@),
{
    let total = tag.len();
    if total < 10 || tag[0] != 0x49 || tag[1] != 0x44 || tag[2] != 0x33 {
        return false;
    }
    let size = read_synchsafe(tag, 6);
    let len = if size < LONGEST_BODY {
        size
    } else {
        LONGEST_BODY
    };
    let end = if len < total - 10 {
        10 + len
    } else {
        total
    };
    let (version, flags) = (tag[3], tag[5]);
    let body = vstd::slice::slice_subrange(tag, 10, end);
    let ghost part = Reading { synchsafe: true, whole: false };
    let ghost plain = Reading { synchsafe: false, whole: false };
    assert(tag_body(tag@, false) == body@);
    if search_body(version, flags, true, body) {
        assert(any_traktor_frame(tag@[3], frames_of(tag@, part)));
        return true;
    }
    if search_body(version, flags, false, body) {
        assert(any_traktor_frame(tag@[3], frames_of(tag@, plain)));
        return true;
    }
    let mut found = false;
    let ghost whole_part = Reading { synchsafe: true, whole: true };
    let ghost whole_plain = Reading { synchsafe: false, whole: true };
    if flags >= 0x80 {
        let whole = resynchronise(tag, 10, end);
        assert(tag_body(tag@, true) == whole@);
        found = search_body(version, flags, true, &whole) || search_body(version, flags, false, &whole);
    }
    proof {
        assert(frames_of(tag@, part).len() >= 0 && frames_of(tag@, plain).len() >= 0);
        if found {
            assert(any_traktor_frame(tag@[3], frames_of(tag@, whole_part)) || any_traktor_frame(
                tag@[3],
                frames_of(tag@, whole_plain),
            ));
        }
        assert forall|reading: Reading|
            any_traktor_frame(tag@[3], #[trigger] frames_of(tag@, reading)) implies found by {
            assert(reading == part || reading == plain || reading == whole_part || reading
                == whole_plain);
        }
    }
    found
}

} // verus!
