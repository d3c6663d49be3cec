//! What names of files are.
use crate::path::{
    extension_of, is_drive_letter, is_separator, is_verbatim, last_begin, last_dot, last_name,
    name_of, one_dot, prefix_len, split_name, stem_of, two_dots,
};
use crate::metadata::title_of;
use crate::text::{is_white, law_trimming_takes_white_space_only};
use vstd::prelude::*;
use vstd::utf8::{encode_utf8, encode_utf8_decode_utf8, encode_utf8_valid_utf8};

verus! {

/// A run of bytes without a separator.
pub open spec fn is_unbroken(s: Seq<u8>, verbatim: bool) -> bool {
    forall|i: int| 0 <= i < s.len() ==> !is_separator(#[trigger] s[i], verbatim)
}

/// A component that names something: not nothing, not a directory's dots.
pub open spec fn is_name(s: Seq<u8>, verbatim: bool) -> bool {
    &&& s.len() > 0
    &&& is_unbroken(s, verbatim)
    &&& s != one_dot()
    &&& s != two_dots()
}

/// Where the last dot is: no dot follows it.
proof fn lemma_last_dot(name: Seq<u8>)
    ensures
        -1 <= last_dot(name) < name.len(),
        last_dot(name) >= 0 ==> name[last_dot(name)] == 0x2e,
        forall|i: int| last_dot(name) < i < name.len() ==> #[trigger] name[i] != 0x2e,
    decreases name.len(),
{
    if name.len() > 0 && name.last() != 0x2e {
        let rest = name.drop_last();
        lemma_last_dot(rest);
        assert forall|i: int| last_dot(name) < i < name.len() implies #[trigger] name[i] != 0x2e by {
            if i < rest.len() {
                assert(rest[i] == name[i]);
            }
        }
    }
}

/// A name is its stem, a dot and its extension, and the extension has no dot; a name without an
/// extension is its stem, with no dot after its first byte. A stem is never empty where the name is
/// not.
pub proof fn law_name_splits_at_its_last_dot(name: Seq<u8>)
    ensures
        match split_name(name) {
            (stem, Some(extension)) => {
                &&& name == stem + one_dot() + extension
                &&& stem.len() > 0
                &&& !extension.contains(0x2e)
            },
            (stem, None) => {
                &&& stem == name
                &&& forall|i: int| 1 <= i < name.len() ==> #[trigger] name[i] != 0x2e
            },
        },
{
    lemma_last_dot(name);
    let dot = last_dot(name);
    if dot > 0 {
        assert(name =~= name.take(dot) + one_dot() + name.skip(dot + 1));
    }
}

/// The last component begins after the last separator.
proof fn lemma_last_begin(s: Seq<u8>, verbatim: bool)
    ensures
        last_begin(s, verbatim) <= s.len(),
        last_begin(s, verbatim) > 0 ==> is_separator(s[last_begin(s, verbatim) - 1], verbatim),
        is_unbroken(s.skip(last_begin(s, verbatim) as int), verbatim),
    decreases s.len(),
{
    let begin = last_begin(s, verbatim) as int;
    if s.len() > 0 && !is_separator(s.last(), verbatim) {
        let rest = s.drop_last();
        lemma_last_begin(rest, verbatim);
        let (tail, shorter) = (s.skip(begin), rest.skip(begin));
        assert forall|i: int| 0 <= i < tail.len() implies !is_separator(#[trigger] tail[i], verbatim)
            by {
            if begin + i < rest.len() {
                assert(shorter[i] == tail[i]);
            }
        }
    }
}

/// A last component behind a separator, or alone.
proof fn lemma_begin_of(directory: Seq<u8>, name: Seq<u8>, verbatim: bool)
    requires
        directory.len() == 0 || is_separator(directory.last(), verbatim),
        is_unbroken(name, verbatim),
    ensures
        last_begin(directory + name, verbatim) == directory.len(),
    decreases name.len(),
{
    let s = directory + name;
    if name.len() == 0 {
        assert(s =~= directory);
    } else {
        let shorter = name.drop_last();
        assert(is_unbroken(shorter, verbatim)) by {
            assert forall|i: int| 0 <= i < shorter.len() implies !is_separator(
                #[trigger] shorter[i],
                verbatim,
            ) by {
                assert(shorter[i] == name[i]);
            }
        }
        lemma_begin_of(directory, shorter, verbatim);
        assert(s.drop_last() =~= directory + shorter);
        assert(s.last() == name[name.len() - 1]);
    }
}

/// The name of the file that components lead to is one of them: a name, behind a separator or at
/// the start, with nothing but separators and dots after it.
pub proof fn law_last_name_is_a_component(s: Seq<u8>, verbatim: bool)
    ensures
        last_name(s, verbatim) matches Some(name) ==> is_name(name, verbatim) && exists|begin: int|
            0 <= begin && begin + name.len() <= s.len() && name == #[trigger] s.subrange(
                begin,
                begin + name.len(),
            ) && (begin == 0 || is_separator(s[begin - 1], verbatim)) && forall|i: int|
                begin + name.len() <= i < s.len() ==> is_separator(#[trigger] s[i], verbatim)
                    || s[i] == 0x2e,
    decreases s.len(),
{
    if s.len() > 0 {
        lemma_last_begin(s, verbatim);
        let begin = last_begin(s, verbatim) as int;
        let tail = s.skip(begin);
        if is_separator(s.last(), verbatim) {
            let rest = s.drop_last();
            law_last_name_is_a_component(rest, verbatim);
            lemma_longer(s, rest, verbatim);
        } else {
            lemma_last_begin(s.drop_last(), verbatim);
            assert(begin < s.len());
            if tail == one_dot() && !verbatim {
                let rest = s.take(begin);
                law_last_name_is_a_component(rest, verbatim);
                assert(s[begin] == tail[0]);
                lemma_longer(s, rest, verbatim);
            } else if tail != one_dot() && tail != two_dots() {
                assert(tail =~= s.subrange(begin, begin + tail.len()));
            }
        }
    }
}

/// What holds of the name among some components holds of more, where only separators and dots
/// come after them.
proof fn lemma_longer(s: Seq<u8>, rest: Seq<u8>, verbatim: bool)
    requires
        rest.len() <= s.len(),
        rest == s.take(rest.len() as int),
        last_name(s, verbatim) == last_name(rest, verbatim),
        forall|i: int|
            rest.len() <= i < s.len() ==> is_separator(#[trigger] s[i], verbatim) || s[i] == 0x2e,
        last_name(rest, verbatim) matches Some(name) ==> exists|begin: int|
            0 <= begin && begin + name.len() <= rest.len() && name == #[trigger] rest.subrange(
                begin,
                begin + name.len(),
            ) && (begin == 0 || is_separator(rest[begin - 1], verbatim)) && forall|i: int|
                begin + name.len() <= i < rest.len() ==> is_separator(#[trigger] rest[i], verbatim)
                    || rest[i] == 0x2e,
    ensures
        last_name(s, verbatim) matches Some(name) ==> exists|begin: int|
            0 <= begin && begin + name.len() <= s.len() && name == #[trigger] s.subrange(
                begin,
                begin + name.len(),
            ) && (begin == 0 || is_separator(s[begin - 1], verbatim)) && forall|i: int|
                begin + name.len() <= i < s.len() ==> is_separator(#[trigger] s[i], verbatim)
                    || s[i] == 0x2e,
{
    if let Some(name) = last_name(s, verbatim) {
        let begin = choose|begin: int|
            0 <= begin && begin + name.len() <= rest.len() && name == #[trigger] rest.subrange(
                begin,
                begin + name.len(),
            ) && (begin == 0 || is_separator(rest[begin - 1], verbatim)) && forall|i: int|
                begin + name.len() <= i < rest.len() ==> is_separator(#[trigger] rest[i], verbatim)
                    || rest[i] == 0x2e;
        assert(s.subrange(begin, begin + name.len()) =~= rest.subrange(begin, begin + name.len()));
        assert forall|i: int| begin + name.len() <= i < s.len() implies is_separator(
            #[trigger] s[i],
            verbatim,
        ) || s[i] == 0x2e by {
            if i < rest.len() {
                assert(rest[i] == s[i]);
            }
        }
        if begin > 0 {
            assert(rest[begin - 1] == s[begin - 1]);
        }
    }
}

/// A name that is alone or stands behind a separator is found, whatever the directory, and
/// separators after it do not count.
pub proof fn law_last_component_is_the_name(
    directory: Seq<u8>,
    name: Seq<u8>,
    separator: u8,
    verbatim: bool,
)
    requires
        directory.len() == 0 || is_separator(directory.last(), verbatim),
        is_name(name, verbatim),
        is_separator(separator, verbatim),
    ensures
        last_name(directory + name, verbatim) == Some(name),
        last_name((directory + name).push(separator), verbatim) == Some(name),
        last_name(directory + two_dots(), verbatim) is None,
{
    let s = directory + name;
    lemma_begin_of(directory, name, verbatim);
    assert(s.last() == name[name.len() - 1]);
    assert(s.skip(directory.len() as int) =~= name);
    let longer = s.push(separator);
    assert(longer.last() == separator);
    assert(longer.drop_last() =~= s);
    let dots = directory + two_dots();
    assert(is_unbroken(two_dots(), verbatim));
    lemma_begin_of(directory, two_dots(), verbatim);
    assert(dots.last() == 0x2e);
    assert(dots.skip(directory.len() as int) =~= two_dots());
    assert(two_dots().len() == 2 && one_dot().len() == 1);
}

/// A drive is no part of a name, and a path that begins neither with a drive nor with two
/// backslashes is made of its components alone.
pub proof fn law_drives_are_no_names(path: Seq<u8>)
    ensures
        path.len() >= 2 && is_drive_letter(path[0]) && path[1] == 0x3a ==> name_of(path)
            == last_name(path.skip(2), false),
        !(path.len() >= 2 && is_drive_letter(path[0]) && path[1] == 0x3a) && !(path.len() >= 2
            && path[0] == 0x5c && path[1] == 0x5c) ==> name_of(path) == last_name(path, false),
{
    assert(path.skip(0) =~= path);
}

/// A path has a stem exactly where it has a name, and the stem and the extension are those of the
/// name.
pub proof fn law_stem_and_extension_are_of_the_name(path: Seq<u8>)
    ensures
        stem_of(path) is Some <==> name_of(path) is Some,
        name_of(path) matches Some(name) ==> stem_of(path) == Some(split_name(name).0)
            && extension_of(path) == split_name(name).1,
        name_of(path) is None ==> extension_of(path) is None,
        stem_of(path) matches Some(stem) ==> stem.len() > 0,
{
    if let Some(name) = name_of(path) {
        law_name_splits_at_its_last_dot(name);
        law_last_name_is_a_component(path.skip(prefix_len(path) as int), is_verbatim(path));
    }
}

/// A file that only its path is known of is titled by its name, up to the last dot of that, where
/// that is text and not all white space.
#[verifier::rlimit(40)]
pub proof fn law_title_is_the_name(directory: Seq<u8>, stem: Seq<char>, extension: Seq<u8>)
    requires
        directory.len() == 0 || is_separator(directory.last(), false),
        is_name(encode_utf8(stem) + one_dot() + extension, false),
        !extension.contains(0x2e),
        stem.len() > 0,
        !is_white(stem[0]),
        prefix_len(directory + (encode_utf8(stem) + one_dot() + extension)) == 0,
        !is_verbatim(directory + (encode_utf8(stem) + one_dot() + extension)),
        encode_utf8(stem).len() > 0,
    ensures
        title_of(directory + (encode_utf8(stem) + one_dot() + extension)) == stem,
        extension_of(directory + (encode_utf8(stem) + one_dot() + extension)) == Some(extension),
{
    let bytes = encode_utf8(stem);
    let name = bytes + one_dot() + extension;
    let path = directory + name;
    law_last_component_is_the_name(directory, name, 0x2f, false);
    assert(path.skip(0) =~= path);
    assert(name_of(path) == Some(name));
    lemma_last_dot(name);
    let dot = last_dot(name);
    assert(name[bytes.len() as int] == 0x2e);
    if dot > bytes.len() {
        assert(name[dot] == extension[dot - bytes.len() - 1]);
        assert(extension.contains(0x2e));
    }
    assert(dot == bytes.len());
    assert(name.take(dot) =~= bytes);
    assert(name.skip(dot + 1) =~= extension);
    encode_utf8_valid_utf8(stem);
    encode_utf8_decode_utf8(stem);
    law_trimming_takes_white_space_only(stem);
}

} // verus!
