//! Names of files.
use crate::text::{exact_text, lossy_text, mended};
use vstd::prelude::*;
use vstd::utf8::{decode_utf8, encode_utf8, valid_utf8};

verus! {

/// The path of a file, in encoded bytes. Both slashes separate its components, and it may begin
/// with a drive or a share.
#[derive(Clone, Debug, PartialEq)]
pub struct FilePath {
    /// The encoded path.
    pub bytes: Vec<u8>,
}

/// A byte that separates components; in a verbatim path only the backslash does.
pub open spec fn is_separator(b: u8, verbatim: bool) -> bool {
    b == 0x5c || (b == 0x2f && !verbatim)
}

/// A letter that names a drive.
pub open spec fn is_drive_letter(b: u8) -> bool {
    0x41 <= b <= 0x5a || 0x61 <= b <= 0x7a
}

/// Where the component that begins at a place ends.
pub open spec fn component_end(s: Seq<u8>, at: nat, verbatim: bool) -> nat
    decreases s.len() - at,
{
    if at >= s.len() || is_separator(s[at as int], verbatim) {
        at
    } else {
        component_end(s, at + 1, verbatim)
    }
}

/// Where a second component ends that follows the one at a place: that of a share follows that
/// of its server. Without one, the first is all there is.
pub open spec fn share_end(s: Seq<u8>, at: nat, verbatim: bool) -> nat {
    let server = component_end(s, at, verbatim);
    if component_end(s, server + 1, verbatim) > server + 1 {
        component_end(s, server + 1, verbatim)
    } else {
        server
    }
}

/// Two backslashes begin the path of a share or of a device.
pub open spec fn is_double(s: Seq<u8>) -> bool {
    s.len() >= 2 && s[0] == 0x5c && s[1] == 0x5c
}

/// The path begins with `\\?\` and is taken word for word.
pub open spec fn is_verbatim(s: Seq<u8>) -> bool {
    is_double(s) && s.len() >= 4 && s[2] == 0x3f && s[3] == 0x5c
}

/// The path begins with `\\?\UNC\`: a share, word for word.
pub open spec fn is_verbatim_share(s: Seq<u8>) -> bool {
    is_verbatim(s) && s.len() >= 8 && s[4] == 0x55 && s[5] == 0x4e && s[6] == 0x43 && s[7] == 0x5c
}

/// The path begins with `\\.\`: a device.
pub open spec fn is_device(s: Seq<u8>) -> bool {
    is_double(s) && s.len() >= 4 && s[2] == 0x2e && is_separator(s[3], false)
}

/// The path begins with a server's name and a share's.
pub open spec fn is_network_share(s: Seq<u8>) -> bool {
    is_double(s) && component_end(s, 2, false) > 2 && share_end(s, 2, false) > component_end(
        s,
        2,
        false,
    )
}

/// The length of what stands before the components of a path and names none of them: a drive,
/// as in `C:`, a share, as in `\\server\share`, or a device.
pub open spec fn prefix_len(s: Seq<u8>) -> nat {
    if is_verbatim_share(s) {
        share_end(s, 8, true)
    } else if is_verbatim(s) {
        component_end(s, 4, true)
    } else if is_device(s) {
        component_end(s, 4, false)
    } else if is_network_share(s) {
        share_end(s, 2, false)
    } else if s.len() >= 2 && is_drive_letter(s[0]) && s[1] == 0x3a {
        2
    } else {
        0
    }
}

/// Where the last component begins.
pub open spec fn last_begin(s: Seq<u8>, verbatim: bool) -> nat
    decreases s.len(),
{
    if s.len() == 0 || is_separator(s.last(), verbatim) {
        s.len()
    } else {
        last_begin(s.drop_last(), verbatim)
    }
}

/// One dot: the directory itself.
pub open spec fn one_dot() -> Seq<u8> {
    seq![0x2eu8]
}

/// Two dots: the directory above.
pub open spec fn two_dots() -> Seq<u8> {
    seq![0x2eu8, 0x2eu8]
}

/// The last name among some components. Separators at their end do not count, nor, unless the
/// path is verbatim, do single dots; where dots are last, or nothing is, there is none.
pub open spec fn last_name(s: Seq<u8>, verbatim: bool) -> Option<Seq<u8>>
    decreases s.len(),
    via last_name_decreases
{
    if s.len() == 0 {
        None
    } else if is_separator(s.last(), verbatim) {
        last_name(s.drop_last(), verbatim)
    } else {
        let begin = last_begin(s, verbatim) as int;
        let name = s.skip(begin);
        if name == one_dot() && !verbatim {
            last_name(s.take(begin), verbatim)
        } else if name == one_dot() || name == two_dots() {
            None
        } else {
            Some(name)
        }
    }
}

#[via_fn]
proof fn last_name_decreases(s: Seq<u8>, verbatim: bool) {
    if s.len() > 0 && !is_separator(s.last(), verbatim) {
        lemma_last_begin(s, verbatim);
        lemma_last_begin(s.drop_last(), verbatim);
    }
}

/// The last component begins within the path.
proof fn lemma_last_begin(s: Seq<u8>, verbatim: bool)
    ensures
        last_begin(s, verbatim) <= s.len(),
    decreases s.len(),
{
    if s.len() > 0 && !is_separator(s.last(), verbatim) {
        lemma_last_begin(s.drop_last(), verbatim);
    }
}

/// The name of the file that a path leads to.
pub open spec fn name_of(path: Seq<u8>) -> Option<Seq<u8>> {
    last_name(path.skip(prefix_len(path) as int), is_verbatim(path))
}

/// What precedes the last dot of a name, and what follows it. A dot at the start is part of
/// the name.
pub open spec fn split_name(name: Seq<u8>) -> (Seq<u8>, Option<Seq<u8>>) {
    let dot = last_dot(name);
    if dot <= 0 {
        (name, None)
    } else {
        (name.take(dot), Some(name.skip(dot + 1)))
    }
}

/// Where the last dot of a name is; minus one where there is none.
pub open spec fn last_dot(name: Seq<u8>) -> int
    decreases name.len(),
{
    if name.len() == 0 || name.last() == 0x2e {
        name.len() - 1
    } else {
        last_dot(name.drop_last())
    }
}

/// The name of a path without what follows its last dot.
pub open spec fn stem_of(path: Seq<u8>) -> Option<Seq<u8>> {
    match name_of(path) {
        Some(name) => Some(split_name(name).0),
        None => None,
    }
}

/// What follows the last dot of a path's name.
pub open spec fn extension_of(path: Seq<u8>) -> Option<Seq<u8>> {
    match name_of(path) {
        Some(name) => split_name(name).1,
        None => None,
    }
}

/// What is shown of a path's name, and of the whole path where it has none.
pub open spec fn shown_name(path: Seq<u8>) -> Seq<char> {
    match name_of(path) {
        Some(name) => mended(name),
        None => mended(path),
    }
}

/// The text that bytes encode.
pub open spec fn exact(bytes: Option<Seq<u8>>) -> Option<Seq<char>> {
    match bytes {
        Some(b) => if valid_utf8(b) {
            Some(decode_utf8(b))
        } else {
            None
        },
        None => None,
    }
}

/// A run of bytes.
fn copied(bytes: &[u8], from: usize, to: usize) -> (r: Vec<u8>)
    requires
        from <= to <= bytes@.len(),
    ensures
        r@ == bytes@.subrange(from as int, to as int),
{
    let mut out: Vec<u8> = Vec::new();
    let mut i = from;
    while i < to
        invariant
            from <= i <= to <= bytes@.len(),
            out@ == bytes@.subrange(from as int, i as int),
        decreases to - i,
    {
        out.push(bytes[i]);
        i = i + 1;
        assert(out@ =~= bytes@.subrange(from as int, i as int));
    }
    out
}

/// Whether a byte separates components.
fn separates(b: u8, verbatim: bool) -> (r: bool)
    ensures
        r == is_separator(b, verbatim),
{
    b == 0x5c || (b == 0x2f && !verbatim)
}

/// Where the component that begins at a place ends.
fn find_end(bytes: &[u8], at: usize, verbatim: bool) -> (r: usize)
    requires
        at <= bytes@.len(),
    ensures
        r == component_end(bytes@, at as nat, verbatim),
        at <= r <= bytes@.len(),
{
    let total = bytes.len();
    let mut end = at;
    while end < total && !separates(bytes[end], verbatim)
        invariant
            at <= end <= total == bytes@.len(),
            component_end(bytes@, at as nat, verbatim) == component_end(
                bytes@,
                end as nat,
                verbatim,
            ),
        decreases total - end,
    {
        end = end + 1;
    }
    end
}

/// Where the share ends whose server begins at a place.
fn find_share_end(bytes: &[u8], at: usize, verbatim: bool) -> (r: usize)
    requires
        at <= bytes@.len(),
    ensures
        r == share_end(bytes@, at as nat, verbatim),
        at <= r <= bytes@.len(),
{
    let server = find_end(bytes, at, verbatim);
    if server == bytes.len() {
        return server;
    }
    let share = find_end(bytes, server + 1, verbatim);
    if share > server + 1 {
        share
    } else {
        server
    }
}

/// Whether a path is taken word for word.
fn check_verbatim(bytes: &[u8]) -> (r: bool)
    ensures
        r == is_verbatim(bytes@),
{
    bytes.len() >= 4 && bytes[0] == 0x5c && bytes[1] == 0x5c && bytes[2] == 0x3f && bytes[3] == 0x5c
}

/// The length of what stands before the components of a path.
fn find_prefix(bytes: &[u8]) -> (r: usize)
    ensures
        r == prefix_len(bytes@),
        r <= bytes@.len(),
{
    let total = bytes.len();
    if check_verbatim(bytes) {
        if total >= 8 && bytes[4] == 0x55 && bytes[5] == 0x4e && bytes[6] == 0x43 && bytes[7]
            == 0x5c {
            return find_share_end(bytes, 8, true);
        }
        return find_end(bytes, 4, true);
    }
    if total >= 2 && bytes[0] == 0x5c && bytes[1] == 0x5c {
        if total >= 4 && bytes[2] == 0x2e && separates(bytes[3], false) {
            return find_end(bytes, 4, false);
        }
        let server = find_end(bytes, 2, false);
        let share = find_share_end(bytes, 2, false);
        return if server > 2 && share > server {
            share
        } else {
            0
        };
    }
    if total >= 2 && ((0x41 <= bytes[0] && bytes[0] <= 0x5a) || (0x61 <= bytes[0] && bytes[0]
        <= 0x7a)) && bytes[1] == 0x3a {
        return 2;
    }
    0
}

/// Where the component that ends at `end` begins.
fn find_begin(bytes: &[u8], end: usize, verbatim: bool) -> (r: usize)
    requires
        0 < end <= bytes@.len(),
        !is_separator(bytes@[end - 1], verbatim),
    ensures
        r < end,
        r == last_begin(bytes@.take(end as int), verbatim),
{
    let mut begin = end;
    while begin > 0 && !separates(bytes[begin - 1], verbatim)
        invariant
            begin <= end <= bytes@.len(),
            last_begin(bytes@.take(end as int), verbatim) == last_begin(
                bytes@.take(begin as int),
                verbatim,
            ),
        decreases begin,
    {
        proof {
            let head = bytes@.take(begin as int);
            assert(head.last() == bytes@[begin - 1]);
            assert(head.drop_last() =~= bytes@.take(begin - 1));
        }
        begin = begin - 1;
    }
    proof {
        let head = bytes@.take(begin as int);
        if begin > 0 {
            assert(head.last() == bytes@[begin - 1]);
        }
        if begin == end {
            assert(false);
        }
    }
    begin
}

/// Where the last name among some components lies.
fn find_name(bytes: &[u8], verbatim: bool) -> (r: Option<(usize, usize)>)
    ensures
        r is Some <==> last_name(bytes@, verbatim) is Some,
        r matches Some((from, to)) ==> from < to <= bytes@.len() && last_name(bytes@, verbatim)
            == Some(bytes@.subrange(from as int, to as int)),
{
    let total = bytes.len();
    let mut end: usize = total;
    assert(bytes@.take(total as int) =~= bytes@);
    while end > 0
        invariant
            end <= total == bytes@.len(),
            last_name(bytes@, verbatim) == last_name(bytes@.take(end as int), verbatim),
        decreases end,
    {
        let ghost head = bytes@.take(end as int);
        assert(head.last() == bytes@[end - 1]);
        let last = bytes[end - 1];
        if separates(last, verbatim) {
            assert(head.drop_last() =~= bytes@.take(end - 1));
            end = end - 1;
        } else {
            let begin = find_begin(bytes, end, verbatim);
            let ghost name = head.skip(begin as int);
            assert(name =~= bytes@.subrange(begin as int, end as int));
            if end - begin == 1 && last == 0x2e {
                assert(name =~= one_dot());
                if verbatim {
                    return None;
                }
                assert(head.take(begin as int) =~= bytes@.take(begin as int));
                end = begin;
            } else if end - begin == 2 && last == 0x2e && bytes[begin] == 0x2e {
                assert(name =~= two_dots());
                return None;
            } else {
                assert(name != one_dot() && name != two_dots()) by {
                    if name == one_dot() {
                        assert(name.len() == 1 && name[0] == 0x2e);
                    }
                    if name == two_dots() {
                        assert(name.len() == 2 && name[0] == 0x2e && name[1] == 0x2e);
                    }
                }
                return Some((begin, end));
            }
        }
    }
    None
}

/// Where the last dot of a name lies, if it is not at the name's start.
fn find_dot(name: &[u8]) -> (r: Option<usize>)
    ensures
        match r {
            Some(at) => 0 < at < name@.len() && at == last_dot(name@),
            None => last_dot(name@) <= 0,
        },
{
    let mut at = name.len();
    assert(name@.take(at as int) =~= name@);
    while at > 0
        invariant
            at <= name@.len(),
            last_dot(name@) == last_dot(name@.take(at as int)),
        decreases at,
    {
        let ghost head = name@.take(at as int);
        assert(head.last() == name@[at - 1]);
        at = at - 1;
        if name[at] == 0x2e {
            if at == 0 {
                return None;
            }
            return Some(at);
        }
        assert(head.drop_last() =~= name@.take(at as int));
    }
    None
}

impl FilePath {
    /// The encoded path.
    pub open spec fn view(self) -> Seq<u8> {
        self.bytes@
    }

    /// A path from its encoded bytes.
    pub fn from_bytes(bytes: Vec<u8>) -> (r: FilePath)
        ensures
            r@ == bytes@,
    {
        FilePath { bytes }
    }

    /// The path that a text spells.
    pub fn from_text(text: &str) -> (r: FilePath)
        ensures
            r@ == encode_utf8(text@),
    {
        let bytes = text.as_bytes();
        let total = bytes.len();
        let copy = copied(bytes, 0, total);
        assert(copy@ =~= bytes@);
        FilePath { bytes: copy }
    }

    /// The same path once more.
    pub fn duplicate(&self) -> (r: FilePath)
        ensures
            r@ == self@,
    {
        let copy = copied(&self.bytes, 0, self.bytes.len());
        assert(copy@ =~= self.bytes@);
        FilePath { bytes: copy }
    }

    /// Whether the path is empty.
    pub fn is_empty(&self) -> (r: bool)
        ensures
            r <==> self@.len() == 0,
    {
        self.bytes.len() == 0
    }

    /// The name of the file that the path leads to.
    fn name(&self) -> (r: Option<Vec<u8>>)
        ensures
            r is Some <==> name_of(self@) is Some,
            r matches Some(name) ==> name_of(self@) == Some(name@),
    {
        let total = self.bytes.len();
        let prefix = find_prefix(&self.bytes);
        let components = copied(&self.bytes, prefix, total);
        assert(components@ =~= self@.skip(prefix as int));
        match find_name(&components, check_verbatim(&self.bytes)) {
            Some((from, to)) => Some(copied(&components, from, to)),
            None => None,
        }
    }

    /// The name without its extension, if it is text.
    pub fn file_stem(&self) -> (r: Option<String>)
        ensures
            r is Some <==> exact(stem_of(self@)) is Some,
            r matches Some(text) ==> exact(stem_of(self@)) == Some(text@),
    {
        match self.name() {
            Some(name) => {
                let stem = match find_dot(&name) {
                    Some(at) => {
                        let stem = copied(&name, 0, at);
                        assert(stem@ =~= name@.take(at as int));
                        stem
                    },
                    None => name,
                };
                assert(stem_of(self@) == Some(stem@));
                exact_text(&stem)
            },
            None => None,
        }
    }

    /// What follows the last dot of the name, if it is text.
    pub fn extension(&self) -> (r: Option<String>)
        ensures
            r is Some <==> exact(extension_of(self@)) is Some,
            r matches Some(text) ==> exact(extension_of(self@)) == Some(text@),
    {
        match self.name() {
            Some(name) => match find_dot(&name) {
                Some(at) => {
                    let total = name.len();
                    let extension = copied(&name, at + 1, total);
                    assert(extension@ =~= name@.skip(at + 1));
                    assert(extension_of(self@) == Some(extension@));
                    exact_text(&extension)
                },
                None => None,
            },
            None => None,
        }
    }

    /// What is shown of the name, and of the whole path where it has none.
    pub fn display_name(&self) -> (r: String)
        ensures
            r@ == shown_name(self@),
    {
        match self.name() {
            Some(name) => lossy_text(&name),
            None => lossy_text(&self.bytes),
        }
    }

    /// What is shown of the path: the path itself, where it is text.
    pub fn display(&self) -> (r: String)
        ensures
            r@ == mended(self@),
            valid_utf8(self@) ==> r@ == decode_utf8(self@),
    {
        lossy_text(&self.bytes)
    }
}

} // verus!
