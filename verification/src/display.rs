//! What is shown as text, and the sizes of what is shown.
use crate::bounds::{lemma_points_order, lemma_representable};
use crate::closeness::{
    about, at_most_about, lemma_about_cancel, lemma_about_chain, lemma_about_scale,
    lemma_at_most_cancel, lemma_at_most_chain, lemma_at_most_exact, lemma_one_is_normal,
    lemma_product_about, lemma_quotient_about,
};
use crate::frequencies::lemma_to_word;
use crate::ieee::{
    leading, lemma_compose, lemma_leading, lemma_power_magnitude, lemma_rounded_at_least,
    lemma_rounded_at_most, lemma_rounded_is_nearest, one_in_points, points, rounded, SINGLE,
};
use crate::levels::size;
use crate::metadata::TrackInfo;
use crate::parts::lemma_zero_points;
use crate::path::{shown_name, FilePath};
use crate::seeking::lemma_round_to_word;
use crate::single::{lemma_clamp_range, lemma_level_order, Single};
use crate::text::{
    append_decimal, append_two_digits, decimal, digit, law_decimal_spells_the_number, mended,
    spelled,
};
use crate::time::Duration;
use vstd::arithmetic::power2::{
    lemma_pow2_adds, lemma_pow2_pos, lemma_pow2_strictly_increases, pow2,
};
use vstd::prelude::*;

verus! {

/// A text, or a dash where there is none.
pub fn optional_text(value: &Option<String>) -> (r: &str)
    ensures
        r@ == match *value {
            Some(text) => text@,
            None => "-"@,
        },
{
    match value {
        Some(text) => text.as_str(),
        None => "-",
    }
}

/// What is shown of a path.
pub fn display_path(path: &FilePath) -> (r: String)
    ensures
        r@ == mended(path@),
{
    path.display()
}

/// Minutes, and seconds in two digits.
pub open spec fn clock(total: nat) -> Seq<char> {
    decimal(total / 60) + ":"@ + seq![digit(total % 60 / 10), digit(total % 60 % 10)]
}

/// A length of time as minutes and seconds.
pub fn format_duration(duration: Duration) -> (r: String)
    ensures
        r@ == clock(duration.as_seconds().max(Single::zero()).round_to_word() as nat),
{
    format_duration_secs(duration.as_seconds())
}

/// A number of seconds as minutes and seconds, to the nearest second; nothing below zero.
pub fn format_duration_secs(seconds: Single) -> (r: String)
    ensures
        r@ == clock(seconds.max(Single::zero()).round_to_word() as nat),
        tells_the_nearest_second(r@, seconds),
{
    let total = seconds.max(Single::zero()).round_to_word();
    proof {
        law_clock_tells_the_nearest_second(seconds);
    }
    let mut text = String::new();
    append_decimal(&mut text, total / 60);
    text.append(":");
    append_two_digits(&mut text, total % 60);
    assert(text@ =~= clock(total as nat));
    text
}

/// Bits of 1000: hertz in a kilohertz.
pub const THOUSAND: u32 = 0x447a_0000;

/// The largest number that a label shows.
pub open spec fn label_number(n: u64) -> nat {
    if n < 0xffff_ffff {
        n as nat
    } else {
        0xffff_ffff
    }
}

/// The label of a frequency: in hertz, and from a thousand up in whole kilohertz.
pub open spec fn band_label(frequency: Single) -> Seq<char> {
    let thousand = Single { bits: THOUSAND };
    if thousand.at_most(frequency) {
        decimal(label_number(frequency.over(thousand).to_word())) + "k"@
    } else {
        decimal(label_number(frequency.to_word()))
    }
}

/// The label of a frequency.
pub fn format_band(frequency: Single) -> (r: String)
    ensures
        r@ == band_label(frequency),
{
    let thousand = Single::from_bits(THOUSAND);
    let mut text = String::new();
    if thousand.at_most(frequency) {
        append_decimal(&mut text, held_to_label(frequency.over(thousand).to_word()));
        text.append("k");
    } else {
        append_decimal(&mut text, held_to_label(frequency.to_word()));
    }
    assert(text@ =~= band_label(frequency));
    text
}

/// Holds a number to the largest that a label shows.
fn held_to_label(n: u64) -> (r: u64)
    ensures
        r == label_number(n),
{
    if n < 0xffff_ffff {
        n
    } else {
        0xffff_ffff
    }
}

/// The label of a bitrate.
pub fn format_bitrate(bitrate: u32) -> (r: String)
    ensures
        r@ == decimal(bitrate as nat) + " kbps"@,
{
    let mut text = String::new();
    append_decimal(&mut text, bitrate as u64);
    text.append(" kbps");
    assert(text@ =~= decimal(bitrate as nat) + " kbps"@);
    text
}

/// The status while a file loads.
pub fn loading_status(path: &FilePath) -> (r: String)
    ensures
        r@ == "Loading "@ + shown_name(path@) + "\u{2026}"@,
{
    let mut text = "Loading ".to_owned();
    text.append(path.display_name().as_str());
    text.append("\u{2026}");
    text
}

/// The status before any file is loaded.
pub fn first_status() -> (r: String)
    ensures
        r@ == "Open or drop one audio file."@,
{
    "Open or drop one audio file.".to_owned()
}

/// The label that tells whether Traktor has analyzed a track.
pub fn traktor_label(traktor_analyzed: bool) -> (r: &'static str)
    ensures
        r@ == if traktor_analyzed { "Traktor analyzed"@ } else { "Not Traktor analyzed"@ },
{
    if traktor_analyzed {
        "Traktor analyzed"
    } else {
        "Not Traktor analyzed"
    }
}

/// A line of what is known of a track: a label and its value.
#[derive(Debug)]
pub struct InfoRow {
    /// The label.
    pub label: String,
    /// The value.
    pub value: String,
}

/// Labels and values as text.
pub open spec fn row_text(row: InfoRow) -> (Seq<char>, Seq<char>) {
    (row.label@, row.value@)
}

/// A row for a value that may be there.
pub open spec fn optional_row(label: Seq<char>, value: Option<Seq<char>>) -> Seq<
    (Seq<char>, Seq<char>),
> {
    match value {
        Some(text) => seq![(label, text)],
        None => Seq::empty(),
    }
}

/// What is shown of a track: title, artist, length and file always, the rest where it is known.
pub open spec fn info_rows(info: TrackInfo, duration: Duration) -> Seq<(Seq<char>, Seq<char>)> {
    let text = |value: Option<String>| crate::metadata::text_of(value);
    seq![
        ("Title"@, info.title@),
        (
            "Artist"@,
            match info.artist {
                Some(artist) => artist@,
                None => "-"@,
            },
        ),
    ] + optional_row("Genre"@, text(info.genre)) + optional_row("BPM"@, text(info.bpm))
        + optional_row("Key"@, text(info.key)) + seq![
        (
            "Duration"@,
            clock(duration.as_seconds().max(Single::zero()).round_to_word() as nat),
        ),
    ] + optional_row(
        "Bitrate"@,
        match info.bitrate {
            Some(bitrate) => Some(decimal(bitrate as nat) + " kbps"@),
            None => None,
        },
    ) + optional_row(
        "Analyzed"@,
        if info.traktor_analyzed {
            Some("Traktor"@)
        } else {
            None
        },
    ) + seq![("File"@, mended(info.path@))]
}

/// The rows as text.
pub open spec fn rows_text(rows: Seq<InfoRow>) -> Seq<(Seq<char>, Seq<char>)> {
    rows.map_values(|row: InfoRow| row_text(row))
}

/// Adds a row.
fn push_row(rows: &mut Vec<InfoRow>, label: &str, value: &str)
    ensures
        rows_text(final(rows)@) == rows_text(old(rows)@) + seq![(label@, value@)],
{
    rows.push(InfoRow { label: label.to_owned(), value: value.to_owned() });
    assert(rows_text(rows@) =~= rows_text(old(rows)@) + seq![(label@, value@)]);
}

/// Adds a row for a value, if it is there.
fn push_optional_row(rows: &mut Vec<InfoRow>, label: &str, value: &Option<String>)
    ensures
        rows_text(final(rows)@) == rows_text(old(rows)@) + optional_row(
            label@,
            crate::metadata::text_of(*value),
        ),
{
    if let Some(text) = value {
        push_row(rows, label, text.as_str());
    } else {
        assert(rows_text(rows@) =~= rows_text(rows@) + Seq::<(Seq<char>, Seq<char>)>::empty());
    }
}

/// What is shown of a track.
pub fn show_track_info(info: &TrackInfo, duration: Duration) -> (r: Vec<InfoRow>)
    ensures
        rows_text(r@) == info_rows(*info, duration),
{
    let mut rows: Vec<InfoRow> = Vec::new();
    push_row(&mut rows, "Title", info.title.as_str());
    push_row(&mut rows, "Artist", optional_text(&info.artist));
    push_optional_row(&mut rows, "Genre", &info.genre);
    push_optional_row(&mut rows, "BPM", &info.bpm);
    push_optional_row(&mut rows, "Key", &info.key);
    push_row(&mut rows, "Duration", format_duration(duration).as_str());
    let bitrate = match info.bitrate {
        Some(bitrate) => Some(format_bitrate(bitrate)),
        None => None,
    };
    push_optional_row(&mut rows, "Bitrate", &bitrate);
    let analyzed = if info.traktor_analyzed {
        Some("Traktor".to_owned())
    } else {
        None
    };
    push_optional_row(&mut rows, "Analyzed", &analyzed);
    push_row(&mut rows, "File", display_path(&info.path).as_str());
    assert(rows_text(rows@) =~= info_rows(*info, duration));
    rows
}

/// A size on the screen.
#[derive(Clone, Copy, Debug)]
pub struct Size {
    /// From left to right.
    pub width: Single,
    /// From top to bottom.
    pub height: Single,
}

/// A size within bounds, in the shape of the source; the bounds where the source has no shape.
pub open spec fn fitted(source: Size, bounds: Size) -> Size {
    if source.width.at_most(Single::zero()) || source.height.at_most(Single::zero()) {
        bounds
    } else {
        let scale = bounds.width.over(source.width).min(bounds.height.over(source.height));
        Size { width: source.width.times(scale), height: source.height.times(scale) }
    }
}

/// Fits a size into bounds without changing its shape.
pub fn fit_size(source: Size, bounds: Size) -> (r: Size)
    ensures
        r == fitted(source, bounds),
{
    let zero = Single::zero();
    if source.width.at_most(zero) || source.height.at_most(zero) {
        return bounds;
    }
    let scale = bounds.width.over(source.width).min(bounds.height.over(source.height));
    Size { width: source.width.times(scale), height: source.height.times(scale) }
}

/// Bits of 180: the smallest side of the cover picture.
pub const SMALLEST_COVER: u32 = 0x4334_0000;

/// Bits of 420: the largest side of the cover picture.
pub const LARGEST_COVER: u32 = 0x43d2_0000;

/// The side of the square that the cover picture is shown in.
pub fn cover_side(available: Size) -> (r: Single)
    ensures
        r == available.width.min(available.height).clamp(
            Single { bits: SMALLEST_COVER },
            Single { bits: LARGEST_COVER },
        ),
        !r.is_nan() ==> (Single { bits: SMALLEST_COVER }).at_most(r) && r.at_most(
            Single { bits: LARGEST_COVER },
        ),
        (Single { bits: SMALLEST_COVER }).at_most(available.width) && (Single {
            bits: SMALLEST_COVER,
        }).at_most(available.height) ==> r.at_most(available.width) && r.at_most(available.height),
        !available.width.is_nan() && !available.height.is_nan() ==> r == available.width || r
            == available.height || r == (Single { bits: SMALLEST_COVER }) || r == (Single {
            bits: LARGEST_COVER,
        }),
{
    let smallest = Single::from_bits(SMALLEST_COVER);
    let largest = Single::from_bits(LARGEST_COVER);
    proof {
        lemma_level_order(smallest, largest);
        reveal(Single::spec_at_most);
        reveal(Single::spec_less);
    }
    available.width.min(available.height).clamp(smallest, largest)
}

/// Bits of 0.1: the longest step of the animation in seconds.
pub const LONGEST_STEP: u32 = 0x3dcc_cccd;

/// The step of the animation: the time since the last frame, but not more than a tenth of a
/// second.
pub fn animation_step(dt: Single) -> (r: Single)
    ensures
        r == dt.clamp(Single::zero(), Single { bits: LONGEST_STEP }),
        !dt.is_nan() ==> Single::zero().at_most(r) && r.at_most(Single { bits: LONGEST_STEP }),
        Single::zero().at_most(dt) && dt.at_most(Single { bits: LONGEST_STEP }) ==> r == dt,
{
    let longest = Single::from_bits(LONGEST_STEP);
    proof {
        lemma_level_order(Single::zero(), longest);
        if !dt.is_nan() {
            lemma_clamp_range(dt, Single::zero(), longest);
        }
        reveal(Single::spec_at_most);
    }
    dt.clamp(Single::zero(), longest)
}

/// What is in one of two parts is in both together.
proof fn lemma_in_part<A>(a: Seq<A>, b: Seq<A>, x: A)
    ensures
        a.contains(x) || b.contains(x) ==> (a + b).contains(x),
{
    let both = a + b;
    if a.contains(x) {
        let i = choose|i: int| 0 <= i < a.len() && a[i] == x;
        assert(both[i] == x);
    } else if b.contains(x) {
        let i = choose|i: int| 0 <= i < b.len() && b[i] == x;
        assert(both[a.len() + i] == x);
    }
}

/// Everything that is known of a track is shown under its own label: title, artist, length and
/// file always, a dash for an artist that is not known, and the rest where it is known.
pub proof fn law_what_is_known_is_shown(info: TrackInfo, duration: Duration)
    ensures
        ({
            let rows = info_rows(info, duration);
            let time = clock(duration.as_seconds().max(Single::zero()).round_to_word() as nat);
            &&& rows.contains(("Title"@, info.title@))
            &&& info.artist matches Some(artist) ==> rows.contains(("Artist"@, artist@))
            &&& info.artist is None ==> rows.contains(("Artist"@, "-"@))
            &&& info.genre matches Some(genre) ==> rows.contains(("Genre"@, genre@))
            &&& info.bpm matches Some(bpm) ==> rows.contains(("BPM"@, bpm@))
            &&& info.key matches Some(key) ==> rows.contains(("Key"@, key@))
            &&& rows.contains(("Duration"@, time))
            &&& info.bitrate matches Some(bitrate) ==> rows.contains(
                ("Bitrate"@, decimal(bitrate as nat) + " kbps"@),
            )
            &&& info.traktor_analyzed ==> rows.contains(("Analyzed"@, "Traktor"@))
            &&& rows.contains(("File"@, mended(info.path@)))
            &&& rows.len() == 4 + (if info.genre is Some { 1int } else { 0 }) + (if info.bpm is Some {
                1int
            } else {
                0
            }) + (if info.key is Some { 1int } else { 0 }) + (if info.bitrate is Some {
                1int
            } else {
                0
            }) + (if info.traktor_analyzed { 1int } else { 0 })
        }),
{
    let text = |value: Option<String>| crate::metadata::text_of(value);
    let time = clock(duration.as_seconds().max(Single::zero()).round_to_word() as nat);
    let artist = match info.artist {
        Some(artist) => artist@,
        None => "-"@,
    };
    let rate = match info.bitrate {
        Some(bitrate) => Some(decimal(bitrate as nat) + " kbps"@),
        None => None,
    };
    let head = seq![("Title"@, info.title@), ("Artist"@, artist)];
    let genre = optional_row("Genre"@, text(info.genre));
    let bpm = optional_row("BPM"@, text(info.bpm));
    let key = optional_row("Key"@, text(info.key));
    let length = seq![("Duration"@, time)];
    let bitrate = optional_row("Bitrate"@, rate);
    let analyzed = optional_row(
        "Analyzed"@,
        if info.traktor_analyzed {
            Some("Traktor"@)
        } else {
            None
        },
    );
    let file = seq![("File"@, mended(info.path@))];
    assert(info_rows(info, duration) =~= head + genre + bpm + key + length + bitrate + analyzed
        + file);
    assert(head[0] == ("Title"@, info.title@) && head[1] == ("Artist"@, artist));
    lemma_row_is_shown(head, genre, bpm, key, length, bitrate, analyzed, file, head[0]);
    lemma_row_is_shown(head, genre, bpm, key, length, bitrate, analyzed, file, head[1]);
    lemma_row_is_shown(head, genre, bpm, key, length, bitrate, analyzed, file, length[0]);
    lemma_row_is_shown(head, genre, bpm, key, length, bitrate, analyzed, file, file[0]);
    if info.genre is Some {
        lemma_row_is_shown(head, genre, bpm, key, length, bitrate, analyzed, file, genre[0]);
    }
    if info.bpm is Some {
        lemma_row_is_shown(head, genre, bpm, key, length, bitrate, analyzed, file, bpm[0]);
    }
    if info.key is Some {
        lemma_row_is_shown(head, genre, bpm, key, length, bitrate, analyzed, file, key[0]);
    }
    if info.bitrate is Some {
        lemma_row_is_shown(head, genre, bpm, key, length, bitrate, analyzed, file, bitrate[0]);
    }
    if info.traktor_analyzed {
        lemma_row_is_shown(head, genre, bpm, key, length, bitrate, analyzed, file, analyzed[0]);
    }
}

/// A row of any part is a row of all.
proof fn lemma_row_is_shown(
    a: Seq<(Seq<char>, Seq<char>)>,
    b: Seq<(Seq<char>, Seq<char>)>,
    c: Seq<(Seq<char>, Seq<char>)>,
    d: Seq<(Seq<char>, Seq<char>)>,
    e: Seq<(Seq<char>, Seq<char>)>,
    f: Seq<(Seq<char>, Seq<char>)>,
    g: Seq<(Seq<char>, Seq<char>)>,
    h: Seq<(Seq<char>, Seq<char>)>,
    row: (Seq<char>, Seq<char>),
)
    requires
        a.contains(row) || b.contains(row) || c.contains(row) || d.contains(row) || e.contains(row)
            || f.contains(row) || g.contains(row) || h.contains(row),
    ensures
        (a + b + c + d + e + f + g + h).contains(row),
{
    lemma_in_part(a, b, row);
    lemma_in_part(a + b, c, row);
    lemma_in_part(a + b + c, d, row);
    lemma_in_part(a + b + c + d, e, row);
    lemma_in_part(a + b + c + d + e, f, row);
    lemma_in_part(a + b + c + d + e + f, g, row);
    lemma_in_part(a + b + c + d + e + f + g, h, row);
}

/// A clock tells the time: the number before the colon times sixty, and the two digits after it,
/// which stay below sixty, make the seconds.
pub proof fn law_clock_tells_the_time(total: nat)
    ensures
        ({
            let shown = clock(total);
            let colon = shown.len() - 3;
            &&& shown.len() > 3
            &&& shown[colon] == ':'
            &&& spelled(shown.take(colon)) * 60 + spelled(shown.skip(colon + 1)) == total
            &&& spelled(shown.skip(colon + 1)) < 60
        }),
{
    reveal_strlit(":");
    let minutes = decimal(total / 60);
    let shown = clock(total);
    let colon = shown.len() - 3;
    law_decimal_spells_the_number(total / 60);
    assert(shown.take(colon) =~= minutes);
    let (tens, ones) = (total % 60 / 10, total % 60 % 10);
    let rest = seq![digit(tens), digit(ones)];
    assert(shown.skip(colon + 1) =~= rest);
    assert(rest.drop_last() =~= seq![digit(tens)]);
    assert(rest.drop_last().drop_last() =~= Seq::<char>::empty());
    assert(digit(tens) as nat == 48 + tens && digit(ones) as nat == 48 + ones);
    assert(spelled(Seq::<char>::empty()) == 0);
    assert(spelled(rest.drop_last()) == tens);
    assert(spelled(rest) == 10 * tens + ones);
}

/// A text of minutes, a colon and two digits tells the second that is nearest to a time, and no
/// time where that is below zero.
pub open spec fn tells_the_nearest_second(shown: Seq<char>, seconds: Single) -> bool {
    let one = one_in_points(SINGLE) as int;
    let colon = shown.len() - 3;
    let told = spelled(shown.take(colon)) * 60 + spelled(shown.skip(colon + 1));
    &&& shown.len() > 3
    &&& shown[colon] == ':'
    &&& spelled(shown.skip(colon + 1)) < 60
    &&& seconds.less(Single::zero()) ==> told == 0
    &&& seconds.bits <= 0x5e80_0000 ==> (2 * told - 1) * one <= 2 * seconds.value() < (2 * told + 1)
        * one
}

/// The clock of a time tells the second that is nearest to it.
pub proof fn law_clock_tells_the_nearest_second(seconds: Single)
    ensures
        tells_the_nearest_second(
            clock(seconds.max(Single::zero()).round_to_word() as nat),
            seconds,
        ),
{
    let held = seconds.max(Single::zero());
    let total = held.round_to_word();
    law_clock_tells_the_time(total as nat);
    if seconds.less(Single::zero()) {
        assert(held == Single::zero());
    }
    if seconds.bits <= 0x5e80_0000 {
        lemma_level_order(seconds, Single::zero());
        lemma_round_to_word(seconds);
        lemma_leading(SINGLE);
        lemma_pow2_pos(149);
        lemma_power_magnitude(62, 0x5e80_0000, SINGLE);
        vstd::arithmetic::power2::lemma2_to64_rest();
        lemma_points_order(seconds.bits as nat, 0x5e80_0000, SINGLE);
        let one = one_in_points(SINGLE);
        let x = points(seconds.bits as nat, SINGLE);
        assert(total < u64::MAX) by (nonlinear_arith)
            requires
                (2 * total - 1) * one <= 2 * x,
                x <= 0x4000_0000_0000_0000 * one,
                one > 0,
        ;
    }
    assert(Single::zero().round_to_word() == 0) by {
        lemma_round_to_word(Single::zero());
        lemma_zero_points(0, SINGLE);
        lemma_pow2_pos(149);
        let one = one_in_points(SINGLE);
        let t = Single::zero().round_to_word();
        assert(t == 0) by (nonlinear_arith)
            requires
                (2 * t - 1) * one <= 0,
                one > 0,
        ;
    }
}

/// The label of a frequency below a thousand is its whole number of hertz; from a thousand up it is
/// its whole number of kilohertz, up to one rounding, and a letter that says so.
pub proof fn law_band_label_tells_the_frequency(frequency: Single)
    requires
        Single::one().bits <= frequency.bits <= 0x4f00_0000,
    ensures
        ({
            let one = one_in_points(SINGLE) as int;
            let shown = band_label(frequency);
            let hertz = spelled(shown);
            let kilohertz = spelled(shown.drop_last());
            if frequency.less(Single { bits: THOUSAND }) {
                hertz * one <= frequency.value() < (hertz + 1) * one
            } else {
                &&& shown.last() == 'k'
                &&& at_most_about(1000 * kilohertz * one, frequency.value(), 1)
                &&& at_most_about(frequency.value(), 1000 * (kilohertz + 1) * one, 1)
            }
        }),
{
    let one = one_in_points(SINGLE);
    let thousand = Single { bits: THOUSAND };
    let x = points(frequency.bits as nat, SINGLE);
    lemma_leading(SINGLE);
    lemma_pow2_pos(149);
    lemma_one_is_normal();
    lemma_power_magnitude(0, 0x3f80_0000, SINGLE);
    lemma_power_magnitude(31, 0x4f00_0000, SINGLE);
    vstd::arithmetic::power2::lemma2_to64();
    lemma_points_order(0x3f80_0000, frequency.bits as nat, SINGLE);
    lemma_points_order(frequency.bits as nat, 0x4f00_0000, SINGLE);
    lemma_level_order(thousand, frequency);
    lemma_level_order(frequency, thousand);
    if frequency.less(thousand) {
        lemma_to_word(frequency);
        let n = frequency.to_word();
        assert(n <= 0x8000_0000) by (nonlinear_arith)
            requires
                n * one <= x,
                x <= 0x8000_0000 * one,
                one > 0,
        ;
        law_decimal_spells_the_number(n as nat);
    } else {
        lemma_pow2_adds(135, 14);
        let u = pow2(135);
        let t = points(THOUSAND as nat, SINGLE);
        assert(t == 0xfa_0000 * u);
        assert(one == u * 0x4000);
        assert(t == 1000 * one) by (nonlinear_arith)
            requires
                t == 0xfa_0000 * u,
                one == u * 0x4000,
        ;
        let part = frequency.over(thousand);
        assert(part.bits <= frequency.bits) by {
            reveal(Single::spec_over);
            lemma_zero_points(THOUSAND as nat, SINGLE);
            assert(x * one <= x * t) by (nonlinear_arith)
                requires
                    t == 1000 * one,
            ;
            lemma_rounded_at_most(x * one, t, frequency.bits as nat, SINGLE);
            lemma_rounded_is_nearest(x * one, t, SINGLE);
        }
        let h = leading(SINGLE);
        assert(x * one >= h * t) by (nonlinear_arith)
            requires
                x >= one,
                t == 1000 * one,
                one >= h * h,
                h == 0x80_0000,
        ;
        lemma_quotient_about(frequency, thousand);
        lemma_to_word(part);
        let n = part.to_word();
        let q = points(part.bits as nat, SINGLE);
        lemma_points_order(part.bits as nat, 0x4f00_0000, SINGLE);
        assert(n <= 0x8000_0000) by (nonlinear_arith)
            requires
                n * one <= q,
                q <= 0x8000_0000 * one,
                one > 0,
        ;
        law_decimal_spells_the_number(n as nat);
        reveal_strlit("k");
        let shown = band_label(frequency);
        assert(shown.drop_last() =~= decimal(n as nat));
        assert(shown.last() == 'k');
        assert(q * t == (1000 * q) * one) by (nonlinear_arith)
            requires
                t == 1000 * one,
        ;
        lemma_about_cancel((1000 * q) as int, x as int, one as int, 1);
        let (low, high) = (1000 * n * one, 1000 * (n + 1) * one);
        assert(low <= 1000 * q <= high) by (nonlinear_arith)
            requires
                low == 1000 * n * one,
                high == 1000 * (n + 1) * one,
                n * one <= q < (n + 1) * one,
        ;
        lemma_at_most_exact(low, (1000 * q) as int, 0);
        lemma_at_most_chain(low, (1000 * q) as int, x as int, 0, 1);
        lemma_at_most_exact((1000 * q) as int, high, 0);
        lemma_at_most_chain(x as int, (1000 * q) as int, high, 1, 0);
    }
}

/// A side that can be drawn: from a thousandth of a pixel to a million.
pub open spec fn is_drawable(side: Single) -> bool {
    0x3a80_0000 <= side.bits <= 0x4980_0000
}

/// A picture keeps its shape when it is fitted, up to two roundings, and passes its bounds by no
/// more than that on either side.
pub proof fn law_pictures_keep_their_shape(source: Size, bounds: Size)
    requires
        is_drawable(source.width),
        is_drawable(source.height),
        is_drawable(bounds.width),
        is_drawable(bounds.height),
    ensures
        ({
            let shown = fitted(source, bounds);
            &&& about(
                (size(shown.width) * size(source.height)) as int,
                (size(shown.height) * size(source.width)) as int,
                2,
            )
            &&& at_most_about(size(shown.width) as int, size(bounds.width) as int, 2)
            &&& at_most_about(size(shown.height) as int, size(bounds.height) as int, 2)
            &&& at_most_about(size(bounds.width) as int, size(shown.width) as int, 2)
                || at_most_about(size(bounds.height) as int, size(shown.height) as int, 2)
        }),
{
    let one = one_in_points(SINGLE);
    let across = bounds.width.over(source.width);
    let down = bounds.height.over(source.height);
    let scale = across.min(down);
    let shown = fitted(source, bounds);
    reveal(Single::spec_abs);
    lemma_level_order(source.width, Single::zero());
    lemma_level_order(source.height, Single::zero());
    lemma_scale(bounds.width, source.width);
    lemma_scale(bounds.height, source.height);
    lemma_level_order(down, across);
    lemma_scaled_side(source.width, scale);
    lemma_scaled_side(source.height, scale);
    lemma_pow2_pos(149);
    let (w, h) = (points(source.width.bits as nat, SINGLE), points(source.height.bits as nat, SINGLE));
    let (x, y) = (points(shown.width.bits as nat, SINGLE), points(shown.height.bits as nat, SINGLE));
    let s = points(scale.bits as nat, SINGLE);
    let (bw, bh) = (points(bounds.width.bits as nat, SINGLE), points(bounds.height.bits as nat, SINGLE));
    // x one ~ w s and y one ~ h s
    lemma_about_scale((x * one) as int, (w * s) as int, h as int, 1);
    lemma_about_scale((y * one) as int, (h * s) as int, w as int, 1);
    assert((x * one) * h == (x * h) * one && (y * one) * w == (y * w) * one && (w * s) * h == (h
        * s) * w) by (nonlinear_arith);
    lemma_about_chain(
        ((x * h) * one) as int,
        ((w * s) * h) as int,
        ((y * w) * one) as int,
        1,
        1,
    );
    lemma_about_cancel((x * h) as int, (y * w) as int, one as int, 2);
    lemma_side_within(x, w, s, across, bw, scale);
    lemma_side_within(y, h, s, down, bh, scale);
}

/// How a side fits its bound, and that it fills it where it sets the scale.
proof fn lemma_side_within(x: nat, w: nat, s: nat, own: Single, bound: nat, scale: Single)
    requires
        about((x * one_in_points(SINGLE)) as int, (w * s) as int, 1),
        about(
            (points(own.bits as nat, SINGLE) * w) as int,
            (bound * one_in_points(SINGLE)) as int,
            1,
        ),
        s == points(scale.bits as nat, SINGLE),
        scale.bits <= own.bits,
    ensures
        at_most_about(x as int, bound as int, 2),
        scale.bits == own.bits ==> at_most_about(bound as int, x as int, 2),
{
    let one = one_in_points(SINGLE);
    let o = points(own.bits as nat, SINGLE);
    lemma_pow2_pos(149);
    lemma_points_order(scale.bits as nat, own.bits as nat, SINGLE);
    assert(w * s <= o * w) by (nonlinear_arith)
        requires
            s <= o,
    ;
    lemma_at_most_exact((w * s) as int, (o * w) as int, 0);
    lemma_at_most_chain((x * one) as int, (w * s) as int, (o * w) as int, 1, 0);
    lemma_at_most_chain((x * one) as int, (o * w) as int, (bound * one) as int, 1, 1);
    lemma_at_most_cancel(x as int, bound as int, one as int, 2);
    if scale.bits == own.bits {
        assert(o * w == w * s) by (nonlinear_arith)
            requires
                o == s,
        ;
        lemma_at_most_chain((bound * one) as int, (o * w) as int, (x * one) as int, 1, 1);
        lemma_at_most_cancel(bound as int, x as int, one as int, 2);
    }
}

/// Sides in points.
proof fn lemma_drawable(side: Single)
    requires
        is_drawable(side),
    ensures
        pow2(139) <= points(side.bits as nat, SINGLE) <= pow2(169),
        one_in_points(SINGLE) == pow2(149),
{
    lemma_leading(SINGLE);
    lemma_compose(leading(SINGLE), 116, SINGLE);
    assert(leading(SINGLE) + leading(SINGLE) * 116 == 0x3a80_0000);
    lemma_compose(leading(SINGLE), 146, SINGLE);
    assert(leading(SINGLE) + leading(SINGLE) * 146 == 0x4980_0000);
    lemma_pow2_adds(23, 116);
    lemma_pow2_adds(23, 146);
    lemma_points_order(0x3a80_0000, side.bits as nat, SINGLE);
    lemma_points_order(side.bits as nat, 0x4980_0000, SINGLE);
}

/// The scale of a side.
proof fn lemma_scale(bound: Single, side: Single)
    requires
        is_drawable(bound),
        is_drawable(side),
    ensures
        about(
            (points(bound.over(side).bits as nat, SINGLE) * points(side.bits as nat, SINGLE)) as int,
            (points(bound.bits as nat, SINGLE) * one_in_points(SINGLE)) as int,
            1,
        ),
        bound.over(side).bits < 0x7f80_0000,
        pow2(119) <= points(bound.over(side).bits as nat, SINGLE) <= pow2(179),
{
    let one = one_in_points(SINGLE);
    let x = points(bound.bits as nat, SINGLE);
    let y = points(side.bits as nat, SINGLE);
    lemma_drawable(bound);
    lemma_drawable(side);
    lemma_leading(SINGLE);
    lemma_pow2_pos(149);
    lemma_zero_points(side.bits as nat, SINGLE);
    lemma_rounded_is_nearest(x * one, y, SINGLE);
    let low = lemma_representable(1, 119, SINGLE);
    let high = lemma_representable(1, 179, SINGLE);
    lemma_pow2_adds(139, 149);
    lemma_pow2_adds(119, 169);
    lemma_pow2_adds(169, 149);
    lemma_pow2_adds(179, 139);
    lemma_pow2_adds(23, 169);
    lemma_pow2_strictly_increases(192, 288);
    assert(x * one >= pow2(119) * y && x * one <= pow2(179) * y && x * one >= pow2(23) * y)
        by (nonlinear_arith)
        requires
            pow2(139) <= x <= pow2(169),
            pow2(139) <= y <= pow2(169),
            one == pow2(149),
            pow2(288) == pow2(139) * pow2(149),
            pow2(288) == pow2(119) * pow2(169),
            pow2(318) == pow2(169) * pow2(149),
            pow2(318) == pow2(179) * pow2(139),
            pow2(192) == pow2(23) * pow2(169),
            pow2(192) < pow2(288),
    ;
    assert(1 * pow2(119) == pow2(119) && 1 * pow2(179) == pow2(179));
    lemma_rounded_at_least(x * one, y, low, SINGLE);
    lemma_rounded_at_most(x * one, y, high, SINGLE);
    assert(bound.over(side).bits == rounded(x * one, y, SINGLE)) by {
        reveal(Single::spec_over);
    }
    lemma_points_order(low, bound.over(side).bits as nat, SINGLE);
    lemma_points_order(bound.over(side).bits as nat, high, SINGLE);
    lemma_quotient_about(bound, side);
}

/// A side that is scaled.
proof fn lemma_scaled_side(side: Single, scale: Single)
    requires
        is_drawable(side),
        scale.bits < 0x7f80_0000,
        pow2(119) <= points(scale.bits as nat, SINGLE) <= pow2(179),
    ensures
        about(
            (points(side.times(scale).bits as nat, SINGLE) * one_in_points(SINGLE)) as int,
            (points(side.bits as nat, SINGLE) * points(scale.bits as nat, SINGLE)) as int,
            1,
        ),
        side.times(scale).bits < 0x7f80_0000,
{
    let one = one_in_points(SINGLE);
    let x = points(side.bits as nat, SINGLE);
    let y = points(scale.bits as nat, SINGLE);
    lemma_drawable(side);
    lemma_leading(SINGLE);
    lemma_pow2_pos(149);
    let high = lemma_representable(1, 199, SINGLE);
    lemma_rounded_is_nearest(x * y, one, SINGLE);
    lemma_pow2_adds(139, 119);
    lemma_pow2_adds(23, 149);
    lemma_pow2_adds(169, 179);
    lemma_pow2_adds(199, 149);
    lemma_pow2_strictly_increases(172, 258);
    assert(x * y >= pow2(23) * one && x * y <= pow2(199) * one) by (nonlinear_arith)
        requires
            pow2(139) <= x <= pow2(169),
            pow2(119) <= y <= pow2(179),
            one == pow2(149),
            pow2(258) == pow2(139) * pow2(119),
            pow2(172) == pow2(23) * pow2(149),
            pow2(348) == pow2(169) * pow2(179),
            pow2(348) == pow2(199) * pow2(149),
            pow2(172) < pow2(258),
    ;
    assert(1 * pow2(199) == pow2(199));
    lemma_rounded_at_most(x * y, one, high, SINGLE);
    assert(side.times(scale).bits == rounded(x * y, one, SINGLE)) by {
        reveal(Single::spec_times);
    }
    lemma_product_about(side, scale);
}

} // verus!
