//! Text: white space, decimal numbers, and what bytes say.
use vstd::prelude::*;
use vstd::utf8::{decode_utf8, valid_utf8};

verus! {

/// White space, as Unicode has it.
pub open spec fn is_white(c: char) -> bool {
    ||| '\u{9}' <= c <= '\u{d}'
    ||| c == '\u{20}'
    ||| c == '\u{85}'
    ||| c == '\u{a0}'
    ||| c == '\u{1680}'
    ||| '\u{2000}' <= c <= '\u{200a}'
    ||| c == '\u{2028}'
    ||| c == '\u{2029}'
    ||| c == '\u{202f}'
    ||| c == '\u{205f}'
    ||| c == '\u{3000}'
}

/// Text without the white space it begins with.
pub open spec fn trimmed_start(s: Seq<char>) -> Seq<char>
    decreases s.len(),
{
    if s.len() > 0 && is_white(s.first()) {
        trimmed_start(s.drop_first())
    } else {
        s
    }
}

/// Text without the white space it ends with.
pub open spec fn trimmed_end(s: Seq<char>) -> Seq<char>
    decreases s.len(),
{
    if s.len() > 0 && is_white(s.last()) {
        trimmed_end(s.drop_last())
    } else {
        s
    }
}

/// Text without the white space around it.
pub open spec fn trimmed(s: Seq<char>) -> Seq<char> {
    trimmed_end(trimmed_start(s))
}

/// Whether a character is white space.
fn white(c: char) -> (r: bool)
    ensures
        r == is_white(c),
{
    ('\u{9}' <= c && c <= '\u{d}') || c == '\u{20}' || c == '\u{85}' || c == '\u{a0}' || c
        == '\u{1680}' || ('\u{2000}' <= c && c <= '\u{200a}') || c == '\u{2028}' || c == '\u{2029}'
        || c == '\u{202f}' || c == '\u{205f}' || c == '\u{3000}'
}

/// Takes the white space around a text away.
pub fn trim(text: &str) -> (r: String)
    ensures
        r@ == trimmed(text@),
{
    let len = text.unicode_len();
    let mut from: usize = 0;
    assert(text@.skip(0) =~= text@);
    while from < len && white(text.get_char(from))
        invariant
            from <= len == text@.len(),
            trimmed_start(text@) == trimmed_start(text@.skip(from as int)),
        decreases len - from,
    {
        proof {
            let rest = text@.skip(from as int);
            assert(rest.first() == text@[from as int]);
            assert(rest.drop_first() =~= text@.skip(from + 1));
        }
        from = from + 1;
    }
    let ghost rest = text@.skip(from as int);
    proof {
        if from < len {
            assert(rest.first() == text@[from as int]);
        }
        assert(trimmed_start(text@) == rest);
        assert(rest =~= text@.subrange(from as int, len as int));
    }
    let mut to: usize = len;
    while from < to && white(text.get_char(to - 1))
        invariant
            from <= to <= len == text@.len(),
            trimmed_end(rest) == trimmed_end(text@.subrange(from as int, to as int)),
        decreases to,
    {
        proof {
            let part = text@.subrange(from as int, to as int);
            assert(part.last() == text@[to - 1]);
            assert(part.drop_last() =~= text@.subrange(from as int, to - 1));
        }
        to = to - 1;
    }
    proof {
        if from < to {
            assert(text@.subrange(from as int, to as int).last() == text@[to - 1]);
        }
    }
    text.substring_char(from, to).to_owned()
}

/// The trimmed text neither begins nor ends with white space, and is trimmed already.
pub proof fn law_trimmed(s: Seq<char>)
    ensures
        trimmed(s).len() > 0 ==> !is_white(trimmed(s).first()) && !is_white(trimmed(s).last()),
        trimmed(trimmed(s)) == trimmed(s),
{
    lemma_trimmed_start(s);
    lemma_trimmed_end(trimmed_start(s));
    let t = trimmed(s);
    lemma_trimmed_end(t);
}

/// A text is what is left of another when white space at both ends is taken away, and all of it.
pub open spec fn is_core_of(core: Seq<char>, s: Seq<char>) -> bool {
    exists|from: int, to: int|
        {
            &&& 0 <= from <= to <= s.len()
            &&& core == #[trigger] s.subrange(from, to)
            &&& forall|i: int| 0 <= i < from ==> is_white(#[trigger] s[i])
            &&& forall|i: int| to <= i < s.len() ==> is_white(#[trigger] s[i])
            &&& from < to ==> !is_white(s[from]) && !is_white(s[to - 1])
        }
}

/// Trimming takes white space away at both ends, all of it, and nothing else.
pub proof fn law_trimming_takes_white_space_only(s: Seq<char>)
    ensures
        is_core_of(trimmed(s), s),
        trimmed(s).len() == 0 <==> forall|i: int| 0 <= i < s.len() ==> is_white(#[trigger] s[i]),
{
    let from = lemma_start_cut(s);
    let rest = trimmed_start(s);
    let len = lemma_end_cut(rest);
    let to = from + len;
    assert(rest == s.skip(from));
    assert(trimmed(s) =~= s.subrange(from, to));
    assert forall|i: int| to <= i < s.len() implies is_white(#[trigger] s[i]) by {
        assert(rest[i - from] == s[i]);
    }
    if from < to {
        assert(rest[0] == s[from]);
        assert(rest[len - 1] == s[to - 1]);
        lemma_trimmed_start(s);
        assert(!is_white(s[from]));
        assert(!is_white(s[to - 1]));
    }
}

/// How much is cut off the start.
proof fn lemma_start_cut(s: Seq<char>) -> (from: int)
    ensures
        0 <= from <= s.len(),
        trimmed_start(s) == s.skip(from),
        forall|i: int| 0 <= i < from ==> is_white(#[trigger] s[i]),
    decreases s.len(),
{
    if s.len() > 0 && is_white(s.first()) {
        let rest = s.drop_first();
        let cut = lemma_start_cut(rest);
        assert(rest.skip(cut) =~= s.skip(cut + 1));
        assert forall|i: int| 0 <= i < cut + 1 implies is_white(#[trigger] s[i]) by {
            if i > 0 {
                assert(rest[i - 1] == s[i]);
            }
        }
        cut + 1
    } else {
        assert(s.skip(0) =~= s);
        0
    }
}

/// How much is left when the end is cut off.
proof fn lemma_end_cut(s: Seq<char>) -> (to: int)
    ensures
        0 <= to <= s.len(),
        trimmed_end(s) == s.take(to),
        forall|i: int| to <= i < s.len() ==> is_white(#[trigger] s[i]),
        to > 0 ==> !is_white(s[to - 1]),
    decreases s.len(),
{
    if s.len() > 0 && is_white(s.last()) {
        let rest = s.drop_last();
        let to = lemma_end_cut(rest);
        assert(rest.take(to) =~= s.take(to));
        assert forall|i: int| to <= i < s.len() implies is_white(#[trigger] s[i]) by {
            if i < s.len() - 1 {
                assert(rest[i] == s[i]);
            }
        }
        if to > 0 {
            assert(rest[to - 1] == s[to - 1]);
        }
        to
    } else {
        assert(s.take(s.len() as int) =~= s);
        s.len() as int
    }
}

proof fn lemma_trimmed_start(s: Seq<char>)
    ensures
        trimmed_start(s).len() > 0 ==> !is_white(trimmed_start(s).first()),
    decreases s.len(),
{
    if s.len() > 0 && is_white(s.first()) {
        lemma_trimmed_start(s.drop_first());
    }
}

proof fn lemma_trimmed_end(s: Seq<char>)
    ensures
        trimmed_end(s).len() > 0 ==> !is_white(trimmed_end(s).last()),
        trimmed_end(s).len() > 0 ==> trimmed_end(s).first() == s.first(),
        trimmed_end(s).len() <= s.len(),
    decreases s.len(),
{
    if s.len() > 0 && is_white(s.last()) {
        lemma_trimmed_end(s.drop_last());
    }
}

/// A decimal digit.
pub open spec fn digit(d: nat) -> char {
    (48 + d) as char
}

/// A number in decimal.
pub open spec fn decimal(n: nat) -> Seq<char>
    decreases n,
{
    if n < 10 {
        seq![digit(n)]
    } else {
        decimal(n / 10).push(digit(n % 10))
    }
}

/// The number that a run of decimal digits spells.
pub open spec fn spelled(s: Seq<char>) -> nat
    decreases s.len(),
{
    if s.len() == 0 {
        0
    } else {
        (10 * spelled(s.drop_last()) + (s.last() as nat - 48)) as nat
    }
}

/// A number in decimal spells that number, in digits alone, and does not begin with a zero unless
/// it is zero.
pub proof fn law_decimal_spells_the_number(n: nat)
    ensures
        spelled(decimal(n)) == n,
        decimal(n).len() > 0,
        forall|i: int| 0 <= i < decimal(n).len() ==> '0' <= #[trigger] decimal(n)[i] <= '9',
        n > 0 ==> decimal(n)[0] != '0',
    decreases n,
{
    let s = decimal(n);
    if n < 10 {
        assert(s.drop_last() =~= Seq::<char>::empty());
        assert(spelled(s.drop_last()) == 0);
        assert(digit(n) as nat == 48 + n);
    } else {
        law_decimal_spells_the_number(n / 10);
        assert(s.drop_last() =~= decimal(n / 10));
        assert(digit(n % 10) as nat == 48 + n % 10);
    }
}

/// Adds a digit to a text.
fn append_digit(text: &mut String, d: u64)
    requires
        d < 10,
    ensures
        final(text)@ == old(text)@.push(digit(d as nat)),
{
    proof {
        reveal_strlit("0");
        reveal_strlit("1");
        reveal_strlit("2");
        reveal_strlit("3");
        reveal_strlit("4");
        reveal_strlit("5");
        reveal_strlit("6");
        reveal_strlit("7");
        reveal_strlit("8");
        reveal_strlit("9");
    }
    let one: &str = match d {
        0 => "0",
        1 => "1",
        2 => "2",
        3 => "3",
        4 => "4",
        5 => "5",
        6 => "6",
        7 => "7",
        8 => "8",
        _ => "9",
    };
    assert(one@ =~= seq![digit(d as nat)]);
    text.append(one);
    assert(text@ =~= old(text)@.push(digit(d as nat)));
}

/// Adds a number in decimal to a text.
pub fn append_decimal(text: &mut String, n: u64)
    ensures
        final(text)@ == old(text)@ + decimal(n as nat),
    decreases n,
{
    if n < 10 {
        append_digit(text, n);
        assert(text@ =~= old(text)@ + decimal(n as nat));
    } else {
        append_decimal(text, n / 10);
        append_digit(text, n % 10);
        assert(text@ =~= old(text)@ + decimal(n as nat));
    }
}

/// Adds a number below a hundred to a text, in two digits.
pub fn append_two_digits(text: &mut String, n: u64)
    requires
        n < 100,
    ensures
        final(text)@ == old(text)@ + seq![digit(n as nat / 10), digit(n as nat % 10)],
{
    append_digit(text, n / 10);
    append_digit(text, n % 10);
    assert(text@ =~= old(text)@ + seq![digit(n as nat / 10), digit(n as nat % 10)]);
}

/// A letter of the basic alphabet in lower case; any other character as it is.
pub open spec fn lower(c: char) -> char {
    if 'A' <= c <= 'Z' {
        (c as int + 32) as char
    } else {
        c
    }
}

/// Whether a text, from a character on, is a given word but for the case of basic letters.
pub fn is_word_from(text: &str, from: usize, word: &str) -> (r: bool)
    requires
        from <= text@.len(),
    ensures
        r <==> text@.skip(from as int).map_values(|c: char| lower(c)) == word@,
{
    let len = text.unicode_len();
    let wanted = word.unicode_len();
    let ghost lowered = text@.skip(from as int).map_values(|c: char| lower(c));
    if len - from != wanted {
        assert(lowered.len() != word@.len());
        return false;
    }
    let mut i: usize = 0;
    while i < wanted
        invariant
            i <= wanted == word@.len(),
            len == text@.len(),
            len - from == wanted,
            from <= len,
            lowered == text@.skip(from as int).map_values(|c: char| lower(c)),
            forall|j: int| 0 <= j < i ==> lowered[j] == word@[j],
        decreases wanted - i,
    {
        let c = text.get_char(from + i);
        let code: u32 = if 'A' <= c && c <= 'Z' {
            c as u32 + 32
        } else {
            c as u32
        };
        assert(lowered[i as int] == lower(text@[from + i]));
        if code != word.get_char(i) as u32 {
            assert(lowered[i as int] != word@[i as int]);
            return false;
        }
        i = i + 1;
    }
    assert(lowered =~= word@);
    true
}

/// The text of bytes that may be broken, with replacement characters where they are.
pub uninterp spec fn mended(bytes: Seq<u8>) -> Seq<char>;

/// `String::from_utf8_lossy`: text with replacement characters where the bytes are no text, and
/// the text itself where they are. Which bytes of a broken run share a replacement character is
/// not said.
#[verifier::external_body]
pub(crate) fn lossy_text(bytes: &[u8]) -> (r: String)
    ensures
        r@ == mended(bytes@),
        valid_utf8(bytes@) ==> r@ == decode_utf8(bytes@),
{
    String::from_utf8_lossy(bytes).into_owned()
}

/// `std::str::from_utf8`: the text of bytes, if they are the encoding of one.
#[verifier::external_body]
pub(crate) fn exact_text(bytes: &[u8]) -> (r: Option<String>)
    ensures
        r is Some <==> valid_utf8(bytes@),
        r matches Some(text) ==> text@ == decode_utf8(bytes@),
{
    match std::str::from_utf8(bytes) {
        Ok(text) => Some(text.to_owned()),
        Err(_) => None,
    }
}

} // verus!
