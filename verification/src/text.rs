//! Characters and text: the classes of characters that the scanners tell apart, how many
//! bytes a text takes, and numbers written out.

use vstd::prelude::*;
use vstd::string::*;
use vstd::utf8::*;

verus! {

/// Whether a character is a letter or a number to [`char::is_alphanumeric`].
pub uninterp spec fn alphanumeric(c: char) -> bool;

/// Whether a character is whitespace: it has the property `White_Space` of Unicode.
pub open spec fn whitespace(c: char) -> bool {
    let code = c as u32;
    ||| 0x9 <= code <= 0xd
    ||| code == 0x20
    ||| code == 0x85
    ||| code == 0xa0
    ||| code == 0x1680
    ||| 0x2000 <= code <= 0x200a
    ||| 0x2028 <= code <= 0x2029
    ||| code == 0x202f
    ||| code == 0x205f
    ||| code == 0x3000
}

/// Whether a character is an ASCII letter or digit.
pub open spec fn ascii_alphanumeric(c: char) -> bool {
    let code = c as u32;
    0x30 <= code <= 0x39 || 0x41 <= code <= 0x5a || 0x61 <= code <= 0x7a
}

/// Whether a character is a control code.
pub open spec fn control(c: char) -> bool {
    c as u32 <= 0x1f || 0x7f <= c as u32 <= 0x9f
}

/// Calls [`char::is_alphanumeric`], which looks the character up in the tables of letters
/// and numbers that the standard library carries: the answer depends on the character
/// alone. Of the ASCII characters, the letters and digits are those.
#[verifier::external_body]
pub(crate) fn is_alphanumeric(c: char) -> (res: bool)
    ensures
        res == alphanumeric(c),
        c as u32 <= 0x7f ==> res == ascii_alphanumeric(c),
{
    c.is_alphanumeric()
}

/// Whether a character is whitespace.
pub(crate) fn is_whitespace(c: char) -> (res: bool)
    ensures
        res == whitespace(c),
{
    let code: u32 = c as u32;
    (0x9 <= code && code <= 0xd) || code == 0x20 || code == 0x85 || code == 0xa0 || code == 0x1680
        || (0x2000 <= code && code <= 0x200a) || code == 0x2028 || code == 0x2029 || code == 0x202f
        || code == 0x205f || code == 0x3000
}

/// Whether a character is a control code: it stands below the space, or from the delete code
/// on to the end of the second block.
pub(crate) fn is_control(c: char) -> (res: bool)
    ensures
        res == control(c),
{
    let code: u32 = c as u32;
    code <= 0x1f || (0x7f <= code && code <= 0x9f)
}

/// [`String::push`] appends one character.
pub assume_specification[ String::push ](s: &mut String, c: char)
    ensures
        final(s)@ == old(s)@.push(c),
;

/// How many bytes a character takes in a text.
pub open spec fn width(c: char) -> nat {
    encode_scalar(c as u32).len()
}

/// How many bytes a text takes.
pub open spec fn byte_len(text: Seq<char>) -> nat {
    encode_utf8(text).len()
}

/// How many bytes a character takes in a text.
pub(crate) fn char_width(c: char) -> (res: usize)
    ensures
        res == width(c),
        1 <= res <= 4,
{
    let code: u32 = c as u32;
    if code < 0x80 {
        1
    } else if code < 0x800 {
        2
    } else if code < 0x1_0000 {
        3
    } else {
        4
    }
}

/// The bytes of two texts in a row are those of the first and those of the second.
pub proof fn law_bytes_of_concatenation(a: Seq<char>, b: Seq<char>)
    ensures
        encode_utf8(a + b) == encode_utf8(a) + encode_utf8(b),
    decreases a.len(),
{
    if a.len() == 0 {
        assert(a + b =~= b);
        assert(encode_utf8(a) + encode_utf8(b) =~= encode_utf8(b));
    } else {
        let rest = a.drop_first();
        assert((a + b).drop_first() =~= rest + b);
        law_bytes_of_concatenation(rest, b);
        assert(encode_utf8(a + b) =~= encode_utf8(a) + encode_utf8(b));
    }
}

/// The bytes of a text with one more character.
pub(crate) proof fn lemma_bytes_of_push(text: Seq<char>, c: char)
    ensures
        encode_utf8(text.push(c)) == encode_utf8(text) + encode_scalar(c as u32),
        byte_len(text.push(c)) == byte_len(text) + width(c),
        1 <= width(c) <= 4,
{
    law_bytes_of_concatenation(text, seq![c]);
    assert(text + seq![c] =~= text.push(c));
    assert(seq![c].drop_first() =~= Seq::<char>::empty());
    assert(encode_utf8(seq![c].drop_first()) =~= Seq::<u8>::empty());
    assert(encode_utf8(seq![c]) =~= encode_scalar(c as u32));
}

/// A prefix of a text takes no more bytes than the text.
pub(crate) proof fn lemma_bytes_of_prefix(text: Seq<char>, i: int)
    requires
        0 <= i <= text.len(),
    ensures
        byte_len(text.take(i)) <= byte_len(text),
        byte_len(text) == byte_len(text.take(i)) + byte_len(text.skip(i)),
{
    law_bytes_of_concatenation(text.take(i), text.skip(i));
    assert(text.take(i) + text.skip(i) =~= text);
}

/// A longer prefix of a text takes more bytes.
pub(crate) proof fn lemma_longer_prefix(text: Seq<char>, i: int, j: int)
    requires
        0 <= i < j <= text.len(),
    ensures
        byte_len(text.take(i)) < byte_len(text.take(j)),
    decreases j - i,
{
    if i + 1 < j {
        lemma_longer_prefix(text, i, j - 1);
    }
    assert(text.take(j) =~= text.take(j - 1).push(text[j - 1]));
    lemma_bytes_of_push(text.take(j - 1), text[j - 1]);
}

/// The bytes of a character other than the line break are not that of a line break.
proof fn lemma_line_break_byte(c: u32)
    requires
        c != 10,
        has_width_1_encoding(c) || has_width_2_encoding(c) || has_width_3_encoding(c)
            || has_width_4_encoding(c),
    ensures
        !encode_scalar(c).contains(10u8),
{
    assert(c <= 0x7f && c != 10 ==> (c & 0x7f) as u8 != 10) by (bit_vector);
    assert((0xc0u8 | ((c >> 6) & 0x1f) as u8) != 10) by (bit_vector);
    assert((0xe0u8 | ((c >> 12) & 0x0f) as u8) != 10) by (bit_vector);
    assert((0xf0u8 | ((c >> 18) & 0x7) as u8) != 10) by (bit_vector);
    assert((0x80u8 | (c & 0x3f) as u8) != 10) by (bit_vector);
    assert((0x80u8 | ((c >> 6) & 0x3f) as u8) != 10) by (bit_vector);
    assert((0x80u8 | ((c >> 12) & 0x3f) as u8) != 10) by (bit_vector);
}

/// The byte of a line break stands in a text only for a line break.
pub proof fn law_line_break_byte(text: Seq<char>)
    requires
        !text.contains('\n'),
    ensures
        !encode_utf8(text).contains(10u8),
    decreases text.len(),
{
    if text.len() > 0 {
        let rest = text.drop_first();
        if rest.contains('\n') {
            let i = rest.index_of('\n');
            assert(text[i + 1] == '\n');
        }
        law_line_break_byte(rest);
        assert(text.contains(text[0]));
        char_is_scalar(text[0]);
        if text[0] as u32 == 10 {
            char_u32_cast(text[0], 10);
        }
        lemma_line_break_byte(text[0] as u32);
        let bytes = encode_utf8(text);
        if bytes.contains(10u8) {
            let i = bytes.index_of(10u8);
            let first = encode_scalar(text[0] as u32);
            if i < first.len() {
                assert(first[i] == 10);
            } else {
                assert(encode_utf8(rest)[i - first.len()] == 10);
            }
        }
    }
}

/// The character for a number below ten.
pub open spec fn digit(n: nat) -> char {
    (('0' as u32 + n) as u32) as char
}

/// A number written out in decimal.
pub open spec fn decimal(n: nat) -> Seq<char>
    decreases n,
{
    if n < 10 {
        seq![digit(n)]
    } else {
        decimal(n / 10).push(digit(n % 10))
    }
}

/// Returns the character for a number below ten.
fn digit_char(n: usize) -> (res: char)
    requires
        n < 10,
    ensures
        res == digit(n as nat),
{
    match n {
        0 => '0',
        1 => '1',
        2 => '2',
        3 => '3',
        4 => '4',
        5 => '5',
        6 => '6',
        7 => '7',
        8 => '8',
        _ => '9',
    }
}

/// Appends a number, written out in decimal.
pub(crate) fn push_decimal(text: &mut String, n: usize)
    ensures
        final(text)@ == old(text)@ + decimal(n as nat),
    decreases n,
{
    if n < 10 {
        text.push(digit_char(n));
        assert(text@ =~= old(text)@ + decimal(n as nat));
    } else {
        push_decimal(text, n / 10);
        text.push(digit_char(n % 10));
        assert(text@ =~= old(text)@ + decimal(n as nat));
    }
}

/// The first `limit` characters of a text, or all of it where it is shorter.
pub open spec fn clipped(text: Seq<char>, limit: nat) -> Seq<char> {
    if text.len() <= limit {
        text
    } else {
        text.take(limit as int)
    }
}

/// Returns the first `limit` characters of a text, or all of it where it is shorter.
pub(crate) fn clip(text: &str, limit: usize) -> (res: String)
    ensures
        res@ == clipped(text@, limit as nat),
{
    let count = text.unicode_len();
    if count <= limit {
        text.to_owned()
    } else {
        text.substring_char(0, limit).to_owned()
    }
}

/// The number that digits stand for.
pub open spec fn number(digits: Seq<char>) -> int
    decreases digits.len(),
{
    if digits.len() == 0 {
        0
    } else {
        10 * number(digits.drop_last()) + (digits.last() as u32 - '0' as u32)
    }
}

/// A number written out is made of digits that stand for it, and starts with zero only where
/// it is zero.
pub proof fn law_decimal_stands_for_the_number(n: nat)
    ensures
        number(decimal(n)) == n,
        decimal(n).len() > 0,
        forall|i: int| 0 <= i < decimal(n).len() ==> '0' <= #[trigger] decimal(n)[i] <= '9',
        decimal(n)[0] == '0' ==> n == 0,
    decreases n,
{
    if n < 10 {
        assert(decimal(n).drop_last() =~= Seq::<char>::empty());
        assert(number(Seq::<char>::empty()) == 0);
    } else {
        law_decimal_stands_for_the_number(n / 10);
        let head = decimal(n / 10);
        assert(decimal(n).drop_last() =~= head);
        assert forall|i: int| 0 <= i < decimal(n).len() implies '0' <= #[trigger] decimal(n)[i]
            <= '9' by {
            if i < head.len() {
                assert(decimal(n)[i] == head[i]);
            }
        }
        assert(decimal(n)[0] == head[0]);
    }
}

/// What is left of a text that is cut is how it starts: all of it, or as much as may stay.
pub proof fn law_clipped_text_is_the_start(text: Seq<char>, limit: nat)
    ensures
        clipped(text, limit).len() <= limit,
        clipped(text, limit).len() < limit ==> clipped(text, limit) == text,
        clipped(text, limit).len() <= text.len(),
        forall|i: int|
            0 <= i < clipped(text, limit).len() ==> #[trigger] clipped(text, limit)[i] == text[i],
{
}

/// The space and the breaks are whitespace; no letter, digit or mark of ASCII is.
pub proof fn law_whitespace_of_ascii(c: char)
    requires
        c as u32 <= 0x7f,
    ensures
        whitespace(c) <==> c == ' ' || c == '\t' || c == '\n' || c == '\r' || c as u32 == 0xb
            || c as u32 == 0xc,
        control(c) <==> (c as u32) < 0x20 || c as u32 == 0x7f,
{
}

/// Beyond ASCII, whitespace is what separates lines and paragraphs, and the spaces of every
/// width, with or without a break; the control codes are those of the second block.
pub proof fn law_whitespace_beyond_ascii(c: char)
    requires
        c as u32 > 0x7f,
    ensures
        whitespace(c) <==> c == '\u{85}' || c == '\u{a0}' || c == '\u{1680}' || ('\u{2000}' <= c
            <= '\u{200a}') || c == '\u{2028}' || c == '\u{2029}' || c == '\u{202f}' || c
            == '\u{205f}' || c == '\u{3000}',
        control(c) <==> '\u{80}' <= c <= '\u{9f}',
{
}

/// A text is blank exactly if each of its characters is whitespace; so is one without any.
pub proof fn law_blank_text(text: Seq<char>, c: char)
    ensures
        blank(Seq::<char>::empty()),
        blank(text.push(c)) <==> blank(text) && whitespace(c),
{
    let longer = text.push(c);
    if blank(longer) {
        assert forall|i: int| 0 <= i < text.len() implies whitespace(#[trigger] text[i]) by {
            assert(whitespace(longer[i]));
        }
        assert(whitespace(longer[text.len() as int]));
    }
}

/// What an optional text holds.
pub open spec fn text_model(text: Option<String>) -> Option<Seq<char>> {
    match text {
        Some(text) => Some(text@),
        None => None,
    }
}

/// Whether there is nothing but whitespace in a text.
pub open spec fn blank(text: Seq<char>) -> bool {
    forall|i: int| 0 <= i < text.len() ==> whitespace(#[trigger] text[i])
}

/// Whether there is nothing but whitespace in a text.
pub(crate) fn is_blank(text: &str) -> (res: bool)
    ensures
        res == blank(text@),
{
    broadcast use axiom_spec_iter;

    for c in it: text.chars()
        invariant
            it.seq() == text@,
            forall|i: int| 0 <= i < it.index() ==> whitespace(#[trigger] text@[i]),
    {
        assert(c == text@[it.index()]);
        if !is_whitespace(c) {
            return false;
        }
    }
    true
}

} // verus!
