//! From the way in which model files write tokens to the bytes of the tokens.
use base64::engine::general_purpose::STANDARD;
use base64::Engine;
use vstd::prelude::*;
use vstd::slice::slice_to_vec;
use vstd::utf8::encode_utf8;

use crate::text::{bracketed, chars_of, is_bracketed, replace_by_space, replaced};

verus! {

/// What a token of a sentence-piece model stands for: the pattern stands for a space, except in
/// brackets.
pub open spec fn sentence_piece_bytes(token: Seq<char>, pattern: Seq<char>) -> Seq<u8> {
    if bracketed(token) {
        encode_utf8(token)
    } else {
        encode_utf8(replaced(token, pattern, seq![' ']))
    }
}

/// The bytes of a token of a sentence-piece model.
pub fn reverse_sentence_piece(token: &str, pattern: &str) -> (bytes: Vec<u8>)
    ensures
        bytes@ == sentence_piece_bytes(token@, pattern@),
{
    let chars = chars_of(token);
    if is_bracketed(&chars) {
        return slice_to_vec(token.as_bytes());
    }
    replace_by_space(token, pattern)
}

/// The text with a mark in place of each space.
pub open spec fn marked(text: Seq<char>, mark: char) -> Seq<char> {
    text.map_values(
        |c: char|
            if c == ' ' {
                mark
            } else {
                c
            },
    )
}

/// A mark that does not occur in the text can be put for its spaces and taken out again.
pub proof fn lemma_unmark(text: Seq<char>, mark: char)
    requires
        !text.contains(mark),
    ensures
        replaced(marked(text, mark), seq![mark], seq![' ']) == text,
    decreases text.len(),
{
    let written = marked(text, mark);
    let pattern = seq![mark];
    if text.len() > 0 {
        let rest = text.drop_first();
        assert forall|i: int| 0 <= i < rest.len() implies rest[i] != mark by {
            assert(rest[i] == text[i + 1]);
        }
        lemma_unmark(rest, mark);
        assert(written.drop_first() =~= marked(rest, mark));
        assert(written.skip(1) =~= marked(rest, mark));
        if text[0] == ' ' {
            assert(pattern =~= written.subrange(0, 1));
            assert(seq![' '] + rest =~= text);
        } else {
            assert(text[0] != mark);
            assert(pattern[0] != written.subrange(0, 1)[0]);
            assert(!pattern.is_prefix_of(written));
            assert(seq![text[0]] + rest =~= text);
        }
    } else {
        assert(written =~= text);
    }
}

/// A text that is written with a mark for its spaces is what the token stands for, unless the token
/// is in brackets or the mark occurs in the text.
pub proof fn lemma_sentence_piece_round_trip(text: Seq<char>, mark: char)
    requires
        !text.contains(mark),
        !bracketed(marked(text, mark)),
    ensures
        sentence_piece_bytes(marked(text, mark), seq![mark]) == encode_utf8(text),
{
    lemma_unmark(text, mark);
}

/// The byte that a character stands for in a byte-level model. Printable characters of one byte
/// stand for themselves; the other bytes have, in their order, the characters from U+0100 on. Any
/// other character stands for the lowest byte of its number.
pub open spec fn byte_level_byte(c: char) -> u8 {
    let value = c as int;
    if 33 <= value <= 126 || 161 <= value <= 172 || 174 <= value <= 255 {
        value as u8
    } else if 0x100 <= value <= 0x120 {
        (value - 0x100) as u8
    } else if 0x121 <= value <= 0x142 {
        (value - 0x121 + 127) as u8
    } else if value == 0x143 {
        173
    } else {
        (value % 0x100) as u8
    }
}

/// The character that stands for a byte in a byte-level model.
pub open spec fn byte_level_char(byte: u8) -> char {
    if 33 <= byte <= 126 || 161 <= byte <= 172 || 174 <= byte {
        byte as char
    } else if byte <= 32 {
        (0x100 + byte) as char
    } else if byte == 173 {
        '\u{143}'
    } else {
        (0x121 + (byte - 127)) as char
    }
}

/// What a token of a byte-level model stands for: a byte for each character, except in brackets.
pub open spec fn byte_level_bytes(token: Seq<char>) -> Seq<u8> {
    if bracketed(token) {
        encode_utf8(token)
    } else {
        token.map_values(|c: char| byte_level_byte(c))
    }
}

/// Each byte is what its character stands for.
pub proof fn lemma_byte_level_char(byte: u8)
    ensures
        byte_level_byte(byte_level_char(byte)) == byte,
{
}

/// Bytes that are written as a token of a byte-level model are what the token stands for, unless
/// the token is in brackets.
pub proof fn lemma_byte_level_round_trip(bytes: Seq<u8>)
    requires
        !bracketed(bytes.map_values(|byte: u8| byte_level_char(byte))),
    ensures
        byte_level_bytes(bytes.map_values(|byte: u8| byte_level_char(byte))) == bytes,
{
    let token = bytes.map_values(|byte: u8| byte_level_char(byte));
    assert forall|i: int| 0 <= i < bytes.len() implies byte_level_bytes(token)[i] == bytes[i] by {
        lemma_byte_level_char(bytes[i]);
    }
    assert(byte_level_bytes(token) =~= bytes);
}

fn byte_of(c: char) -> (byte: u8)
    ensures
        byte == byte_level_byte(c),
{
    let value: u32 = c as u32;
    if (33 <= value && value <= 126) || (161 <= value && value <= 172) || (174 <= value && value
        <= 255) {
        value as u8
    } else if 0x100 <= value && value <= 0x120 {
        (value - 0x100) as u8
    } else if 0x121 <= value && value <= 0x142 {
        (value - 0x121 + 127) as u8
    } else if value == 0x143 {
        173
    } else {
        (value % 0x100) as u8
    }
}

/// The bytes of a token of a byte-level model.
pub fn reverse_byte_level(token: &str) -> (bytes: Vec<u8>)
    ensures
        bytes@ == byte_level_bytes(token@),
{
    let chars = chars_of(token);
    if is_bracketed(&chars) {
        return slice_to_vec(token.as_bytes());
    }
    let mut bytes: Vec<u8> = Vec::with_capacity(chars.len());
    let mut i: usize = 0;
    while i < chars.len()
        invariant
            i <= chars@.len(),
            bytes@.len() == i,
            forall|k: int| 0 <= k < i ==> bytes@[k] == byte_level_byte(#[trigger] chars@[k]),
        decreases chars@.len() - i,
    {
        bytes.push(byte_of(chars[i]));
        i = i + 1;
    }
    assert(bytes@ =~= chars@.map_values(|c: char| byte_level_byte(c)));
    bytes
}

/// The value of a hexadecimal digit.
pub open spec fn hex_value(c: char) -> Option<u8> {
    if '0' <= c <= '9' {
        Some((c as int - '0' as int) as u8)
    } else if 'a' <= c <= 'f' {
        Some((c as int - 'a' as int + 10) as u8)
    } else if 'A' <= c <= 'F' {
        Some((c as int - 'A' as int + 10) as u8)
    } else {
        None
    }
}

/// The byte that a token such as `<0x0A>` is the name of. A plus sign may stand in place of the
/// first digit.
pub open spec fn fallback_byte(token: Seq<char>) -> Option<u8> {
    if token.len() == 6 && token[0] == '<' && token[1] == '0' && token[2] == 'x' && token[5]
        == '>' {
        match (hex_value(token[3]), hex_value(token[4])) {
            (Some(high), Some(low)) => Some((16 * high + low) as u8),
            (None, Some(low)) if token[3] == '+' => Some(low),
            _ => None,
        }
    } else {
        None
    }
}

/// The digit of a value, in upper case.
pub open spec fn hex_digit(value: u8) -> char {
    if value < 10 {
        ('0' as int + value) as char
    } else {
        ('A' as int + (value - 10)) as char
    }
}

/// The name of a byte.
pub open spec fn byte_name(byte: u8) -> Seq<char> {
    seq!['<', '0', 'x', hex_digit(byte / 16), hex_digit(byte % 16), '>']
}

/// Each byte is the one that its name is the name of.
pub proof fn lemma_byte_name(byte: u8)
    ensures
        fallback_byte(byte_name(byte)) == Some(byte),
{
    let (high, low) = (byte / 16, byte % 16);
    assert(hex_value(hex_digit(high)) == Some(high));
    assert(hex_value(hex_digit(low)) == Some(low));
}

fn hex_of(c: char) -> (value: Option<u8>)
    ensures
        value == hex_value(c),
        value matches Some(v) ==> v < 16,
{
    if '0' <= c && c <= '9' {
        Some((c as u32 - '0' as u32) as u8)
    } else if 'a' <= c && c <= 'f' {
        Some((c as u32 - 'a' as u32 + 10) as u8)
    } else if 'A' <= c && c <= 'F' {
        Some((c as u32 - 'A' as u32 + 10) as u8)
    } else {
        None
    }
}

/// The byte that a token is the name of, if it is one.
pub fn parse_fallback_byte(token: &str) -> (byte: Option<u8>)
    ensures
        byte == fallback_byte(token@),
{
    let chars = chars_of(token);
    if chars.len() == 6 && chars[0] == '<' && chars[1] == '0' && chars[2] == 'x' && chars[5]
        == '>' {
        let high: Option<u8> = hex_of(chars[3]);
        let low: Option<u8> = hex_of(chars[4]);
        match (high, low) {
            (Some(high), Some(low)) => Some(16 * high + low),
            (None, Some(low)) if chars[3] == '+' => Some(low),
            _ => None,
        }
    } else {
        None
    }
}

/// The character of six bits in the standard alphabet of base 64.
pub open spec fn base64_char(bits: int) -> char {
    if bits < 26 {
        ('A' as int + bits) as char
    } else if bits < 52 {
        ('a' as int + (bits - 26)) as char
    } else if bits < 62 {
        ('0' as int + (bits - 52)) as char
    } else if bits == 62 {
        '+'
    } else {
        '/'
    }
}

/// The bytes in base 64, with padding.
pub open spec fn base64_text(bytes: Seq<u8>) -> Seq<char>
    decreases bytes.len(),
{
    if bytes.len() == 0 {
        Seq::empty()
    } else if bytes.len() == 1 {
        let a = bytes[0] as int;
        seq![base64_char(a / 4), base64_char(a % 4 * 16), '=', '=']
    } else if bytes.len() == 2 {
        let a = bytes[0] as int;
        let b = bytes[1] as int;
        seq![
            base64_char(a / 4),
            base64_char(a % 4 * 16 + b / 16),
            base64_char(b % 16 * 4),
            '=',
        ]
    } else {
        let a = bytes[0] as int;
        let b = bytes[1] as int;
        let c = bytes[2] as int;
        seq![
            base64_char(a / 4),
            base64_char(a % 4 * 16 + b / 16),
            base64_char(b % 16 * 4 + c / 64),
            base64_char(c % 64),
        ] + base64_text(bytes.skip(3))
    }
}

/// `STANDARD.decode` of `base64`: the bytes of which the text is the canonical form in base 64,
/// with padding, if there are such bytes.
#[verifier::external_body]
fn decode_base64(text: &str) -> (result: Option<Vec<u8>>)
    ensures
        result matches Some(bytes) ==> base64_text(bytes@) == text@,
        result is None ==> forall|bytes: Seq<u8>| #[trigger] base64_text(bytes) != text@,
{
    STANDARD.decode(text).ok()
}

proof fn lemma_base64_char(a: int, b: int)
    requires
        0 <= a < 64,
        0 <= b < 64,
    ensures
        base64_char(a) == base64_char(b) ==> a == b,
        base64_char(a) != '=',
{
}

/// Texts that agree come from bytes that agree in the first group.
proof fn lemma_base64_group(x: Seq<u8>, y: Seq<u8>)
    requires
        x.len() > 0,
        y.len() > 0,
        base64_text(x) == base64_text(y),
    ensures
        x.len() == 1 <==> y.len() == 1,
        x.len() == 2 <==> y.len() == 2,
        x[0] == y[0],
        x.len() >= 2 ==> x[1] == y[1],
        x.len() >= 3 ==> x[2] == y[2] && base64_text(x.skip(3)) == base64_text(y.skip(3)),
{
    let s = base64_text(x);
    let (a, b, c) = (x[0] as int, x[1] as int, x[2] as int);
    let (d, e, f) = (y[0] as int, y[1] as int, y[2] as int);
    lemma_base64_char(a / 4, d / 4);
    lemma_base64_char(b % 16 * 4, b % 16 * 4 + c / 64);
    lemma_base64_char(e % 16 * 4, e % 16 * 4 + f / 64);
    lemma_base64_char(b % 16 * 4 + c / 64, e % 16 * 4 + f / 64);
    lemma_base64_char(c % 64, f % 64);
    if x.len() >= 3 {
        assert(s[2] == base64_char(b % 16 * 4 + c / 64));
        assert(s[3] == base64_char(c % 64));
        assert(s.skip(4) =~= base64_text(x.skip(3)));
    }
    if y.len() >= 3 {
        assert(s[2] == base64_char(e % 16 * 4 + f / 64));
        assert(s[3] == base64_char(f % 64));
        assert(s.skip(4) =~= base64_text(y.skip(3)));
    }
    assert(x.len() == 1 <==> y.len() == 1);
    assert(x.len() == 2 <==> y.len() == 2);
    assert(s[0] == base64_char(a / 4) && s[0] == base64_char(d / 4));
    if x.len() == 1 {
        lemma_base64_char(a % 4 * 16, d % 4 * 16);
    } else {
        lemma_base64_char(a % 4 * 16 + b / 16, d % 4 * 16 + e / 16);
        lemma_base64_char(b % 16 * 4, e % 16 * 4);
        assert(s[1] == base64_char(a % 4 * 16 + b / 16));
        assert(s[1] == base64_char(d % 4 * 16 + e / 16));
    }
}

/// Different bytes have different forms in base 64.
pub proof fn lemma_base64_injective(x: Seq<u8>, y: Seq<u8>)
    requires
        base64_text(x) == base64_text(y),
    ensures
        x == y,
    decreases x.len(),
{
    assert(x.len() > 0 ==> base64_text(x).len() >= 4);
    assert(y.len() > 0 ==> base64_text(y).len() >= 4);
    if x.len() > 0 && y.len() > 0 {
        lemma_base64_group(x, y);
        if x.len() >= 3 {
            lemma_base64_injective(x.skip(3), y.skip(3));
            assert(x =~= x.take(3) + x.skip(3));
            assert(y =~= y.take(3) + y.skip(3));
            assert(x.take(3) =~= y.take(3));
        }
    }
    assert(x =~= y);
}

/// What a token stands for where tokens are written in base 64: the bytes, or the text itself where
/// it is in brackets or is not base 64.
pub open spec fn base64_token_bytes(token: Seq<char>) -> Seq<u8> {
    if !bracketed(token) && exists|bytes: Seq<u8>| #[trigger] base64_text(bytes) == token {
        choose|bytes: Seq<u8>| #[trigger] base64_text(bytes) == token
    } else {
        encode_utf8(token)
    }
}

/// Bytes that are written in base 64 are what the token stands for.
pub proof fn lemma_base64_round_trip(bytes: Seq<u8>)
    ensures
        base64_token_bytes(base64_text(bytes)) == bytes,
{
    let token = base64_text(bytes);
    if bytes.len() > 0 {
        let a = bytes[0] as int;
        assert(token[0] == base64_char(a / 4));
        assert(base64_char(a / 4) != '<');
    }
    lemma_base64_injective(
        choose|bytes: Seq<u8>| #[trigger] base64_text(bytes) == token,
        bytes,
    );
}

/// The bytes of a token that is written in base 64.
pub fn decode_base64_tokens(token: &str) -> (bytes: Vec<u8>)
    ensures
        bytes@ == base64_token_bytes(token@),
{
    let chars = chars_of(token);
    if is_bracketed(&chars) {
        return slice_to_vec(token.as_bytes());
    }
    match decode_base64(token) {
        Some(bytes) => {
            proof {
                lemma_base64_round_trip(bytes@);
            }
            bytes
        },
        None => slice_to_vec(token.as_bytes()),
    }
}

} // verus!
