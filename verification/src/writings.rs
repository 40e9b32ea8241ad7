//! What the tokens of a model file stand for, by the way in which they are written.
use vstd::prelude::*;
use vstd::utf8::encode_utf8;

use crate::text::replaced;
use crate::transforms::{
    base64_text, base64_token_bytes, byte_level_byte, byte_level_bytes, fallback_byte, hex_value,
    lemma_base64_injective, sentence_piece_bytes,
};

verus! {

/// The token is written in angle brackets.
pub open spec fn in_brackets(token: Seq<char>) -> bool {
    token.len() > 0 && token[0] == '<' && token[token.len() - 1] == '>'
}

/// The byte has a character of its own that can be seen.
pub open spec fn shows(byte: int) -> bool {
    33 <= byte <= 126 || 161 <= byte <= 172 || 174 <= byte <= 255
}

/// How many of the bytes below this one cannot be seen.
pub open spec fn hidden_below(byte: int) -> int
    decreases byte,
{
    if byte <= 0 {
        0
    } else if shows(byte - 1) {
        hidden_below(byte - 1)
    } else {
        hidden_below(byte - 1) + 1
    }
}

/// The number of the character that is written for a byte: its own where it can be seen; the others
/// have, in their order, those from U+0100 on.
pub open spec fn number_of(byte: int) -> int {
    if shows(byte) {
        byte
    } else {
        0x100 + hidden_below(byte)
    }
}

proof fn lemma_hidden_below(byte: int)
    requires
        0 <= byte <= 256,
    ensures
        byte <= 33 ==> hidden_below(byte) == byte,
        33 <= byte <= 127 ==> hidden_below(byte) == 33,
        127 <= byte <= 161 ==> hidden_below(byte) == 33 + (byte - 127),
        161 <= byte <= 173 ==> hidden_below(byte) == 67,
        174 <= byte ==> hidden_below(byte) == 68,
    decreases byte,
{
    if byte > 0 {
        lemma_hidden_below(byte - 1);
    }
}

/// The character is the one that is written for the byte; one that is written for no byte stands
/// for the lowest byte of its number.
pub open spec fn char_means(c: char, byte: u8) -> bool {
    ||| c as int == number_of(byte as int)
    ||| byte as int == c as int % 256 && forall|other: u8| c as int != #[trigger] number_of(
        other as int,
    )
}

/// The token of a byte-level model stands for the bytes: one for each character, but for a token in
/// brackets, which stands for itself.
pub open spec fn byte_level_means(token: Seq<char>, bytes: Seq<u8>) -> bool {
    if in_brackets(token) {
        bytes == encode_utf8(token)
    } else {
        &&& bytes.len() == token.len()
        &&& forall|i: int| 0 <= i < token.len() ==> char_means(#[trigger] token[i], bytes[i])
    }
}

proof fn lemma_char_means(c: char)
    ensures
        char_means(c, byte_level_byte(c)),
{
    let byte = byte_level_byte(c);
    lemma_hidden_below(byte as int);
    assert forall|other: u8| c as int == #[trigger] number_of(other as int) implies other
        == byte by {
        lemma_hidden_below(other as int);
    }
    let value = c as int;
    if !(33 <= value <= 126 || 161 <= value <= 172 || 174 <= value <= 255) && !(0x100 <= value
        <= 0x143) {
        assert forall|other: u8| c as int != #[trigger] number_of(other as int) by {
            lemma_hidden_below(other as int);
        }
        assert(byte as int == value % 256);
    }
}

/// Each byte is written as one character, and that stands for it and for no other byte.
pub proof fn lemma_byte_is_written(byte: u8, c: char)
    requires
        c as int == number_of(byte as int),
    ensures
        byte_level_byte(c) == byte,
{
    lemma_char_means(c);
    lemma_hidden_below(byte as int);
    lemma_hidden_below(byte_level_byte(c) as int);
}

/// A token of a byte-level model stands for the bytes for which it is written.
pub proof fn lemma_byte_level_means(token: Seq<char>)
    ensures
        byte_level_means(token, byte_level_bytes(token)),
{
    if !in_brackets(token) {
        let bytes = byte_level_bytes(token);
        assert forall|i: int| 0 <= i < token.len() implies char_means(
            #[trigger] token[i],
            bytes[i],
        ) by {
            lemma_char_means(token[i]);
        }
    }
}

/// The parts, with the separator between each two of them.
pub open spec fn strung(parts: Seq<Seq<char>>, separator: Seq<char>) -> Seq<char>
    decreases parts.len(),
{
    if parts.len() == 0 {
        Seq::empty()
    } else if parts.len() == 1 {
        parts[0]
    } else {
        parts[0] + separator + strung(parts.drop_first(), separator)
    }
}

/// The mark begins nowhere in the first `len` characters of the text.
pub open spec fn begins_nowhere(mark: Seq<char>, text: Seq<char>, len: int) -> bool {
    forall|k: int|
        0 <= k < len && k + mark.len() <= text.len() ==> #[trigger] text.subrange(
            k,
            k + mark.len(),
        ) != mark
}

/// The parts are what the marks leave of a text, taken from the left: a mark begins after each of
/// them but the last, and none begins before.
pub open spec fn parted(parts: Seq<Seq<char>>, mark: Seq<char>) -> bool {
    &&& parts.len() > 0
    &&& forall|i: int|
        0 <= i < parts.len() - 1 ==> begins_nowhere(
            mark,
            (#[trigger] parts[i]) + mark,
            parts[i].len() as int,
        )
    &&& begins_nowhere(mark, parts.last(), parts.last().len() as int)
}

/// The text with a space before each character and at the end.
pub open spec fn spaced(text: Seq<char>) -> Seq<char> {
    Seq::new(
        2 * text.len() + 1,
        |i: int|
            if i % 2 == 0 {
                ' '
            } else {
                text[i / 2]
            },
    )
}

/// The text is the other one with a space in place of each mark.
pub open spec fn unmarked(text: Seq<char>, mark: Seq<char>, plain: Seq<char>) -> bool {
    if mark.len() == 0 {
        plain == spaced(text)
    } else {
        exists|parts: Seq<Seq<char>>| #[trigger]
            parted(parts, mark) && text == strung(parts, mark) && plain == strung(
                parts,
                seq![' '],
            )
    }
}

proof fn lemma_spaced(text: Seq<char>)
    ensures
        replaced(text, Seq::empty(), seq![' ']) == spaced(text),
    decreases text.len(),
{
    let none: Seq<char> = Seq::empty();
    if text.len() > 0 {
        let rest = text.drop_first();
        lemma_spaced(rest);
        let all = seq![' '].push(text[0]) + spaced(rest);
        assert forall|i: int| 0 <= i < all.len() implies all[i] == spaced(text)[i] by {
            if i >= 2 {
                assert(all[i] == spaced(rest)[i - 2]);
                assert((i - 2) % 2 == i % 2);
                assert((i - 2) / 2 == i / 2 - 1);
            }
        }
        assert(all =~= spaced(text));
    } else {
        assert(replaced(text, none, seq![' ']) =~= spaced(text));
    }
}

proof fn lemma_parts(text: Seq<char>, mark: Seq<char>) -> (parts: Seq<Seq<char>>)
    requires
        mark.len() > 0,
    ensures
        parted(parts, mark),
        text == strung(parts, mark),
        replaced(text, mark, seq![' ']) == strung(parts, seq![' ']),
    decreases text.len(),
{
    let space = seq![' '];
    if text.len() == 0 {
        let parts = seq![text];
        assert(begins_nowhere(mark, parts.last(), 0));
        parts
    } else if mark.is_prefix_of(text) {
        let tail = text.skip(mark.len() as int);
        let rest = lemma_parts(tail, mark);
        let none: Seq<char> = Seq::empty();
        let parts = seq![none] + rest;
        assert(parts.drop_first() =~= rest);
        assert(parts.last() == rest.last());
        assert forall|i: int| 0 <= i < parts.len() - 1 implies begins_nowhere(
            mark,
            (#[trigger] parts[i]) + mark,
            parts[i].len() as int,
        ) by {
            if i > 0 {
                assert(parts[i] == rest[i - 1]);
            }
        }
        assert(text =~= mark + tail);
        assert(strung(parts, mark) =~= mark + tail);
        assert(strung(parts, space) =~= space + strung(rest, space));
        parts
    } else {
        let tail = text.drop_first();
        let rest = lemma_parts(tail, mark);
        let one = seq![text[0]];
        let first = one + rest[0];
        let parts = rest.update(0, first);
        assert(parts.drop_first() =~= rest.drop_first());
        assert(text =~= one + tail);
        assert(strung(parts, mark) =~= one + strung(rest, mark));
        assert(strung(parts, space) =~= one + strung(rest, space));
        let after: Seq<char> = if rest.len() > 1 {
            mark
        } else {
            Seq::empty()
        };
        lemma_begins_later(text, mark, rest, first);
        assert forall|i: int| 0 <= i < parts.len() - 1 implies begins_nowhere(
            mark,
            (#[trigger] parts[i]) + mark,
            parts[i].len() as int,
        ) by {
            if i > 0 {
                assert(parts[i] == rest[i]);
            }
        }
        if parts.len() > 1 {
            assert(parts.last() == rest.last());
        } else {
            assert(first + after =~= first);
        }
        parts
    }
}

/// A mark that does not begin the text begins nowhere in the first part.
proof fn lemma_begins_later(
    text: Seq<char>,
    mark: Seq<char>,
    rest: Seq<Seq<char>>,
    first: Seq<char>,
)
    requires
        mark.len() > 0,
        text.len() > 0,
        parted(rest, mark),
        text.drop_first() == strung(rest, mark),
        !mark.is_prefix_of(text),
        first == seq![text[0]] + rest[0],
    ensures
        rest.len() > 1 ==> begins_nowhere(mark, first + mark, first.len() as int),
        rest.len() == 1 ==> begins_nowhere(mark, first, first.len() as int),
{
    let here = if rest.len() > 1 {
        first + mark
    } else {
        first
    };
    let there = if rest.len() > 1 {
        rest[0] + mark
    } else {
        rest[0]
    };
    assert(here =~= seq![text[0]] + there);
    assert(text =~= seq![text[0]] + text.drop_first());
    assert(here =~= text.subrange(0, here.len() as int)) by {
        assert(there =~= strung(rest, mark).subrange(0, there.len() as int));
    }
    assert forall|k: int|
        0 <= k < first.len() && k + mark.len() <= here.len() implies #[trigger] here.subrange(
        k,
        k + mark.len(),
    ) != mark by {
        if k == 0 {
            assert(here.subrange(0, mark.len() as int) =~= text.subrange(0, mark.len() as int));
        } else {
            assert(here.subrange(k, k + mark.len()) =~= there.subrange(
                k - 1,
                k - 1 + mark.len(),
            ));
            if rest.len() == 1 {
                assert(rest.last() == rest[0]);
            }
        }
    }
}

/// The token of a sentence-piece model stands for the bytes: those of the token with a space in
/// place of each mark, but for a token in brackets, which stands for itself.
pub open spec fn sentence_piece_means(token: Seq<char>, mark: Seq<char>, bytes: Seq<u8>) -> bool {
    if in_brackets(token) {
        bytes == encode_utf8(token)
    } else {
        exists|plain: Seq<char>| #[trigger]
            unmarked(token, mark, plain) && bytes == encode_utf8(plain)
    }
}

/// A token of a sentence-piece model stands for the text that it marks.
pub proof fn lemma_sentence_piece_means(token: Seq<char>, mark: Seq<char>)
    ensures
        sentence_piece_means(token, mark, sentence_piece_bytes(token, mark)),
{
    if !in_brackets(token) {
        let plain = replaced(token, mark, seq![' ']);
        if mark.len() == 0 {
            assert(mark =~= Seq::empty());
            lemma_spaced(token);
        } else {
            let parts = lemma_parts(token, mark);
            assert(parted(parts, mark));
        }
        assert(unmarked(token, mark, plain));
    }
}

/// The character is a hexadecimal digit of this value.
pub open spec fn is_hex(c: char, value: int) -> bool {
    ||| 0 <= value < 10 && c as int == 48 + value
    ||| 10 <= value < 16 && (c as int == 65 + (value - 10) || c as int == 97 + (value - 10))
}

/// The token is `<0x`, two hexadecimal digits of these values and `>`. A plus sign may stand for
/// the first digit, in place of a zero.
pub open spec fn names_by(token: Seq<char>, high: int, low: int) -> bool {
    &&& token.len() == 6
    &&& token.take(3) == seq!['<', '0', 'x']
    &&& token[5] == '>'
    &&& is_hex(token[3], high) || token[3] == '+' && high == 0
    &&& is_hex(token[4], low)
}

/// The token is the name of the byte.
pub open spec fn names(token: Seq<char>, byte: u8) -> bool {
    exists|high: int, low: int| #[trigger] names_by(token, high, low) && byte == 16 * high + low
}

/// A token is read as the byte that it names, and as none where it names none.
pub proof fn lemma_names(token: Seq<char>, byte: u8)
    ensures
        fallback_byte(token) == Some(byte) <==> names(token, byte),
{
    if fallback_byte(token) is Some {
        let read = fallback_byte(token)->0;
        let low = hex_value(token[4])->0 as int;
        let high = if hex_value(token[3]) is Some {
            hex_value(token[3])->0 as int
        } else {
            0
        };
        assert(token.take(3) =~= seq!['<', '0', 'x']);
        assert(is_hex(token[4], low));
        assert(is_hex(token[3], high) || token[3] == '+' && high == 0);
        assert(read == 16 * high + low);
        assert(names_by(token, high, low));
        assert(names(token, read));
    }
    if names(token, byte) {
        let (high, low) = choose|high: int, low: int| #[trigger]
            names_by(token, high, low) && byte == 16 * high + low;
        assert(token.take(3)[0] == token[0] && token.take(3)[1] == token[1] && token.take(3)[2]
            == token[2]);
        assert(hex_value(token[4]) == Some(low as u8));
        if token[3] == '+' {
            assert(hex_value(token[3]) is None);
        } else {
            assert(hex_value(token[3]) == Some(high as u8));
        }
    }
}

/// The token of a model file in base 64 stands for the bytes: those of which it is the form in base
/// 64, but for a token in brackets, or one that is no such form, which stands for itself.
pub open spec fn base64_means(token: Seq<char>, bytes: Seq<u8>) -> bool {
    if in_brackets(token) || forall|other: Seq<u8>| token != #[trigger] base64_text(other) {
        bytes == encode_utf8(token)
    } else {
        token == base64_text(bytes)
    }
}

/// A token in base 64 stands for the bytes of which it is the form, and for no other bytes.
pub proof fn lemma_base64_means(token: Seq<char>, bytes: Seq<u8>)
    ensures
        bytes == base64_token_bytes(token) <==> base64_means(token, bytes),
{
    let other = base64_token_bytes(token);
    if !in_brackets(token) && exists|x: Seq<u8>| #[trigger] base64_text(x) == token {
        assert(base64_text(other) == token);
        if base64_text(bytes) == token {
            lemma_base64_injective(bytes, other);
        }
    }
}

} // verus!
