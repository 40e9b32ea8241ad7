//! Strings of characters: their bytes, their parts, and what is replaced in them.
use vstd::prelude::*;
use vstd::string::StrSliceExecFns;
use vstd::utf8::{encode_scalar, encode_utf8, is_ascii_chars, is_ascii_chars_encode_utf8};

use crate::Rank;

verus! {

/// The characters of a string.
pub fn chars_of(text: &str) -> (chars: Vec<char>)
    ensures
        chars@ == text@,
{
    let ghost all = text@;
    let mut chars: Vec<char> = Vec::new();
    for c in it: text.chars()
        invariant
            it.seq() == all,
            chars@ == all.take(it.index() as int),
    {
        chars.push(c);
        assert(all.take(it.index() + 1) =~= all.take(it.index() as int).push(c));
    }
    assert(all.take(all.len() as int) =~= all);
    chars
}

/// The bytes of two strings, one after the other, are those of the two together.
pub proof fn lemma_encode_append(a: Seq<char>, b: Seq<char>)
    ensures
        encode_utf8(a + b) == encode_utf8(a) + encode_utf8(b),
    decreases a.len(),
{
    if a.len() == 0 {
        assert(a + b =~= b);
        assert(encode_utf8(a) + encode_utf8(b) =~= encode_utf8(b));
    } else {
        lemma_encode_append(a.drop_first(), b);
        assert((a + b).drop_first() =~= a.drop_first() + b);
        assert(encode_utf8(a + b) =~= encode_scalar(a[0] as u32) + (encode_utf8(a.drop_first())
            + encode_utf8(b)));
        assert(encode_utf8(a + b) =~= encode_utf8(a) + encode_utf8(b));
    }
}

proof fn lemma_encode_space()
    ensures
        encode_utf8(seq![' ']) == seq![32u8],
{
    let space = seq![' '];
    assert(is_ascii_chars(space));
    is_ascii_chars_encode_utf8(space);
    assert(space[0] as u8 == 32u8);
    assert(encode_utf8(space) =~= seq![32u8]);
}

/// The string is written in angle brackets, as control tokens are.
pub open spec fn bracketed(text: Seq<char>) -> bool {
    text.len() > 0 && text[0] == '<' && text.last() == '>'
}

pub(crate) fn is_bracketed(chars: &Vec<char>) -> (answer: bool)
    ensures
        answer == bracketed(chars@),
{
    chars.len() > 0 && chars[0] == '<' && chars[chars.len() - 1] == '>'
}

/// The parts of a string between its spaces.
pub open spec fn parts(text: Seq<char>) -> Seq<Seq<char>>
    decreases text.len(),
{
    if text.contains(' ') {
        proof {
            text.index_of_first_ensures(' ');
        }
        let at = text.index_of_first(' ')->0;
        seq![text.take(at)] + parts(text.skip(at + 1))
    } else {
        seq![text]
    }
}

/// Where the first space at or after `from` is.
fn find_space(chars: &Vec<char>, from: usize) -> (at: Option<usize>)
    requires
        from <= chars@.len(),
    ensures
        match at {
            Some(i) => {
                &&& from <= i < chars@.len()
                &&& chars@.skip(from as int).contains(' ')
                &&& chars@.skip(from as int).index_of_first(' ') == Some(i - from)
            },
            None => !chars@.skip(from as int).contains(' '),
        },
{
    let ghost rest = chars@.skip(from as int);
    let mut i: usize = from;
    while i < chars.len()
        invariant
            from <= i <= chars@.len(),
            rest == chars@.skip(from as int),
            forall|k: int| from <= k < i ==> chars@[k] != ' ',
        decreases chars@.len() - i,
    {
        if chars[i] == ' ' {
            proof {
                assert(rest[i - from] == ' ');
                rest.index_of_first_ensures(' ');
                let first = rest.index_of_first(' ')->0;
                assert(chars@[first + from] == ' ');
            }
            return Some(i);
        }
        i = i + 1;
    }
    assert forall|k: int| 0 <= k < rest.len() implies rest[k] != ' ' by {
        assert(rest[k] == chars@[k + from]);
    }
    None
}

/// The first two parts of a string, if it has as many.
pub fn first_two_parts(text: &str) -> (two: Option<(&str, &str)>)
    ensures
        two is Some <==> parts(text@).len() >= 2,
        two matches Some((left, right)) ==> left@ == parts(text@)[0] && right@ == parts(text@)[1],
{
    let chars = chars_of(text);
    let len: usize = chars.len();
    assert(chars@.skip(0) =~= chars@);
    match find_space(&chars, 0) {
        None => None,
        Some(at) => {
            let ghost rest = chars@.skip(at + 1);
            let left: &str = text.substring_char(0, at);
            assert(left@ =~= chars@.take(at as int));
            assert(parts(rest).len() >= 1);
            let end: usize = match find_space(&chars, at + 1) {
                Some(end) => end,
                None => len,
            };
            let right: &str = text.substring_char(at + 1, end);
            proof {
                if rest.contains(' ') {
                    assert(right@ =~= rest.take(rest.index_of_first(' ')->0));
                } else {
                    assert(right@ =~= rest);
                }
                assert(parts(rest)[0] == right@);
            }
            Some((left, right))
        },
    }
}

/// The string with each occurrence of the pattern, from the left and without overlap, made `by`.
/// The empty pattern occurs before each character and at the end.
pub open spec fn replaced(text: Seq<char>, pattern: Seq<char>, by: Seq<char>) -> Seq<char>
    decreases text.len(),
{
    if pattern.len() == 0 {
        if text.len() == 0 {
            by
        } else {
            by.push(text[0]) + replaced(text.drop_first(), pattern, by)
        }
    } else if text.len() == 0 {
        text
    } else if pattern.is_prefix_of(text) {
        by + replaced(text.skip(pattern.len() as int), pattern, by)
    } else {
        seq![text[0]] + replaced(text.drop_first(), pattern, by)
    }
}

fn occurs_at(chars: &Vec<char>, pattern: &Vec<char>, at: usize) -> (answer: bool)
    requires
        at <= chars@.len(),
    ensures
        answer == pattern@.is_prefix_of(chars@.skip(at as int)),
{
    let ghost rest = chars@.skip(at as int);
    let left: usize = chars.len() - at;
    if left < pattern.len() {
        return false;
    }
    let mut i: usize = 0;
    while i < pattern.len()
        invariant
            rest == chars@.skip(at as int),
            at + pattern@.len() <= chars@.len() <= usize::MAX,
            i <= pattern@.len(),
            forall|k: int| 0 <= k < i ==> pattern@[k] == rest[k],
        decreases pattern@.len() - i,
    {
        if chars[at + i] != pattern[i] {
            assert(rest.subrange(0, pattern@.len() as int)[i as int] == rest[i as int]);
            return false;
        }
        i = i + 1;
    }
    assert(pattern@ =~= rest.subrange(0, pattern@.len() as int));
    true
}

/// The bytes of the string with each occurrence of the pattern made a space.
pub fn replace_by_space(text: &str, pattern: &str) -> (bytes: Vec<u8>)
    ensures
        bytes@ == encode_utf8(replaced(text@, pattern@, seq![' '])),
{
    let chars = chars_of(text);
    let pattern = chars_of(pattern);
    let ghost all = chars@;
    let ghost goal = encode_utf8(replaced(all, pattern@, seq![' ']));
    let mut bytes: Vec<u8> = Vec::new();
    let mut i: usize = 0;
    proof {
        lemma_encode_space();
        assert(all.skip(0) =~= all);
        assert(goal =~= bytes@ + goal);
    }
    while i < chars.len()
        invariant
            i <= chars@.len(),
            all == text@,
            chars@ == all,
            encode_utf8(seq![' ']) == seq![32u8],
            goal == bytes@ + encode_utf8(replaced(all.skip(i as int), pattern@, seq![' '])),
        decreases chars@.len() - i,
    {
        let ghost rest = all.skip(i as int);
        let ghost before = bytes@;
        if pattern.len() > 0 && occurs_at(&chars, &pattern, i) {
            proof {
                assert(rest.skip(pattern@.len() as int) =~= all.skip(i + pattern@.len()));
                let tail = replaced(rest.skip(pattern@.len() as int), pattern@, seq![' ']);
                lemma_encode_append(seq![' '], tail);
                assert(before + (seq![32u8] + encode_utf8(tail)) =~= before.push(32u8)
                    + encode_utf8(tail));
            }
            bytes.push(32u8);
            i = i + pattern.len();
        } else {
            let one: &str = text.substring_char(i, i + 1);
            proof {
                assert(one@ =~= seq![rest[0]]);
                assert(rest.drop_first() =~= all.skip(i + 1));
                let tail = replaced(rest.drop_first(), pattern@, seq![' ']);
                lemma_encode_append(one@, tail);
                let space = seq![' '];
                if pattern@.len() == 0 {
                    assert(space.push(rest[0]) =~= space + one@);
                    lemma_encode_append(space, one@);
                    lemma_encode_append(space + one@, tail);
                    assert(before + ((seq![32u8] + encode_utf8(one@)) + encode_utf8(tail))
                        =~= before.push(32u8) + encode_utf8(one@) + encode_utf8(tail));
                } else {
                    assert(before + (encode_utf8(one@) + encode_utf8(tail)) =~= before
                        + encode_utf8(one@) + encode_utf8(tail));
                }
            }
            if pattern.len() == 0 {
                bytes.push(32u8);
            }
            bytes.extend_from_slice(one.as_bytes());
            i = i + 1;
        }
    }
    if pattern.len() == 0 {
        bytes.push(32u8);
    }
    proof {
        assert(all.skip(i as int) =~= Seq::empty());
        assert(bytes@ =~= goal);
    }
    bytes
}

/// The number that decimal digits stand for.
pub open spec fn decimal_value(digits: Seq<char>) -> nat
    decreases digits.len(),
{
    if digits.len() == 0 {
        0
    } else {
        10 * decimal_value(digits.drop_last()) + (digits.last() as nat - '0' as nat) as nat
    }
}

pub open spec fn all_digits(text: Seq<char>) -> bool {
    forall|i: int| 0 <= i < text.len() ==> '0' <= #[trigger] text[i] <= '9'
}

/// The text without a plus sign in front.
pub open spec fn unsigned(text: Seq<char>) -> Seq<char> {
    if text.len() > 0 && text[0] == '+' {
        text.drop_first()
    } else {
        text
    }
}

/// The number that is written as decimal digits, perhaps with a plus sign in front.
pub open spec fn decimal(text: Seq<char>) -> Option<nat> {
    if unsigned(text).len() > 0 && all_digits(unsigned(text)) {
        Some(decimal_value(unsigned(text)))
    } else {
        None
    }
}

/// The rank that is written as a decimal number.
pub open spec fn written_rank(text: Seq<char>) -> Option<Rank> {
    match decimal(text) {
        Some(value) if value <= Rank::MAX => Some(value as Rank),
        _ => None,
    }
}

/// `str::parse`, for a rank: the number that is written in decimal digits, with or without a plus
/// sign, and an error where there is none or where it takes more than 32 bits. What kind of error
/// it is, is not stated.
#[verifier::external_body]
pub(crate) fn parse_rank(text: &str) -> (result: Result<Rank, std::num::ParseIntError>)
    ensures
        match written_rank(text@) {
            Some(rank) => result == Ok::<Rank, std::num::ParseIntError>(rank),
            None => result is Err,
        },
{
    text.parse::<Rank>()
}

} // verus!
