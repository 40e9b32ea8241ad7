//! Cutting a chunk of text into the words that merging starts from.
use std::ops::Range;
use vstd::prelude::*;
use vstd::utf8::{
    is_continuation_byte, is_leading_byte_width_1, is_leading_byte_width_2,
    is_leading_byte_width_3, is_leading_byte_width_4, utf8_byte_ranges_bitwise,
};

use crate::encoder::{encoder_get, entries, EncoderMap, Entry};
use crate::error::{is_no_valid_token, lossy, Error};
use crate::Rank;

verus! {

/// A stretch of a chunk of text and the rank of the token that stands for it.
pub struct Word {
    pub start: int,
    pub end: int,
    pub rank: Rank,
}

/// What a chunk is cut into before merging: characters, or single bytes.
pub enum WordSplitter {
    Unicode,
    Bytes,
}

/// How many bytes the character at `i` takes, going by its leading byte and by the form of the
/// bytes after it.
pub open spec fn character_len(text: Seq<u8>, i: int) -> Option<int> {
    if is_leading_byte_width_1(text[i]) {
        Some(1)
    } else if is_leading_byte_width_2(text[i]) && i + 1 < text.len()
        && is_continuation_byte(text[i + 1]) {
        Some(2)
    } else if is_leading_byte_width_3(text[i]) && i + 2 < text.len()
        && is_continuation_byte(text[i + 1]) && is_continuation_byte(text[i + 2]) {
        Some(3)
    } else if is_leading_byte_width_4(text[i]) && i + 3 < text.len()
        && is_continuation_byte(text[i + 1]) && is_continuation_byte(text[i + 2])
        && is_continuation_byte(text[i + 3]) {
        Some(4)
    } else {
        None
    }
}

/// The word at `i`: the whole character where it is wanted and is a token, else the one byte
/// where that is a token.
pub open spec fn word_at(
    splitter: WordSplitter,
    vocab: Map<Seq<u8>, Entry>,
    text: Seq<u8>,
    i: int,
) -> Option<Word> {
    let byte = text.subrange(i, i + 1);
    match (splitter, character_len(text, i)) {
        (WordSplitter::Unicode, Some(n)) if vocab.contains_key(text.subrange(i, i + n)) => Some(
            Word { start: i, end: i + n, rank: vocab[text.subrange(i, i + n)].rank },
        ),
        _ => if vocab.contains_key(byte) {
            Some(Word { start: i, end: i + 1, rank: vocab[byte].rank })
        } else {
            None
        },
    }
}

/// The words from `i` to the end of the text, or the place of the first byte at which there is
/// none.
pub open spec fn words_from(
    splitter: WordSplitter,
    vocab: Map<Seq<u8>, Entry>,
    text: Seq<u8>,
    i: int,
) -> Result<Seq<Word>, int>
    decreases text.len() - i,
{
    if i < 0 || i >= text.len() {
        Ok(Seq::empty())
    } else {
        match word_at(splitter, vocab, text, i) {
            None => Err(i),
            Some(word) => match words_from(splitter, vocab, text, word.end) {
                Err(at) => Err(at),
                Ok(rest) => Ok(seq![word] + rest),
            },
        }
    }
}

impl WordSplitter {
    pub fn iter<'a>(&self, text: &'a [u8], encoder: &'a EncoderMap) -> (words: WordSplitterIter<'a>)
        ensures
            words.splitter() == *self,
            words.text() == text@,
            words.encoder() == *encoder,
            words.position() == 0,
    {
        match self {
            WordSplitter::Unicode => WordSplitterIter::Unicode { text, encoder, i: 0 },
            WordSplitter::Bytes => WordSplitterIter::Bytes { text, encoder, i: 0 },
        }
    }
}

/// A walk along a text, word by word.
pub enum WordSplitterIter<'a> {
    Unicode { text: &'a [u8], encoder: &'a EncoderMap, i: usize },
    Bytes { text: &'a [u8], encoder: &'a EncoderMap, i: usize },
}

impl<'a> WordSplitterIter<'a> {
    pub open spec fn splitter(self) -> WordSplitter {
        match self {
            WordSplitterIter::Unicode { .. } => WordSplitter::Unicode,
            WordSplitterIter::Bytes { .. } => WordSplitter::Bytes,
        }
    }

    pub open spec fn text(self) -> Seq<u8> {
        match self {
            WordSplitterIter::Unicode { text, .. } => text@,
            WordSplitterIter::Bytes { text, .. } => text@,
        }
    }

    pub open spec fn encoder(self) -> EncoderMap {
        match self {
            WordSplitterIter::Unicode { encoder, .. } => *encoder,
            WordSplitterIter::Bytes { encoder, .. } => *encoder,
        }
    }

    /// How much of the text is behind.
    pub open spec fn position(self) -> int {
        match self {
            WordSplitterIter::Unicode { i, .. } => i as int,
            WordSplitterIter::Bytes { i, .. } => i as int,
        }
    }

    /// The next word. A byte that no token stands for is an error; a walk by bytes then goes on
    /// after it, a walk by characters stays there.
    pub fn next(&mut self) -> (next: Option<Result<(Range<usize>, Rank), Error>>)
        requires
            old(self).position() <= old(self).text().len(),
        ensures
            final(self).splitter() == old(self).splitter(),
            final(self).text() == old(self).text(),
            final(self).encoder() == old(self).encoder(),
            final(self).position() <= final(self).text().len(),
            next is None <==> old(self).position() == old(self).text().len(),
            next is None ==> final(self).position() == old(self).position(),
            next is Some ==> match word_at(
                old(self).splitter(),
                entries(old(self).encoder()),
                old(self).text(),
                old(self).position(),
            ) {
                Some(word) => {
                    &&& next->0 matches Ok((range, rank))
                    &&& range.start == word.start
                    &&& range.end == word.end
                    &&& rank == word.rank
                    &&& final(self).position() == word.end
                },
                None => {
                    &&& next->0 matches Err(error)
                    &&& is_no_valid_token(
                        error,
                        old(self).text().subrange(
                            old(self).position(),
                            old(self).position() + 1,
                        ),
                    )
                    &&& final(self).position() == old(self).position() + (if old(
                        self,
                    ).splitter() is Bytes {
                        1int
                    } else {
                        0int
                    })
                },
            },
    {
        match self {
            WordSplitterIter::Unicode { text, encoder, i } => {
                let at: usize = *i;
                if at >= text.len() {
                    return None;
                }
                if let Some(len) = guess_character(*text, at) {
                    let end: usize = at + len;
                    if let Some(entry) = encoder_get(*encoder, &text[at..end]) {
                        *i = end;
                        return Some(Ok((at..end, entry.rank)));
                    }
                }
                let end: usize = at + 1;
                match encoder_get(*encoder, &text[at..end]) {
                    Some(entry) => {
                        *i = end;
                        Some(Ok((at..end, entry.rank)))
                    },
                    None => Some(Err(Error::NoValidToken(lossy(&text[at..end])))),
                }
            },
            WordSplitterIter::Bytes { text, encoder, i } => {
                let at: usize = *i;
                if at >= text.len() {
                    return None;
                }
                let end: usize = at + 1;
                *i = end;
                match encoder_get(*encoder, &text[at..end]) {
                    Some(entry) => Some(Ok((at..end, entry.rank))),
                    None => Some(Err(Error::NoValidToken(lossy(&text[at..end])))),
                }
            },
        }
    }
}

/// The length of the character at `i`, where the bytes there have the form of one.
fn guess_character(text: &[u8], i: usize) -> (len: Option<usize>)
    requires
        i < text@.len(),
    ensures
        match character_len(text@, i as int) {
            Some(n) => len matches Some(l) && l == n && i + n <= text@.len(),
            None => len is None,
        },
{
    broadcast use utf8_byte_ranges_bitwise;

    let lead: u8 = text[i];
    let left: usize = text.len() - i;
    if lead & 0x80 == 0 {
        return Some(1);
    }
    let len: usize = if lead & 0xe0 == 0xc0 {
        2
    } else if lead & 0xf0 == 0xe0 {
        3
    } else if lead & 0xf8 == 0xf0 {
        4
    } else {
        return None;
    };
    if left < len {
        return None;
    }
    if text[i + 1] & 0xc0 != 0x80 {
        return None;
    }
    if len > 2 && text[i + 2] & 0xc0 != 0x80 {
        return None;
    }
    if len > 3 && text[i + 3] & 0xc0 != 0x80 {
        return None;
    }
    Some(len)
}

} // verus!
