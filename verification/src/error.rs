//! What can go wrong.
use pcre2::Error as PatternError;
use vstd::prelude::*;
use vstd::utf8::{decode_utf8, valid_utf8};

use crate::Rank;

verus! {

#[derive(Debug)]
pub enum Error {
    /// A pattern does not compile, or a search with it was given up.
    RegexError(PatternError),
    /// The special tokens are too many or too long for one automaton.
    AhoCorasickError(aho_corasick::BuildError),
    InvalidToken(Rank),
    /// No token of the vocabulary stands for this text.
    NoValidToken(String),
    NoTokenForWord(Vec<u8>),
    InvalidUnicodeSequence(Vec<u8>),
    NoPrefixToken(Vec<u8>),
    /// A rank is not a decimal number of 32 bits.
    ParseIntError(std::num::ParseIntError),
    /// A line of a model file has no rank, or a merge has fewer than two parts.
    InvalidModelFormat,
    UnsupportedNormalizerPretokenizer,
    UnexpectedNonRegexSplitter,
    MissingNormalizerPretokenizer,
}

#[verifier::external_type_specification]
#[verifier::external_body]
pub struct ExRegexError(PatternError);

#[verifier::external_type_specification]
#[verifier::external_body]
pub struct ExBuildError(aho_corasick::BuildError);

#[verifier::external_type_specification]
#[verifier::external_body]
pub struct ExParseIntError(std::num::ParseIntError);

/// The code that PCRE2 has for the error.
pub uninterp spec fn error_code(error: PatternError) -> int;

/// `pcre2::Error::code`: the code of the error.
#[verifier::external_body]
fn code_of(error: &PatternError) -> (code: i32)
    ensures
        code == error_code(*error),
{
    error.code()
}

/// The code of an error for want of memory on the heap.
pub const NO_HEAP: i32 = -48;

/// The code of an error for want of memory on the stack of machine code.
pub const NO_STACK: i32 = -46;

/// A search ran out of memory.
pub open spec fn no_memory(error: PatternError) -> bool {
    error_code(error) == NO_HEAP || error_code(error) == NO_STACK
}

/// A search ran out of memory just where PCRE2 says so: the code is that of no memory, or that of
/// the limit of the stack of machine code.
pub proof fn lemma_no_memory(error: PatternError)
    ensures
        no_memory(error) <==> error_code(error) == -48 || error_code(error) == -46,
{
}

/// The outcome is the error of a search that ran out of memory.
pub open spec fn ran_out<T>(result: Result<T, Error>) -> bool {
    result matches Err(Error::RegexError(error)) && no_memory(error)
}

impl Error {
    /// A search ran out of memory. The same search may succeed another time.
    pub fn is_out_of_memory(&self) -> (answer: bool)
        ensures
            answer == (self matches Error::RegexError(error) && no_memory(*error)),
    {
        match self {
            Error::RegexError(error) => {
                let code: i32 = code_of(error);
                code == NO_HEAP || code == NO_STACK
            },
            _ => false,
        }
    }
}

/// The characters that `String::from_utf8_lossy` makes of the bytes.
pub uninterp spec fn utf8_lossy(bytes: Seq<u8>) -> Seq<char>;

/// `String::from_utf8_lossy`: valid UTF-8 is kept, and a lone byte that is no character is shown
/// as U+FFFD.
#[verifier::external_body]
pub(crate) fn lossy(bytes: &[u8]) -> (shown: String)
    ensures
        shown@ == utf8_lossy(bytes@),
        valid_utf8(bytes@) ==> shown@ == decode_utf8(bytes@),
        bytes@.len() == 1 && bytes@[0] >= 0x80 ==> shown@ == seq!['\u{FFFD}'],
{
    String::from_utf8_lossy(bytes).to_string()
}

/// The outcome is the error that names the text for which there is no token.
pub open spec fn is_no_valid_token(error: Error, bytes: Seq<u8>) -> bool {
    error matches Error::NoValidToken(shown) && shown@ == utf8_lossy(bytes)
}

} // verus!
