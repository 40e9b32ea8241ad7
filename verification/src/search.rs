//! Searching text for literals and for patterns.
use aho_corasick::{AhoCorasick, AhoCorasickBuilder, MatchKind};
use pcre2::bytes::{Regex, RegexBuilder};
use pcre2::Error as PatternError;
use vstd::prelude::*;

use crate::error::{error_code, no_memory, Error};
use crate::text::chars_of;

verus! {

pub open spec fn positions(spans: Seq<(usize, usize)>) -> Seq<(int, int)> {
    spans.map_values(|span: (usize, usize)| (span.0 as int, span.1 as int))
}

/// The spans lie between `start` and `end`, one after the other.
pub open spec fn in_order(spans: Seq<(int, int)>, start: int, end: int) -> bool
    decreases spans.len(),
{
    if spans.len() == 0 {
        start <= end
    } else {
        start <= spans[0].0 <= spans[0].1 && in_order(spans.drop_first(), spans[0].1, end)
    }
}

pub proof fn lemma_in_order_bounds(spans: Seq<(int, int)>, start: int, end: int)
    requires
        in_order(spans, start, end),
    ensures
        start <= end,
        spans.len() > 0 ==> start <= spans[0].0 <= spans[0].1 <= end,
    decreases spans.len(),
{
    if spans.len() > 0 {
        lemma_in_order_bounds(spans.drop_first(), spans[0].1, end);
    }
}

/// Where the last of the spans ends, or the start of the text.
pub open spec fn last_end(spans: Seq<(int, int)>) -> int {
    if spans.len() == 0 {
        0
    } else {
        spans.last().1
    }
}

/// Spans that are in order are so up to the end of the last of them.
pub proof fn lemma_in_order_last(spans: Seq<(int, int)>, start: int, end: int)
    requires
        in_order(spans, start, end),
    ensures
        spans.len() > 0 ==> start <= spans.last().1 <= end && in_order(
            spans,
            start,
            spans.last().1,
        ),
    decreases spans.len(),
{
    if spans.len() > 0 {
        let rest = spans.drop_first();
        lemma_in_order_last(rest, spans[0].1, end);
        lemma_in_order_bounds(rest, spans[0].1, end);
        if rest.len() > 0 {
            assert(rest.last() == spans.last());
        } else {
            assert(in_order(rest, spans[0].1, spans[0].1));
        }
    }
}

pub open spec fn byte_strings(strings: Seq<&[u8]>) -> Seq<Seq<u8>> {
    strings.map_values(|string: &[u8]| string@)
}

#[verifier::external_type_specification]
#[verifier::external_body]
pub struct ExAhoCorasick(AhoCorasick);

#[verifier::external_type_specification]
#[verifier::external_body]
pub struct ExRegex(Regex);

/// The literals that an automaton of this module looks for.
pub uninterp spec fn automaton_literals(automaton: AhoCorasick) -> Seq<Seq<u8>>;

/// The literals are neither too many nor too long for an automaton.
pub uninterp spec fn automaton_fits(literals: Seq<Seq<u8>>) -> bool;

/// How many bytes the literals have together.
pub open spec fn total_len(literals: Seq<Seq<u8>>) -> nat
    decreases literals.len(),
{
    if literals.len() == 0 {
        0
    } else {
        total_len(literals.drop_last()) + literals.last().len()
    }
}

/// The literals are so few and so short that they fit any automaton. It has at most four states
/// and one for each byte, at most 256 transitions from a state, and notes each literal at most
/// twice and once more at each state; each of these it counts with 31 bits.
pub open spec fn surely_fit(literals: Seq<Seq<u8>>) -> bool {
    &&& 256 * (total_len(literals) + 4) < 0x7fff_fffe
    &&& literals.len() * (total_len(literals) + 2) < 0x7fff_fffe
}

/// `AhoCorasickBuilder::build`, for leftmost-longest matches: an automaton that looks for exactly
/// these literals, or an error where they do not fit. Literals that are few and short fit.
#[verifier::external_body]
fn build_automaton(literals: &Vec<&[u8]>) -> (result: Result<AhoCorasick, aho_corasick::BuildError>)
    ensures
        result is Ok <==> automaton_fits(byte_strings(literals@)),
        surely_fit(byte_strings(literals@)) ==> result is Ok,
        result matches Ok(automaton) ==> automaton_literals(automaton) == byte_strings(literals@),
{
    AhoCorasickBuilder::new().match_kind(MatchKind::LeftmostLongest).build(literals.iter())
}

/// The literal stands in the text at `i`.
pub open spec fn stands_at(literal: Seq<u8>, text: Seq<u8>, i: int) -> bool {
    i + literal.len() <= text.len() && text.subrange(i, i + literal.len()) == literal
}

/// The length of the longest literal, of at least `least` bytes, that stands in the text at `i`.
pub open spec fn longest_at(
    literals: Seq<Seq<u8>>,
    text: Seq<u8>,
    i: int,
    least: int,
) -> Option<int>
    decreases literals.len(),
{
    if literals.len() == 0 {
        None
    } else {
        let others = longest_at(literals.drop_last(), text, i, least);
        let len = literals.last().len() as int;
        if stands_at(literals.last(), text, i) && least <= len && (others matches Some(other)
            ==> other < len) {
            Some(len)
        } else {
            others
        }
    }
}

pub proof fn lemma_longest_bounds(
    literals: Seq<Seq<u8>>,
    text: Seq<u8>,
    i: int,
    least: int,
)
    ensures
        longest_at(literals, text, i, least) matches Some(len) ==> {
            &&& least <= len
            &&& i + len <= text.len()
            &&& literals.contains(text.subrange(i, i + len))
        },
    decreases literals.len(),
{
    if literals.len() > 0 {
        lemma_longest_bounds(literals.drop_last(), text, i, least);
        if let Some(len) = longest_at(literals, text, i, least) {
            let k = if longest_at(literals.drop_last(), text, i, least) == Some(len) {
                literals.drop_last().index_of(text.subrange(i, i + len))
            } else {
                literals.len() - 1
            };
            assert(literals[k] == text.subrange(i, i + len));
        }
    }
}

/// The leftmost-longest matches from `i` on, without overlap. Right after a match, an empty one is
/// no match.
pub open spec fn literal_matches(
    literals: Seq<Seq<u8>>,
    text: Seq<u8>,
    i: int,
    after_match: bool,
) -> Seq<(int, int)>
    decreases text.len() + 1 - i, (if after_match { 0int } else { 1int }),
{
    if i < 0 || i > text.len() {
        Seq::empty()
    } else {
        let least = if after_match { 1int } else { 0int };
        match longest_at(literals, text, i, least) {
            Some(len) => {
                proof {
                    lemma_longest_bounds(literals, text, i, least);
                }
                seq![(i, i + len)] + literal_matches(literals, text, i + len, true)
            },
            None => literal_matches(literals, text, i + 1, false),
        }
    }
}

/// What an automaton finds in the text where the empty string is one of its literals.
pub uninterp spec fn automaton_spans(literals: Seq<Seq<u8>>, text: Seq<u8>) -> Seq<(int, int)>;

/// Where the literals are found in the text: the leftmost-longest matches, or what the automaton
/// makes of them where the empty string is a literal too.
pub open spec fn found_literals(literals: Seq<Seq<u8>>, text: Seq<u8>) -> Seq<(int, int)> {
    if literals.contains(Seq::empty()) {
        automaton_spans(literals, text)
    } else {
        literal_matches(literals, text, 0, false)
    }
}

/// Each of the spans has the bytes of one of the literals.
pub open spec fn spans_among(
    literals: Seq<Seq<u8>>,
    text: Seq<u8>,
    spans: Seq<(int, int)>,
) -> bool {
    forall|k: int|
        0 <= k < spans.len() ==> literals.contains(
            text.subrange((#[trigger] spans[k]).0, spans[k].1),
        )
}

/// The literals that are found lie in the text one after the other, each of them is a literal, and
/// a text that is a literal itself is found whole.
pub open spec fn found_soundly(literals: Seq<Seq<u8>>, text: Seq<u8>) -> bool {
    &&& in_order(found_literals(literals, text), 0, text.len() as int)
    &&& spans_among(literals, text, found_literals(literals, text))
    &&& text.len() > 0 && literals.contains(text) ==> found_literals(literals, text) == seq![
        (0int, text.len() as int),
    ]
}

/// `AhoCorasick::find_iter`: the leftmost-longest matches of the literals in the text. Beside the
/// empty string a longer literal may hide empty matches on its way, so with the empty string among
/// the literals it is only stated that the matches lie in the text one after the other, that each
/// of them is a literal, and that a text that is a literal itself is found whole.
#[verifier::external_body]
fn find_literals(automaton: &AhoCorasick, text: &[u8]) -> (spans: Vec<(usize, usize)>)
    ensures
        automaton_literals(*automaton).contains(Seq::empty()) ==> positions(spans@)
            == automaton_spans(automaton_literals(*automaton), text@),
        !automaton_literals(*automaton).contains(Seq::empty()) ==> positions(spans@)
            == literal_matches(automaton_literals(*automaton), text@, 0, false),
        in_order(positions(spans@), 0, text@.len() as int),
        spans_among(automaton_literals(*automaton), text@, positions(spans@)),
        text@.len() > 0 && automaton_literals(*automaton).contains(text@) ==> positions(spans@)
            == seq![(0int, text@.len() as int)],
{
    automaton.find_iter(text).map(|found| (found.start(), found.end())).collect()
}

proof fn lemma_matches_are_literals(
    literals: Seq<Seq<u8>>,
    text: Seq<u8>,
    i: int,
    after_match: bool,
)
    requires
        0 <= i,
    ensures
        spans_among(literals, text, literal_matches(literals, text, i, after_match)),
    decreases text.len() + 1 - i, (if after_match { 0int } else { 1int }),
{
    if i <= text.len() {
        let least = if after_match { 1int } else { 0int };
        lemma_longest_bounds(literals, text, i, least);
        match longest_at(literals, text, i, least) {
            Some(len) => {
                lemma_matches_are_literals(literals, text, i + len, true);
                let rest = literal_matches(literals, text, i + len, true);
                let all = literal_matches(literals, text, i, after_match);
                assert(all == seq![(i, i + len)] + rest);
                assert forall|k: int| 0 <= k < all.len() implies literals.contains(
                    text.subrange((#[trigger] all[k]).0, all[k].1),
                ) by {
                    if k > 0 {
                        assert(all[k] == rest[k - 1]);
                    }
                }
            },
            None => {
                lemma_matches_are_literals(literals, text, i + 1, false);
            },
        }
    }
}

/// No literal that stands at a place is longer than the longest there.
pub proof fn lemma_longest_is_longest(
    literals: Seq<Seq<u8>>,
    text: Seq<u8>,
    i: int,
    least: int,
    literal: Seq<u8>,
)
    requires
        literals.contains(literal),
        stands_at(literal, text, i),
        least <= literal.len(),
    ensures
        longest_at(literals, text, i, least) matches Some(len) && literal.len() <= len,
    decreases literals.len(),
{
    let k = literals.index_of(literal);
    if k < literals.len() - 1 {
        assert(literals.drop_last()[k] == literal);
        lemma_longest_is_longest(literals.drop_last(), text, i, least, literal);
    }
}

/// What is stated of an automaton's search holds of the leftmost-longest matches.
pub proof fn lemma_found_soundly(literals: Seq<Seq<u8>>, text: Seq<u8>)
    requires
        !literals.contains(Seq::empty()),
    ensures
        found_soundly(literals, text),
{
    lemma_literal_matches_in_order(literals, text, 0, false, 0);
    lemma_matches_are_literals(literals, text, 0, false);
    if text.len() > 0 && literals.contains(text) {
        let len = text.len() as int;
        assert(text.subrange(0, len) =~= text);
        lemma_longest_is_longest(literals, text, 0, 0, text);
        lemma_longest_bounds(literals, text, 0, 0);
        lemma_longest_bounds(literals, text, len, 1);
        assert(longest_at(literals, text, 0, 0) == Some(len));
        assert(longest_at(literals, text, len, 1) is None);
        let none: Seq<(int, int)> = Seq::empty();
        assert(literal_matches(literals, text, len + 1, false) =~= none);
        assert(literal_matches(literals, text, len, true) =~= none);
        assert(literal_matches(literals, text, 0, false) =~= seq![(0int, len)]);
    }
}

/// The matches of the literals are in the order of the text.
pub proof fn lemma_literal_matches_in_order(
    literals: Seq<Seq<u8>>,
    text: Seq<u8>,
    i: int,
    after_match: bool,
    start: int,
)
    requires
        0 <= start <= i,
        start <= text.len(),
    ensures
        in_order(literal_matches(literals, text, i, after_match), start, text.len() as int),
    decreases text.len() + 1 - i, (if after_match { 0int } else { 1int }),
{
    if i <= text.len() {
        let least = if after_match { 1int } else { 0int };
        lemma_longest_bounds(literals, text, i, least);
        match longest_at(literals, text, i, least) {
            Some(len) => {
                lemma_literal_matches_in_order(literals, text, i + len, true, i + len);
                let rest = literal_matches(literals, text, i + len, true);
                assert((seq![(i, i + len)] + rest).drop_first() =~= rest);
            },
            None => {
                lemma_literal_matches_in_order(literals, text, i + 1, false, start);
            },
        }
    }
}

/// A search for the leftmost-longest of a set of literals.
pub struct LiteralSearch {
    automaton: AhoCorasick,
}

impl LiteralSearch {
    pub closed spec fn literals(self) -> Seq<Seq<u8>> {
        automaton_literals(self.automaton)
    }

    pub fn new(literals: &Vec<&[u8]>) -> (result: Result<LiteralSearch, Error>)
        ensures
            match result {
                Ok(search) => automaton_fits(byte_strings(literals@)) && search.literals()
                    == byte_strings(literals@),
                Err(error) => !automaton_fits(byte_strings(literals@))
                    && error is AhoCorasickError,
            },
            surely_fit(byte_strings(literals@)) ==> result is Ok,
    {
        match build_automaton(literals) {
            Ok(automaton) => Ok(LiteralSearch { automaton }),
            Err(error) => Err(Error::AhoCorasickError(error)),
        }
    }

    pub fn find(&self, text: &[u8]) -> (spans: Vec<(usize, usize)>)
        ensures
            positions(spans@) == found_literals(self.literals(), text@),
            found_soundly(self.literals(), text@),
    {
        find_literals(&self.automaton, text)
    }
}

/// The pattern from which a regular expression of this module was made.
pub uninterp spec fn regex_pattern(regex: Regex) -> Seq<char>;

/// The pattern is a regular expression.
pub uninterp spec fn regex_compiles(pattern: Seq<char>) -> bool;

/// What the regular expression runs on: machine code for this processor, or an interpreter where
/// the machine does not allow that, with the limits of the library that is linked.
pub uninterp spec fn regex_engine(regex: Regex) -> int;

/// Where the pattern matches in the text, one match after the other, up to where the search is
/// given up, in UTF mode with Unicode properties. Engines agree but for limits, for empty matches
/// inside of characters and for bytes that are no characters.
pub uninterp spec fn regex_spans(pattern: Seq<char>, engine: int, text: Seq<u8>) -> Seq<(int, int)>;

/// The code of the error with which the search is given up, if it is, with memory to spare.
pub uninterp spec fn regex_failure(
    pattern: Seq<char>,
    engine: int,
    text: Seq<u8>,
) -> Option<int>;

/// How many backslashes stand right before this place of the pattern.
pub open spec fn backslashes(pattern: Seq<char>, i: int) -> nat
    decreases i,
{
    if 0 < i <= pattern.len() && pattern[i - 1] == '\\' {
        backslashes(pattern, i - 1) + 1
    } else {
        0
    }
}

/// The backslash at this place is itself escaped. After a `c` that is left open, since `\c\` is a
/// character of its own.
pub open spec fn is_escaped(pattern: Seq<char>, i: int) -> bool {
    let from = i - backslashes(pattern, i);
    backslashes(pattern, i) % 2 == 1 && !(0 < from && pattern[from - 1] == 'c')
}

/// The pattern has `\K` at this place, which makes a match start there.
pub open spec fn resets_at(pattern: Seq<char>, i: int) -> bool {
    &&& 0 <= i
    &&& i + 1 < pattern.len()
    &&& pattern[i] == '\\'
    &&& pattern[i + 1] == 'K'
    &&& !is_escaped(pattern, i)
}

pub open spec fn is_digit(c: char) -> bool {
    '0' <= c <= '9'
}

/// A call of a group is written at this place of the pattern: `(?R)`, `(?1)`, `(?+1)`, `(?-1)`,
/// `(?&name)`, `(?P>name)`, `\g<name>` or `\g'name'`.
pub open spec fn calls_at(pattern: Seq<char>, i: int) -> bool {
    &&& 0 <= i
    &&& i + 2 < pattern.len()
    &&& {
        ||| {
            &&& pattern[i] == '('
            &&& pattern[i + 1] == '?'
            &&& {
                ||| pattern[i + 2] == 'R'
                ||| pattern[i + 2] == '&'
                ||| is_digit(pattern[i + 2])
                ||| i + 3 < pattern.len() && {
                    ||| pattern[i + 2] == 'P' && pattern[i + 3] == '>'
                    ||| (pattern[i + 2] == '+' || pattern[i + 2] == '-') && is_digit(pattern[i + 3])
                }
            }
        }
        ||| {
            &&& pattern[i] == '\\'
            &&& pattern[i + 1] == 'g'
            &&& pattern[i + 2] == '<' || pattern[i + 2] == '\''
        }
    }
}

/// An assertion may begin at this place of the pattern: `(?=`, `(?!`, `(?*`, `(?<=`, `(?<!`,
/// `(?<*`, or one that is written with `(*` and its name.
pub open spec fn asserts_at(pattern: Seq<char>, i: int) -> bool {
    &&& 0 <= i
    &&& i + 1 < pattern.len()
    &&& pattern[i] == '('
    &&& {
        ||| pattern[i + 1] == '*'
        ||| pattern[i + 1] == '?' && i + 2 < pattern.len() && {
            ||| is_assertion(pattern[i + 2])
            ||| pattern[i + 2] == '<' && i + 3 < pattern.len() && is_assertion(pattern[i + 3])
        }
    }
}

pub open spec fn is_assertion(c: char) -> bool {
    c == '=' || c == '!' || c == '*'
}

/// The pattern cannot move the start of a match from within an assertion: it has no `\K`, it has no
/// assertion, or it calls no group. A `\K` that is written in an assertion does not compile, in
/// PCRE2 from 10.38 on; what is left is one in a group that an assertion calls. With that, a match
/// may end before it starts, and a search may find it again without end.
pub open spec fn steady(pattern: Seq<char>) -> bool {
    ||| forall|i: int| !#[trigger] resets_at(pattern, i)
    ||| forall|i: int| !#[trigger] asserts_at(pattern, i)
    ||| forall|i: int| !#[trigger] calls_at(pattern, i)
}

/// `RegexBuilder::build`: a regular expression for this pattern, or an error where it is none.
#[verifier::external_body]
fn compile(pattern: &str) -> (result: Result<Regex, PatternError>)
    ensures
        result is Ok <==> regex_compiles(pattern@),
        result matches Ok(regex) ==> regex_pattern(regex) == pattern@,
{
    RegexBuilder::new()
        .jit_if_available(true)
        .max_jit_stack_size(Some(1024 * 1024))
        .utf(true)
        .ucp(true)
        .build(pattern)
}

/// `Regex::find_iter`, walked to its end or to the first error: the matches up to there, which lie
/// in the text one after the other, and the error. A search is bound by limits on its steps, their
/// depth and its heap, and starts from the same state each time, so on one engine the same search
/// of the same text gives the same matches and is given up in the same way. Only memory can run out
/// at any time; then the matches up to there are the first of those.
#[verifier::external_body]
fn find_matches(regex: &Regex, text: &[u8]) -> (found: (Vec<(usize, usize)>, Option<PatternError>))
    requires
        steady(regex_pattern(*regex)),
    ensures
        in_order(positions(found.0@), 0, text@.len() as int),
        positions(found.0@).is_prefix_of(
            regex_spans(regex_pattern(*regex), regex_engine(*regex), text@),
        ),
        found.1 is None ==> regex_failure(
            regex_pattern(*regex),
            regex_engine(*regex),
            text@,
        ) is None,
        found.1 matches Some(error) ==> no_memory(error) || regex_failure(
            regex_pattern(*regex),
            regex_engine(*regex),
            text@,
        ) == Some(error_code(error)),
        (found.1 matches Some(error) && no_memory(error)) || positions(found.0@) == regex_spans(
            regex_pattern(*regex),
            regex_engine(*regex),
            text@,
        ),
{
    let mut failure = None;
    let spans = regex.find_iter(text).map_while(|found| match found {
        Ok(found) => Some((found.start(), found.end())),
        Err(error) => {
            failure = Some(error);
            None
        },
    }).collect();
    (spans, failure)
}

/// What a search for a pattern may find: its matches, up to where it is given up and the error if
/// it is, or the first of them where it runs out of memory.
pub open spec fn may_find(
    pattern: Seq<char>,
    engine: int,
    text: Seq<u8>,
    spans: Seq<(int, int)>,
    failure: Option<Error>,
) -> bool {
    let all = regex_spans(pattern, engine, text);
    match failure {
        None => spans == all && regex_failure(pattern, engine, text) is None,
        Some(Error::RegexError(error)) => if no_memory(error) {
            spans.is_prefix_of(all)
        } else {
            spans == all && regex_failure(pattern, engine, text) == Some(error_code(error))
        },
        Some(_) => false,
    }
}

/// A search for the matches of a pattern.
pub struct PatternSearch {
    regex: Regex,
}

impl PatternSearch {
    pub closed spec fn pattern(self) -> Seq<char> {
        regex_pattern(self.regex)
    }

    pub closed spec fn engine(self) -> int {
        regex_engine(self.regex)
    }

    pub fn new(pattern: &str) -> (result: Result<PatternSearch, Error>)
        ensures
            match result {
                Ok(search) => regex_compiles(pattern@) && search.pattern() == pattern@,
                Err(error) => !regex_compiles(pattern@) && error is RegexError,
            },
    {
        match compile(pattern) {
            Ok(regex) => Ok(PatternSearch { regex }),
            Err(error) => Err(Error::RegexError(error)),
        }
    }

    /// The matches in the text, and the error where the search was given up.
    pub fn find(&self, text: &[u8]) -> (found: (Vec<(usize, usize)>, Option<Error>))
        requires
            steady(self.pattern()),
        ensures
            in_order(positions(found.0@), 0, text@.len() as int),
            may_find(self.pattern(), self.engine(), text@, positions(found.0@), found.1),
    {
        let (spans, failure) = find_matches(&self.regex, text);
        match failure {
            None => (spans, None),
            Some(error) => (spans, Some(Error::RegexError(error))),
        }
    }
}

/// The pattern is [`steady`].
pub fn is_steady(pattern: &str) -> (answer: bool)
    ensures
        answer == steady(pattern@),
{
    let chars = chars_of(pattern);
    let len: usize = chars.len();
    let mut resets: bool = false;
    let mut asserts: bool = false;
    let mut calls: bool = false;
    let mut run: usize = 0;
    let mut i: usize = 0;
    while i < len
        invariant
            i <= len == chars@.len(),
            run <= i,
            run == backslashes(chars@, i as int),
            resets <==> exists|k: int| k < i && #[trigger] resets_at(chars@, k),
            asserts <==> exists|k: int| k < i && #[trigger] asserts_at(chars@, k),
            calls <==> exists|k: int| k < i && #[trigger] calls_at(chars@, k),
        decreases len - i,
    {
        let left: usize = len - i;
        let here: char = chars[i];
        let second: char = if left > 1 { chars[i + 1] } else { ' ' };
        let third: char = if left > 2 { chars[i + 2] } else { ' ' };
        let fourth: char = if left > 3 { chars[i + 3] } else { ' ' };
        let from: usize = i - run;
        let escaped: bool = run % 2 == 1 && !(from > 0 && chars[from - 1] == 'c');
        let reset: bool = here == '\\' && second == 'K' && !escaped;
        let assertion: bool = here == '(' && (second == '*' || (second == '?' && (third == '='
            || third == '!' || third == '*' || (third == '<' && (fourth == '=' || fourth == '!'
            || fourth == '*')))));
        let call: bool = here == '(' && second == '?' && (third == 'R' || third == '&' || ('0'
            <= third && third <= '9') || (third == 'P' && fourth == '>') || ((third == '+'
            || third == '-') && '0' <= fourth && fourth <= '9')) || here == '\\' && second == 'g'
            && (third == '<' || third == '\'');
        proof {
            assert(escaped == is_escaped(chars@, i as int));
            assert(reset == resets_at(chars@, i as int));
            assert(assertion == asserts_at(chars@, i as int));
            assert(call == calls_at(chars@, i as int));
        }
        resets = resets || reset;
        asserts = asserts || assertion;
        calls = calls || call;
        if here == '\\' {
            run = run + 1;
        } else {
            run = 0;
        }
        i = i + 1;
    }
    !resets || !asserts || !calls
}

} // verus!
