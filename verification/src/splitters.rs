//! Cutting text into pieces before it is encoded.
use std::ops::Range;
use vstd::prelude::*;

use crate::error::{error_code, no_memory, ran_out, Error};
use crate::search::{
    found_literals, found_soundly, in_order, last_end, lemma_in_order_bounds, lemma_in_order_last,
    may_find, positions, regex_compiles, regex_failure, regex_spans, steady, LiteralSearch,
    PatternSearch,
};

verus! {

/// A way to cut text.
pub enum Splitter {
    /// At each of a set of literals, which become pieces of their own.
    AhoCorasick(LiteralSearch),
    /// At the matches of a pattern.
    Regex(PatternSearch),
    /// Before each run of a byte.
    Delimiter(u8),
}

/// What a [`Splitter`] cuts at.
pub enum SplitRule {
    Literals(Seq<Seq<u8>>),
    /// The pattern, and the engine on which it runs.
    Pattern(Seq<char>, int),
    Delimiter(u8),
}

impl View for Splitter {
    type V = SplitRule;

    open spec fn view(&self) -> SplitRule {
        match self {
            Splitter::AhoCorasick(search) => SplitRule::Literals(search.literals()),
            Splitter::Regex(search) => SplitRule::Pattern(search.pattern(), search.engine()),
            Splitter::Delimiter(delimiter) => SplitRule::Delimiter(*delimiter),
        }
    }
}

/// A piece of a text: a literal, which is one token, or bytes still to be encoded.
pub enum Split {
    Literal(Range<usize>),
    Bytes(Range<usize>),
}

impl Clone for Split {
    fn clone(&self) -> (copy: Split)
        ensures
            copy == *self,
    {
        match self {
            Split::Literal(range) => Split::Literal(range.start..range.end),
            Split::Bytes(range) => Split::Bytes(range.start..range.end),
        }
    }
}

/// Where a [`Split`] begins and ends.
pub enum Piece {
    Literal(int, int),
    Bytes(int, int),
}

impl View for Split {
    type V = Piece;

    open spec fn view(&self) -> Piece {
        match self {
            Split::Literal(range) => Piece::Literal(range.start as int, range.end as int),
            Split::Bytes(range) => Piece::Bytes(range.start as int, range.end as int),
        }
    }
}

impl Piece {
    pub open spec fn start(self) -> int {
        match self {
            Piece::Literal(start, _) => start,
            Piece::Bytes(start, _) => start,
        }
    }

    pub open spec fn end(self) -> int {
        match self {
            Piece::Literal(_, end) => end,
            Piece::Bytes(_, end) => end,
        }
    }

    /// The same piece of a text that has `by` more bytes in front.
    pub open spec fn moved(self, by: int) -> Piece {
        match self {
            Piece::Literal(start, end) => Piece::Literal(start + by, end + by),
            Piece::Bytes(start, end) => Piece::Bytes(start + by, end + by),
        }
    }
}

pub open spec fn pieces(splits: Seq<Split>) -> Seq<Piece> {
    splits.map_values(|split: Split| split@)
}

pub open spec fn all_moved(pieces: Seq<Piece>, by: int) -> Seq<Piece> {
    pieces.map_values(|piece: Piece| piece.moved(by))
}

/// The text from `start` to `len`, cut at the spans: each span is a piece, and so is what is left
/// between two of them, and at the end.
pub open spec fn pieces_at(
    spans: Seq<(int, int)>,
    start: int,
    len: int,
    literal: bool,
) -> Seq<Piece>
    decreases spans.len(),
{
    if spans.len() == 0 {
        if start < len {
            seq![Piece::Bytes(start, len)]
        } else {
            Seq::empty()
        }
    } else {
        let (from, to) = spans[0];
        let between = if start < from {
            seq![Piece::Bytes(start, from)]
        } else {
            Seq::empty()
        };
        let span = if literal {
            Piece::Literal(from, to)
        } else {
            Piece::Bytes(from, to)
        };
        between.push(span) + pieces_at(spans.drop_first(), to, len, literal)
    }
}

/// A run of the delimiter begins at `i`, and something stands before it.
pub open spec fn run_begins(text: Seq<u8>, delimiter: u8, i: int) -> bool {
    0 < i < text.len() && text[i - 1] != delimiter && text[i] == delimiter
}

/// The text from `start`, cut at each place from `i` on at which a run of the delimiter begins.
pub open spec fn pieces_before_runs(
    text: Seq<u8>,
    delimiter: u8,
    start: int,
    i: int,
) -> Seq<Piece>
    decreases text.len() - i,
{
    if i >= text.len() {
        seq![Piece::Bytes(start, text.len() as int)]
    } else if run_begins(text, delimiter, i) {
        seq![Piece::Bytes(start, i)] + pieces_before_runs(text, delimiter, i, i + 1)
    } else {
        pieces_before_runs(text, delimiter, start, i + 1)
    }
}

/// The pieces that a rule makes of a text.
pub open spec fn rule_pieces(rule: SplitRule, text: Seq<u8>) -> Seq<Piece> {
    match rule {
        SplitRule::Literals(literals) => pieces_at(
            found_literals(literals, text),
            0,
            text.len() as int,
            true,
        ),
        SplitRule::Pattern(pattern, engine) => pieces_at(
            regex_spans(pattern, engine, text),
            0,
            text.len() as int,
            false,
        ),
        SplitRule::Delimiter(delimiter) => pieces_before_runs(text, delimiter, 0, 1),
    }
}

/// The rule can be applied to any text.
pub open spec fn rule_steady(rule: SplitRule) -> bool {
    rule matches SplitRule::Pattern(pattern, _) ==> steady(pattern)
}

/// The search that the rule makes in this text gives its matches in the order of the text, and
/// literals where it looks for literals.
pub open spec fn rule_sound(rule: SplitRule, text: Seq<u8>) -> bool {
    match rule {
        SplitRule::Literals(literals) => found_soundly(literals, text),
        SplitRule::Pattern(pattern, engine) => in_order(
            regex_spans(pattern, engine, text),
            0,
            text.len() as int,
        ),
        SplitRule::Delimiter(_) => true,
    }
}

/// The code of the error with which the search that the rule makes in this text is given up, if it
/// is, with memory to spare.
pub open spec fn rule_failure(rule: SplitRule, text: Seq<u8>) -> Option<int> {
    match rule {
        SplitRule::Pattern(pattern, engine) => regex_failure(pattern, engine, text),
        _ => None,
    }
}

/// What splitting a text that stands `offset` bytes into the whole may do to the pieces before: its
/// own pieces are appended. A search with a pattern may be given up instead; then the pieces up to
/// the last match are appended.
pub open spec fn may_split(
    rule: SplitRule,
    text: Seq<u8>,
    offset: int,
    before: Seq<Piece>,
    result: Result<(), Error>,
    after: Seq<Piece>,
) -> bool {
    match result {
        Ok(_) => {
            &&& after == before + all_moved(rule_pieces(rule, text), offset)
            &&& rule_sound(rule, text)
            &&& rule_failure(rule, text) is None
        },
        Err(error) => {
            &&& rule matches SplitRule::Pattern(pattern, engine)
            &&& exists|spans: Seq<(int, int)>|
                {
                    &&& in_order(spans, 0, text.len() as int)
                    &&& may_find(pattern, engine, text, spans, Some(error))
                    &&& after == before + all_moved(
                        #[trigger] pieces_at(spans, 0, last_end(spans), false),
                        offset,
                    )
                }
        },
    }
}

impl Splitter {
    /// The splitter that cuts at the matches of a pattern, if the pattern compiles.
    pub fn from_regex_pattern(pattern: &str) -> (result: Result<Splitter, Error>)
        ensures
            match result {
                Ok(splitter) => {
                    &&& regex_compiles(pattern@)
                    &&& splitter@ matches SplitRule::Pattern(of, _)
                    &&& of == pattern@
                },
                Err(error) => !regex_compiles(pattern@) && error is RegexError,
            },
    {
        match PatternSearch::new(pattern) {
            Ok(search) => Ok(Splitter::Regex(search)),
            Err(error) => Err(error),
        }
    }

    /// Appends the pieces of a text that stands `offset` bytes into the whole. Only a search with a
    /// pattern can be given up; then the pieces up to the last match are appended.
    pub fn split(&self, text: &[u8], offset: usize, output: &mut Vec<Split>) -> (result: Result<
        (),
        Error,
    >)
        requires
            offset + text@.len() <= usize::MAX,
            rule_steady(self@),
        ensures
            may_split(
                self@,
                text@,
                offset as int,
                pieces(old(output)@),
                result,
                pieces(final(output)@),
            ),
    {
        match self {
            Splitter::AhoCorasick(search) => {
                let spans = search.find(text);
                split_at(&spans, text.len(), true, offset, output);
                Ok(())
            },
            Splitter::Regex(search) => {
                let (spans, failure) = search.find(text);
                split_found(&spans, failure, text.len(), offset, output)
            },
            Splitter::Delimiter(delimiter) => {
                split_before_runs(text, *delimiter, offset, output);
                Ok(())
            },
        }
    }
}

/// Appends the pieces of a text of this length that is cut at the matches of a pattern. Where the
/// search was given up, the text goes no further than the last match, and the error comes back.
pub fn split_found(
    spans: &Vec<(usize, usize)>,
    failure: Option<Error>,
    len: usize,
    offset: usize,
    output: &mut Vec<Split>,
) -> (result: Result<(), Error>)
    requires
        offset + len <= usize::MAX,
        in_order(positions(spans@), 0, len as int),
    ensures
        match failure {
            None => result is Ok && pieces(final(output)@) == pieces(old(output)@) + all_moved(
                pieces_at(positions(spans@), 0, len as int, false),
                offset as int,
            ),
            Some(error) => {
                &&& result == Err::<(), Error>(error)
                &&& pieces(final(output)@) == pieces(old(output)@) + all_moved(
                    pieces_at(positions(spans@), 0, last_end(positions(spans@)), false),
                    offset as int,
                )
            },
        },
{
    match failure {
        None => {
            split_at(spans, len, false, offset, output);
            Ok(())
        },
        Some(error) => {
            let end: usize = if spans.len() == 0 {
                0
            } else {
                spans[spans.len() - 1].1
            };
            proof {
                lemma_in_order_last(positions(spans@), 0, len as int);
                assert(end == last_end(positions(spans@)));
            }
            split_at(spans, end, false, offset, output);
            Err(error)
        },
    }
}

/// Appends the pieces of a text of this length that is cut at the spans.
pub fn split_at(
    spans: &Vec<(usize, usize)>,
    len: usize,
    literal: bool,
    offset: usize,
    output: &mut Vec<Split>,
)
    requires
        offset + len <= usize::MAX,
        in_order(positions(spans@), 0, len as int),
    ensures
        pieces(final(output)@) == pieces(old(output)@) + all_moved(
            pieces_at(positions(spans@), 0, len as int, literal),
            offset as int,
        ),
{
    let ghost all = positions(spans@);
    let ghost before = pieces(output@);
    let ghost mut done: Seq<Piece> = Seq::empty();
    let mut start: usize = 0;
    let mut i: usize = 0;
    assert(all.skip(0) =~= all);
    assert(all_moved(done, offset as int) =~= Seq::empty());
    assert(pieces_at(all, 0, len as int, literal) =~= done + pieces_at(
        all,
        0,
        len as int,
        literal,
    ));
    assert(before + Seq::<Piece>::empty() =~= before);
    while i < spans.len()
        invariant
            i <= spans@.len(),
            offset + len <= usize::MAX,
            all == positions(spans@),
            start <= len,
            in_order(all.skip(i as int), start as int, len as int),
            pieces_at(all, 0, len as int, literal) == done + pieces_at(
                all.skip(i as int),
                start as int,
                len as int,
                literal,
            ),
            pieces(output@) == before + all_moved(done, offset as int),
        decreases spans@.len() - i,
    {
        let (from, to) = spans[i];
        let ghost rest = all.skip(i as int);
        let ghost now = pieces(output@);
        let ghost done0 = done;
        assert(rest[0] == (from as int, to as int));
        proof {
            lemma_in_order_bounds(rest, start as int, len as int);
        }
        assert(rest.drop_first() =~= all.skip(i + 1));
        let ghost between: Seq<Piece> = if start < from {
            seq![Piece::Bytes(start as int, from as int)]
        } else {
            Seq::empty()
        };
        if from > start {
            output.push(Split::Bytes(start + offset..from + offset));
        }
        let ghost mid = pieces(output@);
        assert(mid =~= now + all_moved(between, offset as int));
        let ghost span = if literal {
            Piece::Literal(from as int, to as int)
        } else {
            Piece::Bytes(from as int, to as int)
        };
        if literal {
            output.push(Split::Literal(from + offset..to + offset));
        } else {
            output.push(Split::Bytes(from + offset..to + offset));
        }
        proof {
            assert(pieces(output@) =~= mid.push(span.moved(offset as int)));
            let tail = pieces_at(rest.drop_first(), to as int, len as int, literal);
            done = done0 + between.push(span);
            assert(done0 + (between.push(span) + tail) =~= done + tail);
            assert(all_moved(done, offset as int) =~= all_moved(done0, offset as int) + all_moved(
                between,
                offset as int,
            ).push(span.moved(offset as int)));
            assert(pieces(output@) =~= before + all_moved(done, offset as int));
        }
        start = to;
        i = i + 1;
    }
    let ghost now = pieces(output@);
    if start < len {
        output.push(Split::Bytes(start + offset..len + offset));
    }
    proof {
        let last = pieces_at(all.skip(i as int), start as int, len as int, literal);
        assert(pieces(output@) =~= now + all_moved(last, offset as int));
        assert(all_moved(done + last, offset as int) =~= all_moved(done, offset as int)
            + all_moved(last, offset as int));
        assert(pieces(output@) =~= before + all_moved(done + last, offset as int));
    }
}

/// Appends the pieces of a text that is cut before each run of the delimiter.
fn split_before_runs(text: &[u8], delimiter: u8, offset: usize, output: &mut Vec<Split>)
    requires
        offset + text@.len() <= usize::MAX,
    ensures
        pieces(final(output)@) == pieces(old(output)@) + all_moved(
            pieces_before_runs(text@, delimiter, 0, 1),
            offset as int,
        ),
{
    let ghost before = pieces(output@);
    let ghost whole = pieces_before_runs(text@, delimiter, 0, 1);
    let ghost mut done: Seq<Piece> = Seq::empty();
    let mut start: usize = 0;
    let mut i: usize = 1;
    assert(done + whole =~= whole);
    assert(before + all_moved(done, offset as int) =~= before);
    while i < text.len()
        invariant
            1 <= i,
            start < i,
            i <= text@.len() || (i == 1 && text@.len() == 0),
            offset + text@.len() <= usize::MAX,
            whole == done + pieces_before_runs(text@, delimiter, start as int, i as int),
            pieces(output@) == before + all_moved(done, offset as int),
        decreases text@.len() - i,
    {
        if text[i - 1] != delimiter && text[i] == delimiter {
            let ghost now = output@;
            output.push(Split::Bytes(start + offset..i + offset));
            proof {
                let piece = Piece::Bytes(start as int, i as int);
                let rest = pieces_before_runs(text@, delimiter, i as int, i + 1);
                assert(done + (seq![piece] + rest) =~= done.push(piece) + rest);
                assert(pieces(output@) =~= pieces(now).push(piece.moved(offset as int)));
                assert(all_moved(done.push(piece), offset as int) =~= all_moved(
                    done,
                    offset as int,
                ).push(piece.moved(offset as int)));
                done = done.push(piece);
                assert(pieces(output@) =~= before + all_moved(done, offset as int));
            }
            start = i;
        }
        i = i + 1;
    }
    let ghost now = output@;
    output.push(Split::Bytes(start + offset..text.len() + offset));
    proof {
        let piece = Piece::Bytes(start as int, text@.len() as int);
        assert(whole =~= done.push(piece));
        assert(pieces(output@) =~= pieces(now).push(piece.moved(offset as int)));
        assert(all_moved(done.push(piece), offset as int) =~= all_moved(done, offset as int).push(
            piece.moved(offset as int),
        ));
        assert(pieces(output@) =~= before + all_moved(whole, offset as int));
    }
}

/// The pieces stand one after the other, and together they are the text from `start` to `end`.
pub open spec fn cover(pieces: Seq<Piece>, start: int, end: int) -> bool
    decreases pieces.len(),
{
    if pieces.len() == 0 {
        start == end
    } else {
        &&& pieces[0].start() == start
        &&& start <= pieces[0].end()
        &&& cover(pieces.drop_first(), pieces[0].end(), end)
    }
}

pub proof fn lemma_cover_append(a: Seq<Piece>, b: Seq<Piece>, start: int, middle: int, end: int)
    requires
        cover(a, start, middle),
        cover(b, middle, end),
    ensures
        cover(a + b, start, end),
    decreases a.len(),
{
    if a.len() == 0 {
        assert(a + b =~= b);
    } else {
        lemma_cover_append(a.drop_first(), b, a[0].end(), middle, end);
        assert((a + b).drop_first() =~= a.drop_first() + b);
    }
}

pub proof fn lemma_cover_bounds(pieces: Seq<Piece>, start: int, end: int)
    requires
        cover(pieces, start, end),
    ensures
        start <= end,
        forall|i: int|
            0 <= i < pieces.len() ==> start <= (#[trigger] pieces[i]).start() <= pieces[i].end()
                <= end,
    decreases pieces.len(),
{
    if pieces.len() > 0 {
        lemma_cover_bounds(pieces.drop_first(), pieces[0].end(), end);
        assert forall|i: int| 0 <= i < pieces.len() implies start <= (
        #[trigger] pieces[i]).start() <= pieces[i].end() <= end by {
            if i > 0 {
                assert(pieces[i] == pieces.drop_first()[i - 1]);
            }
        }
    }
}

/// All pieces but the last cover the text up to the last.
pub proof fn lemma_cover_last(pieces: Seq<Piece>, start: int, end: int)
    requires
        cover(pieces, start, end),
        pieces.len() > 0,
    ensures
        cover(pieces.drop_last(), start, pieces.last().start()),
        pieces.last().start() <= pieces.last().end() == end,
    decreases pieces.len(),
{
    if pieces.len() > 1 {
        lemma_cover_last(pieces.drop_first(), pieces[0].end(), end);
        assert(pieces.drop_first().drop_last() =~= pieces.drop_last().drop_first());
        assert(pieces.drop_first().last() == pieces.last());
    } else {
        assert(cover(pieces.drop_first(), pieces[0].end(), end));
    }
}

pub proof fn lemma_cover_moved(pieces: Seq<Piece>, start: int, end: int, by: int)
    requires
        cover(pieces, start, end),
    ensures
        cover(all_moved(pieces, by), start + by, end + by),
    decreases pieces.len(),
{
    if pieces.len() > 0 {
        lemma_cover_moved(pieces.drop_first(), pieces[0].end(), end, by);
        assert(all_moved(pieces, by).drop_first() =~= all_moved(pieces.drop_first(), by));
    }
}

proof fn lemma_pieces_at_cover(spans: Seq<(int, int)>, start: int, len: int, literal: bool)
    requires
        in_order(spans, start, len),
    ensures
        cover(pieces_at(spans, start, len, literal), start, len),
    decreases spans.len(),
{
    if spans.len() == 0 {
        if start < len {
            let one = seq![Piece::Bytes(start, len)];
            assert(cover(one.drop_first(), len, len));
        }
    } else {
        let (from, to) = spans[0];
        let rest = pieces_at(spans.drop_first(), to, len, literal);
        lemma_pieces_at_cover(spans.drop_first(), to, len, literal);
        let span = if literal {
            Piece::Literal(from, to)
        } else {
            Piece::Bytes(from, to)
        };
        let between: Seq<Piece> = if start < from {
            seq![Piece::Bytes(start, from)]
        } else {
            Seq::empty()
        };
        assert((seq![span] + rest).drop_first() =~= rest);
        assert(cover(seq![span] + rest, from, len));
        if start < from {
            assert((between + (seq![span] + rest)).drop_first() =~= seq![span] + rest);
        }
        assert(between.push(span) + rest =~= between + (seq![span] + rest));
    }
}

proof fn lemma_runs_cover(text: Seq<u8>, delimiter: u8, start: int, i: int)
    requires
        0 <= start <= text.len(),
        start < i,
    ensures
        cover(pieces_before_runs(text, delimiter, start, i), start, text.len() as int),
    decreases text.len() - i,
{
    if i >= text.len() {
        let one = seq![Piece::Bytes(start, text.len() as int)];
        assert(cover(one.drop_first(), text.len() as int, text.len() as int));
    } else if run_begins(text, delimiter, i) {
        lemma_runs_cover(text, delimiter, i, i + 1);
        let rest = pieces_before_runs(text, delimiter, i, i + 1);
        assert((seq![Piece::Bytes(start, i)] + rest).drop_first() =~= rest);
    } else {
        lemma_runs_cover(text, delimiter, start, i + 1);
    }
}

/// Whatever the rule, its pieces are the whole text, in order.
pub proof fn lemma_rule_pieces_cover(rule: SplitRule, text: Seq<u8>)
    requires
        rule_sound(rule, text),
    ensures
        cover(rule_pieces(rule, text), 0, text.len() as int),
{
    match rule {
        SplitRule::Literals(literals) => {
            lemma_pieces_at_cover(
                found_literals(literals, text),
                0,
                text.len() as int,
                true,
            );
        },
        SplitRule::Pattern(pattern, engine) => {
            lemma_pieces_at_cover(regex_spans(pattern, engine, text), 0, text.len() as int, false);
        },
        SplitRule::Delimiter(delimiter) => {
            lemma_runs_cover(text, delimiter, 0, 1);
        },
    }
}

/// What a rule makes of one piece: literals stay as they are.
pub open spec fn cut_piece(rule: SplitRule, text: Seq<u8>, piece: Piece) -> Seq<Piece> {
    match piece {
        Piece::Literal(_, _) => seq![piece],
        Piece::Bytes(start, end) => all_moved(rule_pieces(rule, text.subrange(start, end)), start),
    }
}

/// What a rule makes of each of the pieces.
pub open spec fn cut_pieces(rule: SplitRule, text: Seq<u8>, pieces: Seq<Piece>) -> Seq<Piece>
    decreases pieces.len(),
{
    if pieces.len() == 0 {
        Seq::empty()
    } else {
        cut_pieces(rule, text, pieces.drop_last()) + cut_piece(rule, text, pieces.last())
    }
}

/// The pieces of a text after the first `n` of the rules.
pub open spec fn cut(rules: Seq<SplitRule>, text: Seq<u8>, n: nat) -> Seq<Piece>
    decreases n,
{
    if n == 0 {
        seq![Piece::Bytes(0, text.len() as int)]
    } else {
        cut_pieces(rules[n - 1], text, cut(rules, text, (n - 1) as nat))
    }
}

/// The search that the rule makes in the piece, if it makes one, is sound.
pub open spec fn piece_sound(rule: SplitRule, text: Seq<u8>, piece: Piece) -> bool {
    piece matches Piece::Bytes(start, end) ==> rule_sound(rule, text.subrange(start, end))
}

/// Each search that the first `n` rules make is sound.
pub open spec fn searches_sound(rules: Seq<SplitRule>, text: Seq<u8>, n: nat) -> bool {
    forall|k: nat, i: int|
        k < n && 0 <= i < cut(rules, text, k).len() ==> piece_sound(
            rules[k as int],
            text,
            #[trigger] cut(rules, text, k)[i],
        )
}

/// A pattern is searched for in some piece of the text.
pub open spec fn searches_pattern(rules: Seq<SplitRule>, text: Seq<u8>) -> bool {
    exists|k: nat, i: int|
        {
            &&& k < rules.len()
            &&& rules[k as int] is Pattern
            &&& 0 <= i < cut(rules, text, k).len()
            &&& (#[trigger] cut(rules, text, k)[i]) is Bytes
        }
}

/// The code of the error with which the search that the rule makes in the piece is given up.
pub open spec fn piece_failure(rule: SplitRule, text: Seq<u8>, piece: Piece) -> Option<int> {
    match piece {
        Piece::Literal(_, _) => None,
        Piece::Bytes(start, end) => rule_failure(rule, text.subrange(start, end)),
    }
}

/// The code of the first error with which a search that the rule makes in the pieces is given up.
pub open spec fn pieces_failure(rule: SplitRule, text: Seq<u8>, pieces: Seq<Piece>) -> Option<int>
    decreases pieces.len(),
{
    if pieces.len() == 0 {
        None
    } else {
        match pieces_failure(rule, text, pieces.drop_last()) {
            Some(code) => Some(code),
            None => piece_failure(rule, text, pieces.last()),
        }
    }
}

/// The code of the first error with which a search that the first `n` rules make is given up, rule
/// after rule and piece after piece, with memory to spare.
pub open spec fn cut_failure(rules: Seq<SplitRule>, text: Seq<u8>, n: nat) -> Option<int>
    decreases n,
{
    if n == 0 {
        None
    } else {
        let k = (n - 1) as nat;
        match cut_failure(rules, text, k) {
            Some(code) => Some(code),
            None => pieces_failure(rules[k as int], text, cut(rules, text, k)),
        }
    }
}

/// The rule at `k` searches the piece `i` of what the rules before it leave, none of which is given
/// up, and that search has this error.
pub open spec fn gives_up_at(
    rules: Seq<SplitRule>,
    text: Seq<u8>,
    k: nat,
    i: int,
    error: Error,
) -> bool {
    &&& k < rules.len()
    &&& rules[k as int] is Pattern
    &&& 0 <= i < cut(rules, text, k).len()
    &&& cut(rules, text, k)[i] is Bytes
    &&& searches_sound(rules, text, k)
    &&& cut_failure(rules, text, k) is None
    &&& error matches Error::RegexError(e)
    &&& no_memory(e) || piece_failure(rules[k as int], text, cut(rules, text, k)[i]) == Some(
        error_code(e),
    )
}

/// What may go wrong in cutting a text: a search with a pattern is given up, or runs out of memory.
pub open spec fn may_give_up(rules: Seq<SplitRule>, text: Seq<u8>, error: Error) -> bool {
    &&& searches_pattern(rules, text)
    &&& exists|k: nat, i: int| #[trigger] gives_up_at(rules, text, k, i, error)
    &&& error matches Error::RegexError(e)
    &&& no_memory(e) || cut_failure(rules, text, rules.len()) == Some(error_code(e))
}

/// A failure in the first pieces is the failure of all of them.
proof fn lemma_pieces_failure_stays(rule: SplitRule, text: Seq<u8>, pieces: Seq<Piece>, n: int)
    requires
        0 <= n <= pieces.len(),
        pieces_failure(rule, text, pieces.take(n)) is Some,
    ensures
        pieces_failure(rule, text, pieces) == pieces_failure(rule, text, pieces.take(n)),
    decreases pieces.len() - n,
{
    if n < pieces.len() {
        assert(pieces.take(n + 1).drop_last() =~= pieces.take(n));
        lemma_pieces_failure_stays(rule, text, pieces, n + 1);
    } else {
        assert(pieces.take(n) =~= pieces);
    }
}

/// A failure of the first rules is the failure of all of them.
proof fn lemma_cut_failure_stays(rules: Seq<SplitRule>, text: Seq<u8>, k: nat, n: nat)
    requires
        k <= n,
        cut_failure(rules, text, k) is Some,
    ensures
        cut_failure(rules, text, n) == cut_failure(rules, text, k),
    decreases n,
{
    if k < n {
        lemma_cut_failure_stays(rules, text, k, (n - 1) as nat);
    }
}

proof fn lemma_cut_pieces_cover(
    rule: SplitRule,
    text: Seq<u8>,
    pieces: Seq<Piece>,
    end: int,
)
    requires
        cover(pieces, 0, end),
        end <= text.len(),
        forall|i: int| 0 <= i < pieces.len() ==> piece_sound(rule, text, #[trigger] pieces[i]),
    ensures
        cover(cut_pieces(rule, text, pieces), 0, end),
    decreases pieces.len(),
{
    if pieces.len() > 0 {
        let last = pieces.last();
        lemma_cover_bounds(pieces, 0, end);
        lemma_cover_last(pieces, 0, end);
        assert(pieces[pieces.len() - 1] == last);
        assert forall|i: int| 0 <= i < pieces.drop_last().len() implies piece_sound(
            rule,
            text,
            #[trigger] pieces.drop_last()[i],
        ) by {
            assert(pieces.drop_last()[i] == pieces[i]);
        }
        lemma_cut_pieces_cover(rule, text, pieces.drop_last(), last.start());
        lemma_cut_piece_cover(rule, text, last);
        lemma_cover_append(
            cut_pieces(rule, text, pieces.drop_last()),
            cut_piece(rule, text, last),
            0,
            last.start(),
            end,
        );
    }
}

proof fn lemma_cut_piece_cover(rule: SplitRule, text: Seq<u8>, piece: Piece)
    requires
        0 <= piece.start() <= piece.end() <= text.len(),
        piece_sound(rule, text, piece),
    ensures
        cover(cut_piece(rule, text, piece), piece.start(), piece.end()),
{
    match piece {
        Piece::Literal(start, end) => {
            assert(cover(seq![piece].drop_first(), end, end));
        },
        Piece::Bytes(start, end) => {
            let part = text.subrange(start, end);
            lemma_rule_pieces_cover(rule, part);
            lemma_cover_moved(rule_pieces(rule, part), 0, end - start, start);
        },
    }
}

/// However many rules have cut the text, the pieces are the whole of it, in order.
pub proof fn lemma_cut_cover(rules: Seq<SplitRule>, text: Seq<u8>, n: nat)
    requires
        n <= rules.len(),
        searches_sound(rules, text, n),
    ensures
        cover(cut(rules, text, n), 0, text.len() as int),
    decreases n,
{
    if n == 0 {
        let one = seq![Piece::Bytes(0, text.len() as int)];
        assert(cover(one.drop_first(), text.len() as int, text.len() as int));
    } else {
        let k = (n - 1) as nat;
        lemma_cut_cover(rules, text, k);
        assert forall|i: int| 0 <= i < cut(rules, text, k).len() implies piece_sound(
            rules[k as int],
            text,
            #[trigger] cut(rules, text, k)[i],
        ) by {}
        lemma_cut_pieces_cover(rules[k as int], text, cut(rules, text, k), text.len() as int);
    }
}

pub open spec fn rules_of(splitters: Seq<Splitter>) -> Seq<SplitRule> {
    splitters.map_values(|splitter: Splitter| splitter@)
}

/// Cuts each of the pieces of a text with one splitter.
fn cut_with(splitter: &Splitter, text: &[u8], splits: &Vec<Split>) -> (result: Result<
    Vec<Split>,
    Error,
>)
    requires
        rule_steady(splitter@),
        cover(pieces(splits@), 0, text@.len() as int),
    ensures
        match result {
            Ok(after) => {
                &&& pieces(after@) == cut_pieces(splitter@, text@, pieces(splits@))
                &&& forall|i: int|
                    0 <= i < splits@.len() ==> piece_sound(
                        splitter@,
                        text@,
                        (#[trigger] splits@[i])@,
                    )
                &&& pieces_failure(splitter@, text@, pieces(splits@)) is None
            },
            Err(error) => {
                &&& splitter@ is Pattern
                &&& error matches Error::RegexError(e)
                &&& exists|i: int|
                    {
                        &&& 0 <= i < splits@.len()
                        &&& (#[trigger] splits@[i])@ is Bytes
                        &&& no_memory(e) || piece_failure(splitter@, text@, splits@[i]@) == Some(
                            error_code(e),
                        )
                    }
                &&& no_memory(e) || pieces_failure(splitter@, text@, pieces(splits@)) == Some(
                    error_code(e),
                )
            },
        },
{
    let ghost all = pieces(splits@);
    let mut after: Vec<Split> = Vec::with_capacity(text.len() / 4);
    let mut i: usize = 0;
    proof {
        lemma_cover_bounds(all, 0, text@.len() as int);
        assert(all.take(0) =~= Seq::empty());
        assert(pieces(after@) =~= Seq::empty());
    }
    while i < splits.len()
        invariant
            i <= splits@.len(),
            rule_steady(splitter@),
            all == pieces(splits@),
            forall|i: int|
                0 <= i < all.len() ==> 0 <= (#[trigger] all[i]).start() <= all[i].end()
                    <= text@.len(),
            pieces(after@) == cut_pieces(splitter@, text@, all.take(i as int)),
            forall|j: int|
                0 <= j < i ==> piece_sound(splitter@, text@, (#[trigger] splits@[j])@),
            pieces_failure(splitter@, text@, all.take(i as int)) is None,
        decreases splits@.len() - i,
    {
        let ghost now = after@;
        let ghost piece = splits@[i as int]@;
        proof {
            assert(all[i as int] == piece);
            assert(all.take(i + 1).drop_last() =~= all.take(i as int));
            assert(all.take(i + 1).last() == piece);
        }
        match &splits[i] {
            Split::Bytes(range) => {
                match splitter.split(&text[range.start..range.end], range.start, &mut after) {
                    Ok(_) => {},
                    Err(error) => {
                        proof {
                            assert(splits@[i as int]@ is Bytes);
                            if !ran_out(Err::<(), Error>(error)) {
                                lemma_pieces_failure_stays(splitter@, text@, all, i + 1);
                            }
                        }
                        return Err(error);
                    },
                }
            },
            Split::Literal(range) => {
                after.push(Split::Literal(range.start..range.end));
                assert(pieces(after@) =~= pieces(now) + seq![piece]);
            },
        }
        i = i + 1;
    }
    assert(all.take(all.len() as int) =~= all);
    Ok(after)
}

/// Cuts a text with all of the splitters, one after the other.
pub fn cut_all(splitters: &Vec<Splitter>, text: &[u8]) -> (result: Result<Vec<Split>, Error>)
    requires
        forall|i: int| 0 <= i < splitters@.len() ==> rule_steady((#[trigger] splitters@[i])@),
    ensures
        match result {
            Ok(splits) => {
                &&& pieces(splits@) == cut(rules_of(splitters@), text@, splitters@.len())
                &&& searches_sound(rules_of(splitters@), text@, splitters@.len())
                &&& cover(pieces(splits@), 0, text@.len() as int)
                &&& cut_failure(rules_of(splitters@), text@, splitters@.len()) is None
            },
            Err(error) => may_give_up(rules_of(splitters@), text@, error),
        },
{
    let ghost rules = rules_of(splitters@);
    let mut splits: Vec<Split> = Vec::with_capacity(text.len() / 4);
    splits.push(Split::Bytes(0..text.len()));
    let mut n: usize = 0;
    assert(pieces(splits@) =~= cut(rules, text@, 0));
    proof {
        lemma_cut_cover(rules, text@, 0);
    }
    while n < splitters.len()
        invariant
            n <= splitters@.len(),
            rules == rules_of(splitters@),
            forall|i: int| 0 <= i < splitters@.len() ==> rule_steady((#[trigger] splitters@[i])@),
            pieces(splits@) == cut(rules, text@, n as nat),
            searches_sound(rules, text@, n as nat),
            cover(pieces(splits@), 0, text@.len() as int),
            cut_failure(rules, text@, n as nat) is None,
        decreases splitters@.len() - n,
    {
        let ghost before = splits@;
        match cut_with(&splitters[n], text, &splits) {
            Ok(after) => {
                splits = after;
            },
            Err(error) => {
                proof {
                    let rule = splitters@[n as int]@;
                    let e = error->RegexError_0;
                    let i = choose|i: int|
                        {
                            &&& 0 <= i < splits@.len()
                            &&& (#[trigger] splits@[i])@ is Bytes
                            &&& no_memory(e) || piece_failure(rule, text@, splits@[i]@) == Some(
                                error_code(e),
                            )
                        };
                    assert(rules[n as int] == rule);
                    assert(cut(rules, text@, n as nat)[i] == splits@[i]@);
                    assert(gives_up_at(rules, text@, n as nat, i, error));
                    if !ran_out(Err::<(), Error>(error)) {
                        assert(cut_failure(rules, text@, (n + 1) as nat) is Some);
                        lemma_cut_failure_stays(rules, text@, (n + 1) as nat, rules.len());
                    }
                }
                return Err(error);
            },
        }
        proof {
            assert(rules[n as int] == splitters@[n as int]@);
            assert forall|k: nat, i: int|
                k < n + 1 && 0 <= i < cut(rules, text@, k).len() implies piece_sound(
                rules[k as int],
                text@,
                #[trigger] cut(rules, text@, k)[i],
            ) by {
                if k == n {
                    assert(cut(rules, text@, k)[i] == before[i]@);
                }
            }
            lemma_cut_cover(rules, text@, (n + 1) as nat);
        }
        n = n + 1;
    }
    Ok(splits)
}

} // verus!
