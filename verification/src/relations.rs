//! How the answers to several calls go together.
use vstd::prelude::*;

use crate::batch::may_encode_batch;
use crate::error::{error_code, ran_out, Error};
use crate::search::{
    found_literals, last_end, literal_matches, longest_at, regex_spans, stands_at,
};
use crate::splitters::{
    all_moved, cut, cut_failure, cut_piece, cut_pieces, lemma_cover_bounds, lemma_cut_cover,
    may_split, piece_failure, pieces_at, pieces_failure, rule_pieces, searches_sound, Piece,
    SplitRule,
};
use crate::tokenizer::{
    assembled, encoded, literals_of, may_encode, piece_ranks, pieces_ranks, Model,
};
use crate::words::WordSplitter;
use crate::Rank;

verus! {

/// The errors say the same: they name the same text, or have the same code.
pub open spec fn same_error(a: Error, b: Error) -> bool {
    match (a, b) {
        (Error::NoValidToken(x), Error::NoValidToken(y)) => x@ == y@,
        (Error::RegexError(x), Error::RegexError(y)) => error_code(x) == error_code(y),
        _ => false,
    }
}

/// The two answers are the same: the same value, or errors that say the same.
pub open spec fn same_answer<T>(a: Result<T, Error>, b: Result<T, Error>) -> bool {
    match (a, b) {
        (Ok(x), Ok(y)) => x == y,
        (Err(x), Err(y)) => same_error(x, y),
        _ => false,
    }
}

/// Splitting a text that stands somewhere in the whole gives the pieces of the text by itself,
/// moved there, and the same answer. This is so unless a search runs out of memory. Only a search
/// with a pattern can be given up.
pub proof fn lemma_split_moves(
    rule: SplitRule,
    text: Seq<u8>,
    answer: Result<(), Error>,
    alone: Seq<Piece>,
    offset: int,
    before: Seq<Piece>,
    result: Result<(), Error>,
    after: Seq<Piece>,
)
    requires
        may_split(rule, text, 0, Seq::empty(), answer, alone),
        may_split(rule, text, offset, before, result, after),
        !ran_out(answer),
        !ran_out(result),
    ensures
        same_answer(answer, result),
        after == before + all_moved(alone, offset),
        !(rule is Pattern) ==> result is Ok,
{
    let none: Seq<Piece> = Seq::empty();
    if answer is Ok {
        let made = rule_pieces(rule, text);
        assert(alone =~= made) by {
            assert(all_moved(made, 0) =~= made);
        }
    } else if let SplitRule::Pattern(pattern, engine) = rule {
        let spans = regex_spans(pattern, engine, text);
        let made = pieces_at(spans, 0, last_end(spans), false);
        assert(alone =~= made) by {
            assert(all_moved(made, 0) =~= made);
            assert(none + made =~= made);
        }
    }
}

/// The tokens of pieces do not depend on what is put before texts.
proof fn lemma_prefix_unused(model: Model, other: Model, text: Seq<u8>, pieces: Seq<Piece>)
    requires
        model.vocab == other.vocab,
        model.specials == other.specials,
        model.words == other.words,
    ensures
        pieces_ranks(model, text, pieces) == pieces_ranks(other, text, pieces),
    decreases pieces.len(),
{
    if pieces.len() > 0 {
        lemma_prefix_unused(model, other, text, pieces.drop_last());
        assert(piece_ranks(model, text, pieces.last()) == piece_ranks(
            other,
            text,
            pieces.last(),
        ));
    }
}

/// Encoding with a prefix is encoding the text with the prefix before it, without one: the same
/// answers may be given, and the answers are the same, unless a search runs out of memory.
pub proof fn lemma_prefix_is_text(
    vocab: Seq<(Seq<u8>, Rank)>,
    specials: Seq<(Seq<u8>, Rank)>,
    merges: Option<Seq<(Seq<u8>, Seq<u8>)>>,
    prefix: Seq<u8>,
    rules: Seq<SplitRule>,
    words: WordSplitter,
    text: Seq<u8>,
    x: Result<Seq<Rank>, Error>,
    y: Result<Seq<Rank>, Error>,
)
    ensures
        ({
            let with = assembled(vocab, specials, merges, Some(prefix), rules, words);
            let without = assembled(vocab, specials, merges, None, rules, words);
            &&& encoded(with, text) == encoded(without, prefix + text)
            &&& may_encode(with, text, x) <==> may_encode(without, prefix + text, x)
            &&& may_encode(with, text, x) && may_encode(without, prefix + text, y) && !ran_out(x)
                && !ran_out(y) ==> same_answer(x, y)
        }),
{
    let with = assembled(vocab, specials, merges, Some(prefix), rules, words);
    let without = assembled(vocab, specials, merges, None, rules, words);
    let whole = prefix + text;
    lemma_prefix_unused(with, without, whole, cut(with.rules, whole, with.rules.len()));
}

/// Encoding a text always gives the same answer, unless a search runs out of memory.
pub proof fn lemma_one_answer(
    model: Model,
    text: Seq<u8>,
    a: Result<Seq<Rank>, Error>,
    b: Result<Seq<Rank>, Error>,
)
    requires
        may_encode(model, text, a),
        may_encode(model, text, b),
        !ran_out(a),
        !ran_out(b),
    ensures
        same_answer(a, b),
{
}

/// A batch succeeds if and only if each of its texts does, with the same ranks in the order of the
/// texts; else its error is that of one of the texts. This is so unless a search runs out of
/// memory.
pub proof fn lemma_batch(
    model: Model,
    texts: Seq<Seq<u8>>,
    each: Seq<Result<Seq<Rank>, Error>>,
    batch: Result<Seq<Seq<Rank>>, Error>,
)
    requires
        each.len() == texts.len(),
        forall|i: int|
            0 <= i < texts.len() ==> may_encode(model, texts[i], #[trigger] each[i]) && !ran_out(
                each[i],
            ),
        may_encode_batch(model, texts, batch),
        !ran_out(batch),
    ensures
        batch is Ok <==> forall|i: int| 0 <= i < each.len() ==> (#[trigger] each[i]) is Ok,
        batch matches Ok(all) ==> all.len() == texts.len() && forall|i: int|
            0 <= i < texts.len() ==> #[trigger] each[i] == Ok::<Seq<Rank>, Error>(all[i]),
        batch matches Err(error) ==> exists|i: int|
            0 <= i < texts.len() && same_answer(#[trigger] each[i], Err(error)),
{
    match batch {
        Ok(all) => {
            assert forall|i: int| 0 <= i < texts.len() implies #[trigger] each[i] == Ok::<
                Seq<Rank>,
                Error,
            >(all[i]) by {
                assert(may_encode(model, texts[i], Ok(all[i])));
                lemma_one_answer(model, texts[i], each[i], Ok(all[i]));
            }
        },
        Err(error) => {
            let i = choose|i: int|
                0 <= i < texts.len() && may_encode(model, #[trigger] texts[i], Err(error));
            lemma_one_answer(model, texts[i], each[i], Err(error));
            assert(same_answer(each[i], Err(error)));
            assert(!(each[i] is Ok));
        },
    }
}

/// The text stands in the whole at this place.
pub open spec fn part_of(text: Seq<u8>, whole: Seq<u8>, offset: int) -> bool {
    &&& 0 <= offset
    &&& offset + text.len() <= whole.len()
    &&& whole.subrange(offset, offset + text.len()) == text
}

/// The pieces lie in a text of this length.
pub open spec fn within(pieces: Seq<Piece>, len: int) -> bool {
    forall|i: int|
        0 <= i < pieces.len() ==> 0 <= (#[trigger] pieces[i]).start() <= pieces[i].end() <= len
}

proof fn lemma_same_bytes(text: Seq<u8>, whole: Seq<u8>, offset: int, piece: Piece)
    requires
        part_of(text, whole, offset),
        0 <= piece.start() <= piece.end() <= text.len(),
    ensures
        whole.subrange(piece.moved(offset).start(), piece.moved(offset).end()) == text.subrange(
            piece.start(),
            piece.end(),
        ),
{
    let part = whole.subrange(offset, offset + text.len());
    assert(whole.subrange(piece.start() + offset, piece.end() + offset) =~= part.subrange(
        piece.start(),
        piece.end(),
    ));
}

proof fn lemma_within_init(pieces: Seq<Piece>, len: int)
    requires
        within(pieces, len),
        pieces.len() > 0,
    ensures
        within(pieces.drop_last(), len),
        0 <= pieces.last().start() <= pieces.last().end() <= len,
{
    let init = pieces.drop_last();
    assert forall|i: int| 0 <= i < init.len() implies 0 <= (#[trigger] init[i]).start()
        <= init[i].end() <= len by {
        assert(init[i] == pieces[i]);
    }
    assert(pieces[pieces.len() - 1] == pieces.last());
}

/// A rule makes the same of the pieces of a text wherever the text stands.
proof fn lemma_cut_pieces_moved(
    rule: SplitRule,
    text: Seq<u8>,
    whole: Seq<u8>,
    offset: int,
    pieces: Seq<Piece>,
)
    requires
        part_of(text, whole, offset),
        within(pieces, text.len() as int),
    ensures
        cut_pieces(rule, whole, all_moved(pieces, offset)) == all_moved(
            cut_pieces(rule, text, pieces),
            offset,
        ),
    decreases pieces.len(),
{
    let there = all_moved(pieces, offset);
    if pieces.len() == 0 {
        assert(cut_pieces(rule, whole, there) =~= all_moved(
            cut_pieces(rule, text, pieces),
            offset,
        ));
    } else {
        let init = pieces.drop_last();
        let last = pieces.last();
        lemma_within_init(pieces, text.len() as int);
        lemma_cut_pieces_moved(rule, text, whole, offset, init);
        lemma_same_bytes(text, whole, offset, last);
        assert(there.drop_last() =~= all_moved(init, offset));
        assert(there.last() == last.moved(offset));
        let made = cut_piece(rule, text, last);
        assert(cut_piece(rule, whole, last.moved(offset)) =~= all_moved(made, offset));
        assert(all_moved(cut_pieces(rule, text, init) + made, offset) =~= all_moved(
            cut_pieces(rule, text, init),
            offset,
        ) + all_moved(made, offset));
    }
}

proof fn lemma_cut_pieces_append(rule: SplitRule, text: Seq<u8>, a: Seq<Piece>, b: Seq<Piece>)
    ensures
        cut_pieces(rule, text, a + b) == cut_pieces(rule, text, a) + cut_pieces(rule, text, b),
    decreases b.len(),
{
    if b.len() == 0 {
        assert(a + b =~= a);
        assert(cut_pieces(rule, text, a) + cut_pieces(rule, text, b) =~= cut_pieces(rule, text, a));
    } else {
        lemma_cut_pieces_append(rule, text, a, b.drop_last());
        assert((a + b).drop_last() =~= a + b.drop_last());
        assert((a + b).last() == b.last());
        assert(cut_pieces(rule, text, a + b) =~= cut_pieces(rule, text, a) + cut_pieces(
            rule,
            text,
            b,
        ));
    }
}

/// Searches in the pieces of a text are given up alike wherever the text stands.
proof fn lemma_failure_moved(
    rule: SplitRule,
    text: Seq<u8>,
    whole: Seq<u8>,
    offset: int,
    pieces: Seq<Piece>,
)
    requires
        part_of(text, whole, offset),
        within(pieces, text.len() as int),
    ensures
        pieces_failure(rule, whole, all_moved(pieces, offset)) == pieces_failure(
            rule,
            text,
            pieces,
        ),
    decreases pieces.len(),
{
    let there = all_moved(pieces, offset);
    if pieces.len() > 0 {
        let init = pieces.drop_last();
        let last = pieces.last();
        lemma_within_init(pieces, text.len() as int);
        lemma_failure_moved(rule, text, whole, offset, init);
        lemma_same_bytes(text, whole, offset, last);
        assert(there.drop_last() =~= all_moved(init, offset));
        assert(there.last() == last.moved(offset));
        assert(piece_failure(rule, whole, there.last()) == piece_failure(rule, text, last));
    }
}

/// Where no search is given up in the first pieces nor in the others, none is.
proof fn lemma_failure_append(rule: SplitRule, text: Seq<u8>, a: Seq<Piece>, b: Seq<Piece>)
    requires
        pieces_failure(rule, text, a) is None,
        pieces_failure(rule, text, b) is None,
    ensures
        pieces_failure(rule, text, a + b) is None,
    decreases b.len(),
{
    if b.len() == 0 {
        assert(a + b =~= a);
    } else {
        lemma_failure_append(rule, text, a, b.drop_last());
        assert((a + b).drop_last() =~= a + b.drop_last());
        assert((a + b).last() == b.last());
    }
}

/// The pieces of a text have the same tokens wherever the text stands.
proof fn lemma_ranks_moved(
    model: Model,
    text: Seq<u8>,
    whole: Seq<u8>,
    offset: int,
    pieces: Seq<Piece>,
)
    requires
        part_of(text, whole, offset),
        within(pieces, text.len() as int),
    ensures
        pieces_ranks(model, whole, all_moved(pieces, offset)) == pieces_ranks(model, text, pieces),
    decreases pieces.len(),
{
    let there = all_moved(pieces, offset);
    if pieces.len() > 0 {
        let init = pieces.drop_last();
        let last = pieces.last();
        lemma_within_init(pieces, text.len() as int);
        lemma_ranks_moved(model, text, whole, offset, init);
        lemma_same_bytes(text, whole, offset, last);
        assert(there.drop_last() =~= all_moved(init, offset));
        assert(there.last() == last.moved(offset));
        assert(piece_ranks(model, whole, there.last()) == piece_ranks(model, text, last));
    }
}

/// Pieces one after the other have the tokens of the first, then those of the others.
proof fn lemma_ranks_append(model: Model, text: Seq<u8>, a: Seq<Piece>, b: Seq<Piece>)
    requires
        pieces_ranks(model, text, a) is Ok,
        pieces_ranks(model, text, b) is Ok,
    ensures
        pieces_ranks(model, text, a + b) == Ok::<Seq<Rank>, Seq<u8>>(
            pieces_ranks(model, text, a)->Ok_0 + pieces_ranks(model, text, b)->Ok_0,
        ),
    decreases b.len(),
{
    let first = pieces_ranks(model, text, a)->Ok_0;
    if b.len() == 0 {
        assert(a + b =~= a);
        assert(first + Seq::<Rank>::empty() =~= first);
    } else {
        lemma_ranks_append(model, text, a, b.drop_last());
        assert((a + b).drop_last() =~= a + b.drop_last());
        assert((a + b).last() == b.last());
        let middle = pieces_ranks(model, text, b.drop_last())->Ok_0;
        let last = piece_ranks(model, text, b.last())->Ok_0;
        assert(first + (middle + last) =~= (first + middle) + last);
    }
}

pub open spec fn spans_moved(spans: Seq<(int, int)>, by: int) -> Seq<(int, int)> {
    spans.map_values(|span: (int, int)| (span.0 + by, span.1 + by))
}

proof fn lemma_pieces_at_moved(
    spans: Seq<(int, int)>,
    start: int,
    len: int,
    literal: bool,
    by: int,
)
    ensures
        pieces_at(spans_moved(spans, by), start + by, len + by, literal) == all_moved(
            pieces_at(spans, start, len, literal),
            by,
        ),
    decreases spans.len(),
{
    let there = spans_moved(spans, by);
    if spans.len() > 0 {
        assert(there.drop_first() =~= spans_moved(spans.drop_first(), by));
        lemma_pieces_at_moved(spans.drop_first(), spans[0].1, len, literal, by);
    }
    assert(pieces_at(there, start + by, len + by, literal) =~= all_moved(
        pieces_at(spans, start, len, literal),
        by,
    ));
}

/// Of a single literal the longest is that literal, where it stands.
proof fn lemma_longest_of_one(literal: Seq<u8>, text: Seq<u8>, i: int, least: int)
    requires
        0 <= least <= 1,
        literal.len() > 0,
    ensures
        longest_at(seq![literal], text, i, least) == (if stands_at(literal, text, i) {
            Some(literal.len() as int)
        } else {
            None
        }),
{
    let one = seq![literal];
    assert(one.drop_last() =~= Seq::empty());
    assert(longest_at(one.drop_last(), text, i, least) is None);
}

/// Up to the first place where the literal stands nothing is found.
proof fn lemma_search_from(literal: Seq<u8>, text: Seq<u8>, from: int, to: int)
    requires
        literal.len() > 0,
        0 <= from <= to,
        forall|i: int| from <= i < to ==> !#[trigger] stands_at(literal, text, i),
    ensures
        literal_matches(seq![literal], text, from, false) == literal_matches(
            seq![literal],
            text,
            to,
            false,
        ),
    decreases to - from,
{
    if from < to {
        assert(!stands_at(literal, text, from));
        lemma_longest_of_one(literal, text, from, 0);
        lemma_search_from(literal, text, from + 1, to);
        if from > text.len() {
            assert(literal_matches(seq![literal], text, from, false) =~= literal_matches(
                seq![literal],
                text,
                to,
                false,
            ));
        }
    }
}

/// A search goes on in the same way after a match, and wherever the text stands.
proof fn lemma_search_moved(
    literal: Seq<u8>,
    text: Seq<u8>,
    whole: Seq<u8>,
    offset: int,
    i: int,
    after_match: bool,
)
    requires
        literal.len() > 0,
        part_of(text, whole, offset),
        offset + text.len() == whole.len(),
        0 <= i,
    ensures
        literal_matches(seq![literal], whole, offset + i, after_match) == spans_moved(
            literal_matches(seq![literal], text, i, false),
            offset,
        ),
    decreases text.len() + 1 - i,
{
    let one = seq![literal];
    let here = literal_matches(one, text, i, false);
    let there = literal_matches(one, whole, offset + i, after_match);
    if i <= text.len() {
        let least = if after_match { 1int } else { 0int };
        lemma_longest_of_one(literal, text, i, 0);
        lemma_longest_of_one(literal, whole, offset + i, least);
        if i + literal.len() <= text.len() {
            let part = whole.subrange(offset, offset + text.len());
            assert(whole.subrange(offset + i, offset + i + literal.len()) =~= part.subrange(
                i,
                i + literal.len(),
            ));
        }
        assert(stands_at(literal, whole, offset + i) == stands_at(literal, text, i));
        if stands_at(literal, text, i) {
            let next = i + literal.len();
            lemma_search_moved(literal, text, whole, offset, next, true);
            assert(text.subrange(0, text.len() as int) =~= text);
            lemma_search_moved(literal, text, text, 0, next, true);
            let rest = literal_matches(one, text, next, false);
            assert(spans_moved(rest, 0) =~= rest);
            assert(here =~= seq![(i, next)] + rest);
            assert(there =~= seq![(offset + i, offset + next)] + spans_moved(rest, offset));
        } else {
            lemma_search_moved(literal, text, whole, offset, i + 1, false);
        }
    }
    assert(there =~= spans_moved(here, offset));
}

/// The first place at which the literal stands is between the two texts.
pub open spec fn first_between(a: Seq<u8>, literal: Seq<u8>, b: Seq<u8>) -> bool {
    forall|i: int| 0 <= i < a.len() ==> !#[trigger] stands_at(literal, a + literal + b, i)
}

/// What is found of the literal in the whole: itself between the two texts, and what is found in
/// the second; nothing is found in the first.
proof fn lemma_found_between(a: Seq<u8>, literal: Seq<u8>, b: Seq<u8>)
    requires
        literal.len() > 0,
        first_between(a, literal, b),
    ensures
        found_literals(seq![literal], a) == Seq::<(int, int)>::empty(),
        found_literals(seq![literal], a + literal + b) == seq![
            (a.len() as int, (a.len() + literal.len()) as int),
        ] + spans_moved(
            found_literals(seq![literal], b),
            (a.len() + literal.len()) as int,
        ),
{
    let one = seq![literal];
    let whole = a + literal + b;
    let at = a.len() as int;
    let offset = (a.len() + literal.len()) as int;
    let none: Seq<u8> = Seq::empty();
    assert(!one.contains(none)) by {
        if one.contains(none) {
            let k = one.index_of(none);
            assert(one[k].len() == 0);
        }
    }
    assert forall|i: int| 0 <= i < at + 1 implies !#[trigger] stands_at(literal, a, i) by {
        if stands_at(literal, a, i) {
            assert(whole.subrange(i, i + literal.len()) =~= a.subrange(i, i + literal.len()));
            assert(stands_at(literal, whole, i));
        }
    }
    lemma_search_from(literal, a, 0, at + 1);
    assert(literal_matches(one, a, at + 1, false) =~= Seq::empty());
    lemma_search_from(literal, whole, 0, at);
    assert(whole.subrange(at, at + literal.len()) =~= literal);
    assert(stands_at(literal, whole, at));
    lemma_longest_of_one(literal, whole, at, 0);
    assert(whole.subrange(offset, offset + b.len()) =~= b);
    lemma_search_moved(literal, b, whole, offset, 0, true);
    assert(found_literals(one, whole) =~= seq![(at, offset)] + spans_moved(
        found_literals(one, b),
        offset,
    ));
}

/// However many rules have cut the whole, the literal is a piece of its own, on its two sides are
/// the pieces of the two texts, and no search is given up where none is in the two texts.
proof fn lemma_cut_between(
    rules: Seq<SplitRule>,
    a: Seq<u8>,
    literal: Seq<u8>,
    b: Seq<u8>,
    n: nat,
)
    requires
        literal.len() > 0,
        first_between(a, literal, b),
        1 <= n <= rules.len() + 1,
        ({
            let all = seq![SplitRule::Literals(seq![literal])] + rules;
            &&& searches_sound(all, a, n) && searches_sound(all, b, n)
            &&& cut_failure(all, a, n) is None && cut_failure(all, b, n) is None
        }),
    ensures
        ({
            let all = seq![SplitRule::Literals(seq![literal])] + rules;
            let offset = (a.len() + literal.len()) as int;
            &&& cut(all, a + literal + b, n) == cut(all, a, n).push(
                Piece::Literal(a.len() as int, offset),
            ) + all_moved(cut(all, b, n), offset)
            &&& cut_failure(all, a + literal + b, n) is None
        }),
    decreases n,
{
    let all = seq![SplitRule::Literals(seq![literal])] + rules;
    let whole = a + literal + b;
    let at = a.len() as int;
    let offset = (a.len() + literal.len()) as int;
    let middle = Piece::Literal(at, offset);
    if n == 1 {
        let one = seq![literal];
        lemma_found_between(a, literal, b);
        lemma_cut_first(all, whole);
        lemma_cut_first(all, a);
        lemma_cut_first(all, b);
        let rest = found_literals(one, b);
        lemma_pieces_at_moved(rest, 0, b.len() as int, true, offset);
        let spans = seq![(at, offset)] + spans_moved(rest, offset);
        assert(spans.drop_first() =~= spans_moved(rest, offset));
        assert(cut(all, whole, n) =~= cut(all, a, n).push(middle) + all_moved(
            cut(all, b, n),
            offset,
        ));
        let start = cut(all, whole, 0);
        let none: Seq<Piece> = Seq::empty();
        assert(start.drop_last() =~= none);
        assert(pieces_failure(all[0], whole, none) is None);
        assert(piece_failure(all[0], whole, start.last()) is None);
        assert(cut_failure(all, whole, 0) is None);
    } else {
        let k = (n - 1) as nat;
        lemma_cut_between(rules, a, literal, b, k);
        let rule = all[k as int];
        let (left, right) = (cut(all, a, k), cut(all, b, k));
        lemma_cut_cover(all, a, k);
        lemma_cut_cover(all, b, k);
        lemma_cover_bounds(left, 0, a.len() as int);
        lemma_cover_bounds(right, 0, b.len() as int);
        assert(whole.subrange(0, at) =~= a);
        assert(whole.subrange(offset, offset + b.len()) =~= b);
        lemma_cut_pieces_moved(rule, a, whole, 0, left);
        lemma_cut_pieces_moved(rule, b, whole, offset, right);
        assert(all_moved(left, 0) =~= left);
        let left_after = cut_pieces(rule, a, left);
        assert(all_moved(left_after, 0) =~= left_after);
        lemma_cut_pieces_append(rule, whole, left.push(middle), all_moved(right, offset));
        assert(left.push(middle).drop_last() =~= left);
        assert(cut_pieces(rule, whole, left.push(middle)) =~= left_after.push(middle));
        lemma_failure_moved(rule, a, whole, 0, left);
        lemma_failure_moved(rule, b, whole, offset, right);
        lemma_failure_append(rule, whole, left.push(middle), all_moved(right, offset));
    }
}

/// The first rule cuts the whole text.
proof fn lemma_cut_first(rules: Seq<SplitRule>, text: Seq<u8>)
    requires
        rules.len() > 0,
    ensures
        cut(rules, text, 1) == rule_pieces(rules[0], text),
{
    let none: Seq<Piece> = Seq::empty();
    let whole = seq![Piece::Bytes(0, text.len() as int)];
    let made = rule_pieces(rules[0], text);
    assert(cut(rules, text, 0) == whole);
    assert(whole.drop_last() =~= none);
    assert(text.subrange(0, text.len() as int) =~= text);
    assert(all_moved(made, 0) =~= made);
    assert(cut_pieces(rules[0], text, none) =~= none);
    assert(cut_pieces(rules[0], text, whole) =~= made);
}

/// A special token separates the text on its two sides: the whole has the tokens of the first side,
/// the special token, and the tokens of the other side. This is so unless a search runs out of
/// memory.
pub proof fn lemma_special_separates(
    vocab: Seq<(Seq<u8>, Rank)>,
    special: Seq<u8>,
    rank: Rank,
    merges: Option<Seq<(Seq<u8>, Seq<u8>)>>,
    rules: Seq<SplitRule>,
    words: WordSplitter,
    a: Seq<u8>,
    b: Seq<u8>,
    x: Seq<Rank>,
    y: Seq<Rank>,
    result: Result<Seq<Rank>, Error>,
)
    requires
        special.len() > 0,
        first_between(a, special, b),
        ({
            let model = assembled(vocab, seq![(special, rank)], merges, None, rules, words);
            &&& may_encode(model, a, Ok(x))
            &&& may_encode(model, b, Ok(y))
            &&& may_encode(model, a + special + b, result)
        }),
        !ran_out(result),
    ensures
        result == Ok::<Seq<Rank>, Error>(x.push(rank) + y),
{
    let specials = seq![(special, rank)];
    let model = assembled(vocab, specials, merges, None, rules, words);
    let whole = a + special + b;
    let at = a.len() as int;
    let offset = (a.len() + special.len()) as int;
    let middle = Piece::Literal(at, offset);
    let n = model.rules.len();
    assert(literals_of(specials) =~= seq![special]);
    lemma_cut_between(rules, a, special, b, n);
    let (left, right) = (cut(model.rules, a, n), cut(model.rules, b, n));
    lemma_cut_cover(model.rules, a, n);
    lemma_cut_cover(model.rules, b, n);
    lemma_cover_bounds(left, 0, a.len() as int);
    lemma_cover_bounds(right, 0, b.len() as int);
    assert(whole.subrange(0, at) =~= a);
    assert(whole.subrange(at, offset) =~= special);
    assert(whole.subrange(offset, offset + b.len()) =~= b);
    lemma_ranks_moved(model, a, whole, 0, left);
    lemma_ranks_moved(model, b, whole, offset, right);
    assert(all_moved(left, 0) =~= left);
    assert(specials.drop_last() =~= Seq::empty());
    assert(model.specials.contains_key(special) && model.specials[special].rank == rank);
    assert(left.push(middle).drop_last() =~= left);
    assert(x + seq![rank] =~= x.push(rank));
    assert(pieces_ranks(model, whole, left.push(middle)) == Ok::<Seq<Rank>, Seq<u8>>(
        x.push(rank),
    ));
    lemma_ranks_append(model, whole, left.push(middle), all_moved(right, offset));
}

} // verus!
