//! What the pieces of a text are: what each rule cuts out of what the rules before it leave.
use vstd::prelude::*;

use crate::error::{error_code, no_memory, Error};
use crate::search::{
    automaton_spans, found_literals, in_order, last_end, lemma_in_order_last, lemma_longest_bounds,
    lemma_longest_is_longest, literal_matches, longest_at, may_find, regex_failure, regex_spans,
    stands_at,
};
use crate::splitters::{
    all_moved, cover, cut, cut_failure, cut_piece, cut_pieces, gives_up_at, lemma_cover_bounds,
    lemma_cut_cover, may_give_up, may_split, piece_failure, piece_sound, pieces_at,
    pieces_before_runs, pieces_failure, rule_failure, rule_pieces, rule_sound, run_begins,
    searches_sound, Piece, SplitRule,
};

verus! {

/// The pieces stand one after the other, the first begins at `start` and the last ends at `end`.
pub open spec fn joins(pieces: Seq<Piece>, start: int, end: int) -> bool {
    &&& pieces.len() == 0 ==> start == end
    &&& pieces.len() > 0 ==> pieces[0].start() == start && pieces.last().end() == end
    &&& forall|i: int, j: int|
        #![trigger pieces[i], pieces[j]]
        0 <= i && j == i + 1 && j < pieces.len() ==> pieces[i].end() == pieces[j].start()
}

/// The pieces of a text that stands at `offset`, from its byte `start` to its byte `end`, with each
/// of the spans as a piece of its own: the `k`-th span is the piece at the `k`-th of the places
/// `at`. What is left between spans is not empty and is not cut.
pub open spec fn spans_apart(
    spans: Seq<(int, int)>,
    start: int,
    end: int,
    offset: int,
    literal: bool,
    pieces: Seq<Piece>,
    at: Seq<int>,
) -> bool {
    &&& joins(pieces, offset + start, offset + end)
    &&& at.len() == spans.len()
    &&& forall|k: int| 0 <= k < at.len() ==> 0 <= #[trigger] at[k] < pieces.len()
    &&& forall|j: int, k: int| 0 <= j < k < at.len() ==> #[trigger] at[j] < #[trigger] at[k]
    &&& forall|k: int|
        0 <= k < at.len() ==> pieces[#[trigger] at[k]] == (if literal {
            Piece::Literal(offset + spans[k].0, offset + spans[k].1)
        } else {
            Piece::Bytes(offset + spans[k].0, offset + spans[k].1)
        })
    &&& forall|i: int|
        0 <= i < pieces.len() && !at.contains(i) ==> {
            &&& (#[trigger] pieces[i]) is Bytes
            &&& pieces[i].start() < pieces[i].end()
        }
    &&& forall|i: int, j: int|
        #![trigger at.contains(i), at.contains(j)]
        0 <= i && j == i + 1 && j < pieces.len() ==> at.contains(i) || at.contains(j)
}

/// The pieces of a text that stands at `offset`, cut before each run of the delimiter and nowhere
/// else.
pub open spec fn runs_apart(
    text: Seq<u8>,
    delimiter: u8,
    offset: int,
    pieces: Seq<Piece>,
) -> bool {
    &&& joins(pieces, offset, offset + text.len())
    &&& pieces.len() > 0
    &&& forall|i: int| 0 <= i < pieces.len() ==> (#[trigger] pieces[i]) is Bytes
    &&& forall|i: int|
        0 < i < pieces.len() ==> {
            let at = (#[trigger] pieces[i]).start() - offset;
            0 < at < text.len() && text[at - 1] != delimiter && text[at] == delimiter
        }
    &&& forall|at: int|
        0 < at < text.len() && text[at - 1] != delimiter && #[trigger] text[at] == delimiter
            ==> exists|i: int|
            0 < i < pieces.len() && (#[trigger] pieces[i]).start() == offset + at
    &&& forall|i: int, j: int|
        0 <= i < j < pieces.len() ==> (#[trigger] pieces[i]).start() < (
        #[trigger] pieces[j]).start()
}

/// The pieces of a text that stands at `offset`, cut at what the rule looks for: at each literal,
/// at each match of the pattern, in a search that is not given up, or before each run of the
/// delimiter.
pub open spec fn cut_out(rule: SplitRule, text: Seq<u8>, offset: int, made: Seq<Piece>) -> bool {
    match rule {
        SplitRule::Literals(literals) => exists|at: Seq<int>|
            spans_apart(
                found_literals(literals, text),
                0,
                text.len() as int,
                offset,
                true,
                made,
                at,
            ),
        SplitRule::Pattern(pattern, engine) => {
            &&& regex_failure(pattern, engine, text) is None
            &&& exists|at: Seq<int>|
                spans_apart(
                    regex_spans(pattern, engine, text),
                    0,
                    text.len() as int,
                    offset,
                    false,
                    made,
                    at,
                )
        },
        SplitRule::Delimiter(delimiter) => runs_apart(text, delimiter, offset, made),
    }
}

/// What is made of one piece: a literal stays as it is, and any other piece is cut.
pub open spec fn made_of(rule: SplitRule, text: Seq<u8>, piece: Piece, made: Seq<Piece>) -> bool {
    match piece {
        Piece::Literal(_, _) => made == seq![piece],
        Piece::Bytes(start, end) => cut_out(rule, text.subrange(start, end), start, made),
    }
}

/// The rule cuts each of the pieces, and what it makes of them comes one after the other.
pub open spec fn cuts_each(
    rule: SplitRule,
    text: Seq<u8>,
    before: Seq<Piece>,
    after: Seq<Piece>,
) -> bool {
    exists|made: Seq<Seq<Piece>>|
        {
            &&& made.len() == before.len()
            &&& after == #[trigger] made.flatten()
            &&& forall|i: int|
                0 <= i < before.len() ==> made_of(rule, text, before[i], #[trigger] made[i])
        }
}

/// The pieces of a text: it is one piece at first, and then each of the rules, in their order, cuts
/// each of the pieces.
pub open spec fn cut_by_rules(rules: Seq<SplitRule>, text: Seq<u8>, pieces: Seq<Piece>) -> bool {
    exists|levels: Seq<Seq<Piece>>|
        {
            &&& levels.len() == rules.len() + 1
            &&& levels[0] == seq![Piece::Bytes(0, text.len() as int)]
            &&& #[trigger] levels.last() == pieces
            &&& forall|k: int, n: int|
                #![trigger levels[k], levels[n]]
                0 <= k < rules.len() && n == k + 1 ==> cuts_each(
                    rules[k],
                    text,
                    levels[k],
                    levels[n],
                )
        }
}

proof fn lemma_joins_append(a: Seq<Piece>, b: Seq<Piece>, start: int, middle: int, end: int)
    requires
        joins(a, start, middle),
        joins(b, middle, end),
    ensures
        joins(a + b, start, end),
{
    let all = a + b;
    assert forall|i: int, j: int|
        #![trigger all[i], all[j]]
        0 <= i && j == i + 1 && j < all.len() implies all[i].end() == all[j].start() by {
        if j < a.len() {
            assert(a[i].end() == a[j].start());
        } else if i >= a.len() {
            assert(b[i - a.len()].end() == b[j - a.len()].start());
        } else {
            assert(all[i] == a.last());
            assert(all[j] == b[0]);
        }
    }
    if b.len() == 0 {
        assert(all =~= a);
    } else {
        assert(all.last() == b.last());
        if a.len() == 0 {
            assert(all =~= b);
        }
    }
}

/// The first span and what is left before it go before the others.
proof fn lemma_one_more_span(
    spans: Seq<(int, int)>,
    start: int,
    end: int,
    offset: int,
    literal: bool,
    head: Seq<Piece>,
    moved: Seq<Piece>,
    places: Seq<int>,
) -> (at: Seq<int>)
    requires
        spans.len() > 0,
        start <= spans[0].0,
        spans_apart(spans.drop_first(), spans[0].1, end, offset, literal, moved, places),
        head.len() == (if start < spans[0].0 { 2nat } else { 1nat }),
        start < spans[0].0 ==> head[0] == Piece::Bytes(offset + start, offset + spans[0].0),
        head.last() == (if literal {
            Piece::Literal(offset + spans[0].0, offset + spans[0].1)
        } else {
            Piece::Bytes(offset + spans[0].0, offset + spans[0].1)
        }),
    ensures
        spans_apart(spans, start, end, offset, literal, head + moved, at),
{
    let rest = spans.drop_first();
    let all = head + moved;
    let skip = head.len() - 1;
    let at = Seq::new(
        spans.len(),
        |k: int|
            if k == 0 {
                skip
            } else {
                places[k - 1] + skip + 1
            },
    );
    assert(head[skip] == head.last());
    assert(joins(head, offset + start, offset + spans[0].1));
    lemma_joins_append(head, moved, offset + start, offset + spans[0].1, offset + end);
    assert forall|k: int| 0 <= k < at.len() implies 0 <= #[trigger] at[k] < all.len() by {
        if k > 0 {
            assert(0 <= places[k - 1] < moved.len());
        }
    }
    assert forall|j: int, k: int| 0 <= j < k < at.len() implies #[trigger] at[j]
        < #[trigger] at[k] by {
        assert(0 <= places[k - 1] < moved.len());
        if j > 0 {
            assert(places[j - 1] < places[k - 1]);
        }
    }
    assert forall|k: int| 0 <= k < at.len() implies all[#[trigger] at[k]] == (if literal {
        Piece::Literal(offset + spans[k].0, offset + spans[k].1)
    } else {
        Piece::Bytes(offset + spans[k].0, offset + spans[k].1)
    }) by {
        if k > 0 {
            assert(0 <= places[k - 1] < moved.len());
            assert(all[at[k]] == moved[places[k - 1]]);
            assert(rest[k - 1] == spans[k]);
        } else {
            assert(all[skip] == head[skip]);
        }
    }
    assert forall|i: int| 0 <= i < all.len() implies #[trigger] at.contains(i) == (i == skip || i
        > skip && places.contains(i - skip - 1)) by {
        if at.contains(i) {
            let k = at.index_of(i);
            if k > 0 {
                assert(places[k - 1] == i - skip - 1);
            }
        }
        if i == skip {
            assert(at[0] == i);
        }
        if i > skip && places.contains(i - skip - 1) {
            let k = places.index_of(i - skip - 1);
            assert(at[k + 1] == i);
        }
    }
    assert forall|i: int| 0 <= i < all.len() && !at.contains(i) implies {
        &&& (#[trigger] all[i]) is Bytes
        &&& all[i].start() < all[i].end()
    } by {
        if i > skip {
            assert(all[i] == moved[i - skip - 1]);
        } else {
            assert(all[i] == head[0]);
        }
    }
    assert forall|i: int, j: int|
        #![trigger at.contains(i), at.contains(j)]
        0 <= i && j == i + 1 && j < all.len() implies at.contains(i) || at.contains(j) by {
        if i > skip {
            let (a, b) = (i - skip - 1, j - skip - 1);
            assert(moved[a] == all[i] && moved[b] == all[j]);
            assert(places.contains(a) || places.contains(b));
        }
    }
    at
}

/// The pieces at spans, from `start` on, are the spans and what is left between them.
pub proof fn lemma_spans_apart(
    spans: Seq<(int, int)>,
    start: int,
    len: int,
    offset: int,
    literal: bool,
) -> (at: Seq<int>)
    requires
        in_order(spans, start, len),
    ensures
        spans_apart(
            spans,
            start,
            len,
            offset,
            literal,
            all_moved(pieces_at(spans, start, len, literal), offset),
            at,
        ),
    decreases spans.len(),
{
    let made = pieces_at(spans, start, len, literal);
    let all = all_moved(made, offset);
    if spans.len() == 0 {
        let at: Seq<int> = Seq::empty();
        if start < len {
            assert(all.len() == 1 && all[0] == Piece::Bytes(offset + start, offset + len));
        }
        assert(joins(all, offset + start, offset + len));
        assert(spans_apart(spans, start, len, offset, literal, all, at));
        at
    } else {
        let rest = spans.drop_first();
        let (first, to) = spans[0];
        let tail = pieces_at(rest, to, len, literal);
        let places = lemma_spans_apart(rest, to, len, offset, literal);
        let between: Seq<Piece> = if start < first {
            seq![Piece::Bytes(start, first)]
        } else {
            Seq::empty()
        };
        let span = if literal {
            Piece::Literal(first, to)
        } else {
            Piece::Bytes(first, to)
        };
        let head = all_moved(between.push(span), offset);
        let moved = all_moved(tail, offset);
        assert(all =~= head + moved);
        assert(head.last() == span.moved(offset));
        lemma_one_more_span(spans, start, len, offset, literal, head, moved, places)
    }
}

/// The pieces before runs, from `start` on.
proof fn lemma_runs_apart(text: Seq<u8>, delimiter: u8, start: int, i: int)
    requires
        0 <= start < i,
        start < text.len() || start == 0,
        forall|at: int|
            start < at < i && at < text.len() ==> !(text[at - 1] != delimiter && #[trigger] text[at]
                == delimiter),
    ensures
        ({
            let made = pieces_before_runs(text, delimiter, start, i);
            &&& joins(made, start, text.len() as int)
            &&& made.len() > 0
            &&& forall|k: int| 0 <= k < made.len() ==> (#[trigger] made[k]) is Bytes
            &&& forall|k: int|
                0 < k < made.len() ==> {
                    let at = (#[trigger] made[k]).start();
                    start < at < text.len() && text[at - 1] != delimiter && text[at] == delimiter
                }
            &&& forall|at: int|
                start < at < text.len() && text[at - 1] != delimiter && #[trigger] text[at]
                    == delimiter ==> exists|k: int|
                    0 < k < made.len() && (#[trigger] made[k]).start() == at
            &&& forall|j: int, k: int|
                0 <= j < k < made.len() ==> (#[trigger] made[j]).start() < (
                #[trigger] made[k]).start()
        }),
    decreases text.len() - i,
{
    let made = pieces_before_runs(text, delimiter, start, i);
    if i < text.len() {
        if run_begins(text, delimiter, i) {
            lemma_runs_apart(text, delimiter, i, i + 1);
            let rest = pieces_before_runs(text, delimiter, i, i + 1);
            let one = seq![Piece::Bytes(start, i)];
            assert(joins(one, start, i));
            lemma_joins_append(one, rest, start, i, text.len() as int);
            assert(made =~= one + rest);
            assert(rest[0].start() == i);
            assert forall|k: int| 0 < k < made.len() implies {
                let at = (#[trigger] made[k]).start();
                start < at < text.len() && text[at - 1] != delimiter && text[at] == delimiter
            } by {
                assert(made[k] == rest[k - 1]);
            }
            assert forall|at: int|
                start < at < text.len() && text[at - 1] != delimiter && #[trigger] text[at]
                    == delimiter implies exists|k: int|
                0 < k < made.len() && (#[trigger] made[k]).start() == at by {
                if at == i {
                    assert(made[1] == rest[0]);
                } else {
                    assert(at > i);
                    let k = choose|k: int|
                        0 < k < rest.len() && (#[trigger] rest[k]).start() == at;
                    assert(made[k + 1] == rest[k]);
                }
            }
            assert forall|j: int, k: int| 0 <= j < k < made.len() implies (
            #[trigger] made[j]).start() < (#[trigger] made[k]).start() by {
                assert(made[k] == rest[k - 1]);
                if j > 0 {
                    assert(made[j] == rest[j - 1]);
                } else if k > 1 {
                    assert(rest[0].start() < rest[k - 1].start());
                }
            }
            assert forall|k: int| 0 <= k < made.len() implies (#[trigger] made[k]) is Bytes by {
                if k > 0 {
                    assert(made[k] == rest[k - 1]);
                }
            }
        } else {
            lemma_runs_apart(text, delimiter, start, i + 1);
        }
    } else {
        assert(made =~= seq![Piece::Bytes(start, text.len() as int)]);
    }
}

/// What a rule makes of a text.
proof fn lemma_cut_out(rule: SplitRule, part: Seq<u8>, start: int)
    requires
        rule_sound(rule, part),
        rule_failure(rule, part) is None,
    ensures
        cut_out(rule, part, start, all_moved(rule_pieces(rule, part), start)),
{
    let len = part.len() as int;
    let made = all_moved(rule_pieces(rule, part), start);
    match rule {
        SplitRule::Literals(literals) => {
            let spans = found_literals(literals, part);
            let at = lemma_spans_apart(spans, 0, len, start, true);
            assert(spans_apart(spans, 0, len, start, true, made, at));
        },
        SplitRule::Pattern(pattern, engine) => {
            let spans = regex_spans(pattern, engine, part);
            let at = lemma_spans_apart(spans, 0, len, start, false);
            assert(spans_apart(spans, 0, len, start, false, made, at));
        },
        SplitRule::Delimiter(delimiter) => {
            lemma_runs_apart(part, delimiter, 0, 1);
            let plain = pieces_before_runs(part, delimiter, 0, 1);
            assert(made == all_moved(plain, start));
            assert forall|i: int| 0 < i < made.len() implies {
                let at = (#[trigger] made[i]).start() - start;
                0 < at < part.len() && part[at - 1] != delimiter && part[at] == delimiter
            } by {
                assert(made[i] == plain[i].moved(start));
            }
            assert forall|at: int|
                0 < at < part.len() && part[at - 1] != delimiter && #[trigger] part[at]
                    == delimiter implies exists|i: int|
                0 < i < made.len() && (#[trigger] made[i]).start() == start + at by {
                let k = choose|k: int|
                    0 < k < plain.len() && (#[trigger] plain[k]).start() == at;
                assert(made[k] == plain[k].moved(start));
            }
            assert forall|i: int, j: int|
                0 <= i < j < made.len() implies (#[trigger] made[i]).start() < (
            #[trigger] made[j]).start() by {
                assert(plain[i].start() < plain[j].start());
            }
            assert(joins(made, start, start + part.len())) by {
                assert forall|i: int, j: int|
                    #![trigger made[i], made[j]]
                    0 <= i && j == i + 1 && j < made.len() implies made[i].end()
                    == made[j].start() by {
                    assert(plain[i].end() == plain[j].start());
                }
                assert(made[0] == plain[0].moved(start));
                assert(made.last() == plain.last().moved(start));
            }
            assert forall|i: int| 0 <= i < made.len() implies (#[trigger] made[i]) is Bytes by {
                assert(plain[i] is Bytes);
            }
        },
    }
}

/// What a rule makes of a piece.
proof fn lemma_made(rule: SplitRule, text: Seq<u8>, piece: Piece)
    requires
        0 <= piece.start() <= piece.end() <= text.len(),
        piece_sound(rule, text, piece),
        piece_failure(rule, text, piece) is None,
    ensures
        made_of(rule, text, piece, cut_piece(rule, text, piece)),
{
    if let Piece::Bytes(start, end) = piece {
        lemma_cut_out(rule, text.subrange(start, end), start);
    }
}

/// Splitting appends the pieces that the splitter cuts out of the text, and leaves those before as
/// they are. Where a search is given up, the matches up to there are cut out, which are the first
/// of all matches, and what comes after the last of them is left out.
pub proof fn lemma_split_cuts_out(
    rule: SplitRule,
    text: Seq<u8>,
    offset: int,
    before: Seq<Piece>,
    result: Result<(), Error>,
    after: Seq<Piece>,
)
    requires
        may_split(rule, text, offset, before, result, after),
    ensures
        result is Ok ==> exists|made: Seq<Piece>|
            after == before + made && #[trigger] cut_out(rule, text, offset, made),
        result is Err ==> rule is Pattern && exists|
            spans: Seq<(int, int)>,
            end: int,
            made: Seq<Piece>,
            at: Seq<int>,
        |
            {
                &&& after == before + made
                &&& spans.len() == 0 ==> end == 0
                &&& spans.len() > 0 ==> end == spans.last().1
                &&& spans.is_prefix_of(regex_spans(rule->Pattern_0, rule->Pattern_1, text))
                &&& #[trigger] spans_apart(
                    spans,
                    0,
                    end,
                    offset,
                    false,
                    made,
                    at,
                )
            },
{
    if result is Ok {
        lemma_cut_out(rule, text, offset);
        let made = all_moved(rule_pieces(rule, text), offset);
        assert(after == before + made && cut_out(rule, text, offset, made));
    } else if let SplitRule::Pattern(pattern, engine) = rule {
        let error = result->Err_0;
        let spans = choose|spans: Seq<(int, int)>|
            {
                &&& in_order(spans, 0, text.len() as int)
                &&& may_find(pattern, engine, text, spans, Some(error))
                &&& after == before + all_moved(
                    #[trigger] pieces_at(spans, 0, last_end(spans), false),
                    offset,
                )
            };
        let all = regex_spans(pattern, engine, text);
        assert(all =~= all.subrange(0, all.len() as int));
        lemma_in_order_last(spans, 0, text.len() as int);
        if spans.len() == 0 {
            assert(in_order(spans, 0, 0));
        }
        let at = lemma_spans_apart(spans, 0, last_end(spans), offset, false);
        let made = all_moved(pieces_at(spans, 0, last_end(spans), false), offset);
        assert(spans_apart(spans, 0, last_end(spans), offset, false, made, at));
    }
}

/// What a rule makes of pieces is what it makes of each of them, one after the other.
proof fn lemma_cut_pieces_flatten(rule: SplitRule, text: Seq<u8>, pieces: Seq<Piece>)
    ensures
        cut_pieces(rule, text, pieces) == Seq::new(
            pieces.len(),
            |i: int| cut_piece(rule, text, pieces[i]),
        ).flatten(),
    decreases pieces.len(),
{
    let made = Seq::new(pieces.len(), |i: int| cut_piece(rule, text, pieces[i]));
    if pieces.len() == 0 {
        assert(cut_pieces(rule, text, pieces) =~= made.flatten());
    } else {
        let init = pieces.drop_last();
        lemma_cut_pieces_flatten(rule, text, init);
        let before = Seq::new(init.len(), |i: int| cut_piece(rule, text, init[i]));
        let last = cut_piece(rule, text, pieces.last());
        assert(made =~= before.push(last));
        before.lemma_flatten_push(last);
    }
}

/// A text is cut by each of the rules in turn: for each number of rules, the pieces are what the
/// last of them makes of each of the pieces that the rules before it leave. Each match of a pattern
/// is a piece of its own, as is each literal, and what is left between two of them; a delimiter
/// begins a piece where it does not follow itself.
pub proof fn lemma_text_is_cut(rules: Seq<SplitRule>, text: Seq<u8>, pieces: Seq<Piece>)
    requires
        searches_sound(rules, text, rules.len()),
        cut_failure(rules, text, rules.len()) is None,
        pieces == cut(rules, text, rules.len()),
    ensures
        cut_by_rules(rules, text, pieces),
        joins(pieces, 0, text.len() as int),
{
    let n = rules.len();
    let levels = Seq::new((n + 1) as nat, |k: int| cut(rules, text, k as nat));
    assert forall|k: int, m: int|
        #![trigger levels[k], levels[m]]
        0 <= k < n && m == k + 1 implies cuts_each(rules[k], text, levels[k], levels[m]) by {
        let before = levels[k];
        let made = Seq::new(before.len(), |i: int| cut_piece(rules[k], text, before[i]));
        lemma_cut_pieces_flatten(rules[k], text, before);
        assert(levels[m] == made.flatten());
        lemma_levels_within(rules, text, k as nat);
        assert forall|i: int| 0 <= i < before.len() implies made_of(
            rules[k],
            text,
            before[i],
            #[trigger] made[i],
        ) by {
            assert(piece_sound(rules[k], text, cut(rules, text, k as nat)[i]));
            lemma_none_given_up(rules, text, n, k as nat, i);
            lemma_made(rules[k], text, before[i]);
        }
    }
    assert(levels[0] =~= seq![Piece::Bytes(0, text.len() as int)]);
    assert(levels.last() == pieces);
    lemma_levels_within(rules, text, n);
}

/// Where cutting is not given up, none of its searches is.
proof fn lemma_none_given_up(rules: Seq<SplitRule>, text: Seq<u8>, n: nat, k: nat, i: int)
    requires
        cut_failure(rules, text, n) is None,
        k < n,
        0 <= i < cut(rules, text, k).len(),
    ensures
        piece_failure(rules[k as int], text, cut(rules, text, k)[i]) is None,
    decreases n,
{
    if k < n - 1 {
        lemma_none_given_up(rules, text, (n - 1) as nat, k, i);
    } else {
        lemma_no_piece_given_up(rules[k as int], text, cut(rules, text, k), i);
    }
}

proof fn lemma_no_piece_given_up(rule: SplitRule, text: Seq<u8>, pieces: Seq<Piece>, i: int)
    requires
        pieces_failure(rule, text, pieces) is None,
        0 <= i < pieces.len(),
    ensures
        piece_failure(rule, text, pieces[i]) is None,
    decreases pieces.len(),
{
    if i < pieces.len() - 1 {
        lemma_no_piece_given_up(rule, text, pieces.drop_last(), i);
    }
}

/// The rules that cut a text before another one cut it as they do alone.
proof fn lemma_first_rules(rules: Seq<SplitRule>, text: Seq<u8>, n: nat, k: nat)
    requires
        k <= n <= rules.len(),
    ensures
        cut(rules.take(n as int), text, k) == cut(rules, text, k),
        cut_failure(rules.take(n as int), text, k) == cut_failure(rules, text, k),
    decreases k,
{
    if k > 0 {
        lemma_first_rules(rules, text, n, (k - 1) as nat);
    }
}

/// A search that is given up is that of one of the rules, for its pattern, in a piece of what the
/// rules before it leave; it is given up with the same code each time, or for want of memory.
pub proof fn lemma_search_is_given_up(rules: Seq<SplitRule>, text: Seq<u8>, error: Error)
    requires
        may_give_up(rules, text, error),
    ensures
        exists|k: int, before: Seq<Piece>, i: int|
            {
                &&& 0 <= k < rules.len()
                &&& #[trigger] cut_by_rules(rules.take(k), text, before)
                &&& 0 <= i < before.len()
                &&& #[trigger] before[i] matches Piece::Bytes(start, end)
                &&& rules[k] matches SplitRule::Pattern(pattern, engine)
                &&& error matches Error::RegexError(e)
                &&& no_memory(e) || regex_failure(
                    pattern,
                    engine,
                    text.subrange(start, end),
                ) == Some(error_code(e))
            },
{
    let (k, i) = choose|k: nat, i: int| #[trigger] gives_up_at(rules, text, k, i, error);
    let first = rules.take(k as int);
    let before = cut(rules, text, k);
    lemma_first_rules(rules, text, k, k);
    assert(searches_sound(first, text, k)) by {
        assert forall|j: nat, m: int|
            j < k && 0 <= m < cut(first, text, j).len() implies piece_sound(
            first[j as int],
            text,
            #[trigger] cut(first, text, j)[m],
        ) by {
            lemma_first_rules(rules, text, k, j);
            assert(piece_sound(rules[j as int], text, cut(rules, text, j)[m]));
        }
    }
    lemma_text_is_cut(first, text, before);
    assert(cut_by_rules(rules.take(k as int), text, before));
    assert(before[i] is Bytes);
}

/// However many rules have cut the text, the pieces are the whole of it.
proof fn lemma_levels_within(rules: Seq<SplitRule>, text: Seq<u8>, n: nat)
    requires
        n <= rules.len(),
        searches_sound(rules, text, rules.len()),
    ensures
        joins(cut(rules, text, n), 0, text.len() as int),
        forall|i: int|
            0 <= i < cut(rules, text, n).len() ==> 0 <= (#[trigger] cut(rules, text, n)[i]).start()
                <= cut(rules, text, n)[i].end() <= text.len(),
{
    lemma_cut_cover(rules, text, n);
    lemma_cover_bounds(cut(rules, text, n), 0, text.len() as int);
    lemma_cover_joins(cut(rules, text, n), 0, text.len() as int);
}

proof fn lemma_cover_joins(pieces: Seq<Piece>, start: int, end: int)
    requires
        cover(pieces, start, end),
    ensures
        joins(pieces, start, end),
    decreases pieces.len(),
{
    if pieces.len() > 0 {
        let rest = pieces.drop_first();
        lemma_cover_joins(rest, pieces[0].end(), end);
        let one = seq![pieces[0]];
        assert(joins(one, start, pieces[0].end()));
        lemma_joins_append(one, rest, start, pieces[0].end(), end);
        assert(one + rest =~= pieces);
    }
}

/// None of the literals stands in the text at this place.
pub open spec fn none_stands(literals: Seq<Seq<u8>>, text: Seq<u8>, i: int) -> bool {
    forall|k: int|
        0 <= k < literals.len() ==> {
            let literal = #[trigger] literals[k];
            !(0 <= i && i + literal.len() <= text.len() && text.subrange(i, i + literal.len())
                == literal)
        }
}

/// The span is the longest of the literals that stand where it begins.
pub open spec fn longest_there(literals: Seq<Seq<u8>>, text: Seq<u8>, span: (int, int)) -> bool {
    &&& 0 <= span.0 < span.1 <= text.len()
    &&& literals.contains(text.subrange(span.0, span.1))
    &&& forall|k: int|
        0 <= k < literals.len() ==> {
            let literal = #[trigger] literals[k];
            span.0 + literal.len() <= text.len() && text.subrange(
                span.0,
                span.0 + literal.len(),
            ) == literal ==> literal.len() <= span.1 - span.0
        }
}

/// The place is in none of the spans.
pub open spec fn outside(spans: Seq<(int, int)>, i: int) -> bool {
    forall|k: int| 0 <= k < spans.len() ==> i < (#[trigger] spans[k]).0 || spans[k].1 <= i
}

/// A search for a pattern finds its matches: all of them where it comes to its end, and else the
/// first of them, up to where it is given up.
pub proof fn lemma_matches_are_found(
    pattern: Seq<char>,
    engine: int,
    text: Seq<u8>,
    spans: Seq<(int, int)>,
    failure: Option<Error>,
)
    requires
        may_find(pattern, engine, text, spans, failure),
    ensures
        spans.is_prefix_of(regex_spans(pattern, engine, text)),
        failure is None ==> spans == regex_spans(pattern, engine, text) && regex_failure(
            pattern,
            engine,
            text,
        ) is None,
        failure matches Some(error) ==> error is RegexError,
        failure matches Some(Error::RegexError(e)) ==> no_memory(e) || spans == regex_spans(
            pattern,
            engine,
            text,
        ) && regex_failure(pattern, engine, text) == Some(error_code(e)),
{
    let all = regex_spans(pattern, engine, text);
    assert(all =~= all.subrange(0, all.len() as int));
}

/// Where the empty string is one of the literals, what is found is what the automaton gives.
pub proof fn lemma_empty_literal_is_found(literals: Seq<Seq<u8>>, text: Seq<u8>)
    requires
        literals.contains(Seq::empty()),
    ensures
        found_literals(literals, text) == automaton_spans(literals, text),
{
}

/// Where the literals are found: each time the longest that stands there, one after the other
/// without overlap, and no literal stands outside of what is found.
pub proof fn lemma_literals_are_found(literals: Seq<Seq<u8>>, text: Seq<u8>)
    requires
        !literals.contains(Seq::empty()),
    ensures
        ({
            let spans = found_literals(literals, text);
            &&& forall|k: int|
                0 <= k < spans.len() ==> longest_there(literals, text, #[trigger] spans[k])
            &&& forall|j: int, k: int|
                0 <= j < k < spans.len() ==> (#[trigger] spans[j]).1 <= (#[trigger] spans[k]).0
            &&& forall|i: int| #[trigger]
                outside(spans, i) && 0 <= i ==> none_stands(literals, text, i)
        }),
{
    lemma_found_from(literals, text, 0, false);
}

proof fn lemma_found_from(literals: Seq<Seq<u8>>, text: Seq<u8>, i: int, after_match: bool)
    requires
        !literals.contains(Seq::empty()),
        0 <= i,
    ensures
        ({
            let spans = literal_matches(literals, text, i, after_match);
            &&& forall|k: int|
                0 <= k < spans.len() ==> longest_there(literals, text, #[trigger] spans[k])
            &&& forall|k: int| 0 <= k < spans.len() ==> i <= (#[trigger] spans[k]).0
            &&& forall|j: int, k: int|
                0 <= j < k < spans.len() ==> (#[trigger] spans[j]).1 <= (#[trigger] spans[k]).0
            &&& forall|j: int| #[trigger]
                outside(spans, j) && i <= j ==> none_stands(literals, text, j)
        }),
    decreases text.len() + 1 - i, (if after_match { 0int } else { 1int }),
{
    let spans = literal_matches(literals, text, i, after_match);
    assert forall|k: int| 0 <= k < literals.len() implies (#[trigger] literals[k]).len() > 0 by {
        if literals[k].len() == 0 {
            assert(literals[k] =~= Seq::empty());
        }
    }
    if i > text.len() {
        assert(spans =~= Seq::empty());
    } else {
        let least = if after_match { 1int } else { 0int };
        lemma_longest_bounds(literals, text, i, least);
        match longest_at(literals, text, i, least) {
            Some(len) => {
                lemma_found_from(literals, text, i + len, true);
                let rest = literal_matches(literals, text, i + len, true);
                assert(spans == seq![(i, i + len)] + rest);
                if len == 0 {
                    assert(text.subrange(i, i) =~= Seq::empty());
                }
                assert(longest_there(literals, text, (i, i + len))) by {
                    assert forall|k: int| 0 <= k < literals.len() implies {
                        let literal = #[trigger] literals[k];
                        i + literal.len() <= text.len() && text.subrange(i, i + literal.len())
                            == literal ==> literal.len() <= len
                    } by {
                        let literal = literals[k];
                        if stands_at(literal, text, i) {
                            lemma_longest_is_longest(literals, text, i, least, literal);
                        }
                    }
                }
                assert forall|k: int| 0 <= k < spans.len() implies longest_there(
                    literals,
                    text,
                    #[trigger] spans[k],
                ) && i <= spans[k].0 by {
                    if k > 0 {
                        assert(spans[k] == rest[k - 1]);
                    }
                }
                assert forall|j: int, k: int| 0 <= j < k < spans.len() implies (
                #[trigger] spans[j]).1 <= (#[trigger] spans[k]).0 by {
                    assert(spans[k] == rest[k - 1]);
                    if j > 0 {
                        assert(spans[j] == rest[j - 1]);
                    }
                }
                assert forall|j: int| #[trigger]
                    outside(spans, j) && i <= j implies none_stands(literals, text, j) by {
                    assert(j < spans[0].0 || spans[0].1 <= j);
                    assert forall|k: int| 0 <= k < rest.len() implies j < (#[trigger] rest[k]).0
                        || rest[k].1 <= j by {
                        assert(rest[k] == spans[k + 1]);
                    }
                    assert(outside(rest, j));
                }
            },
            None => {
                lemma_found_from(literals, text, i + 1, false);
                assert(none_stands(literals, text, i)) by {
                    assert forall|k: int| 0 <= k < literals.len() implies {
                        let literal = #[trigger] literals[k];
                        !(0 <= i && i + literal.len() <= text.len() && text.subrange(
                            i,
                            i + literal.len(),
                        ) == literal)
                    } by {
                        let literal = literals[k];
                        if stands_at(literal, text, i) {
                            lemma_longest_is_longest(literals, text, i, least, literal);
                        }
                    }
                }
                assert forall|j: int| #[trigger]
                    outside(spans, j) && i <= j implies none_stands(literals, text, j) by {
                    if j > i {
                        assert(outside(literal_matches(literals, text, i + 1, false), j));
                    }
                }
            },
        }
    }
}

} // verus!
