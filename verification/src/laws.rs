//! What holds of the tokenizer as a whole.
use vstd::prelude::*;
use vstd::seq_lib::lemma_flatten_concat;

use crate::bpe::{
    chunk_ranks, comes_first, joined, lemma_merge_at_tiles, lemma_tile_bounds, lemma_tile_last,
    lemma_words_tile, merge_at, mergeable, merged, precedes, ranks_of, tile, weight_at,
};
use crate::encoder::Entry;
use crate::search::{
    found_literals, found_soundly, lemma_longest_bounds, literal_matches,
    longest_at, regex_spans, spans_among,
};
use crate::splitters::{
    all_moved, cover, cut, cut_piece, cut_pieces, lemma_cover_bounds, lemma_cover_last,
    lemma_cut_cover, piece_sound, pieces_at, pieces_before_runs, rule_pieces, rule_sound,
    run_begins, searches_sound,
    Piece, SplitRule,
};
use crate::tokenizer::{
    assembled, decoded, encoded, literals_of, piece_ranks, pieces_ranks, prefixed, row_of, rows_at,
    Model,
};
use crate::vocabulary::{
    decoder_rows, lemma_merges_keep_vocab, lemma_vocab_entries_unmerged, merges_grow,
    vocab_entries,
};
use crate::words::{word_at, words_from, Word, WordSplitter};
use crate::Rank;

verus! {

/// Each word is a token: its bytes are in the vocabulary, and its rank is the rank that they have
/// there.
pub open spec fn words_are_tokens(
    vocab: Map<Seq<u8>, Entry>,
    chunk: Seq<u8>,
    words: Seq<Word>,
) -> bool {
    forall|i: int|
        0 <= i < words.len() ==> {
            let bytes = chunk.subrange((#[trigger] words[i]).start, words[i].end);
            vocab.contains_key(bytes) && words[i].rank == vocab[bytes].rank
        }
}

/// The words that merging starts from are tokens.
pub proof fn lemma_first_words_are_tokens(
    splitter: WordSplitter,
    vocab: Map<Seq<u8>, Entry>,
    chunk: Seq<u8>,
    i: int,
)
    requires
        0 <= i,
        words_from(splitter, vocab, chunk, i) is Ok,
    ensures
        words_are_tokens(vocab, chunk, words_from(splitter, vocab, chunk, i)->Ok_0),
    decreases chunk.len() - i,
{
    if i < chunk.len() {
        let word = word_at(splitter, vocab, chunk, i)->0;
        lemma_first_words_are_tokens(splitter, vocab, chunk, word.end);
        let rest = words_from(splitter, vocab, chunk, word.end)->Ok_0;
        let words = words_from(splitter, vocab, chunk, i)->Ok_0;
        assert(words == seq![word] + rest);
        assert forall|k: int| 0 <= k < words.len() implies {
            let bytes = chunk.subrange((#[trigger] words[k]).start, words[k].end);
            vocab.contains_key(bytes) && words[k].rank == vocab[bytes].rank
        } by {
            if k > 0 {
                assert(words[k] == rest[k - 1]);
            }
        }
    }
}

/// Of the merges at the first `n` places, the one to make first.
spec fn first_below(
    vocab: Map<Seq<u8>, Entry>,
    chunk: Seq<u8>,
    words: Seq<Word>,
    n: int,
    i: int,
) -> bool {
    &&& i < n
    &&& mergeable(vocab, chunk, words, i)
    &&& forall|j: int|
        j < n && #[trigger] mergeable(vocab, chunk, words, j) ==> {
            &&& !precedes(weight_at(vocab, chunk, words, j), weight_at(vocab, chunk, words, i))
            &&& j < i ==> precedes(
                weight_at(vocab, chunk, words, i),
                weight_at(vocab, chunk, words, j),
            )
        }
}

proof fn lemma_first_below(
    vocab: Map<Seq<u8>, Entry>,
    chunk: Seq<u8>,
    words: Seq<Word>,
    n: int,
    k: int,
)
    requires
        0 <= k < n,
        mergeable(vocab, chunk, words, k),
    ensures
        exists|i: int| first_below(vocab, chunk, words, n, i),
    decreases n,
{
    let last = n - 1;
    if forall|j: int| j < last ==> !#[trigger] mergeable(vocab, chunk, words, j) {
        assert(k == last);
        assert(first_below(vocab, chunk, words, n, k));
    } else {
        let j = choose|j: int| j < last && #[trigger] mergeable(vocab, chunk, words, j);
        lemma_first_below(vocab, chunk, words, last, j);
        let i = choose|i: int| first_below(vocab, chunk, words, last, i);
        if mergeable(vocab, chunk, words, last) && precedes(
            weight_at(vocab, chunk, words, last),
            weight_at(vocab, chunk, words, i),
        ) {
            assert(first_below(vocab, chunk, words, n, last));
        } else {
            assert(first_below(vocab, chunk, words, n, i));
        }
    }
}

/// As long as two neighbours make a token there is a merge to make next.
pub proof fn lemma_some_merge_comes_first(
    vocab: Map<Seq<u8>, Entry>,
    chunk: Seq<u8>,
    words: Seq<Word>,
    k: int,
)
    requires
        mergeable(vocab, chunk, words, k),
    ensures
        exists|i: int| comes_first(vocab, chunk, words, i),
{
    let n = words.len() as int;
    lemma_first_below(vocab, chunk, words, n, k);
    let i = choose|i: int| first_below(vocab, chunk, words, n, i);
    assert(comes_first(vocab, chunk, words, i));
}

/// Merging leaves the text covered by tokens, makes no more of them than there were words, and goes
/// on until no two neighbours make a token together.
pub proof fn lemma_merged(
    vocab: Map<Seq<u8>, Entry>,
    chunk: Seq<u8>,
    words: Seq<Word>,
    start: int,
    end: int,
)
    requires
        tile(words, start, end),
        words_are_tokens(vocab, chunk, words),
    ensures
        tile(merged(vocab, chunk, words), start, end),
        words_are_tokens(vocab, chunk, merged(vocab, chunk, words)),
        merged(vocab, chunk, words).len() <= words.len(),
        forall|i: int| !#[trigger] mergeable(vocab, chunk, merged(vocab, chunk, words), i),
    decreases words.len(),
{
    if exists|i: int| comes_first(vocab, chunk, words, i) {
        let i = choose|i: int| comes_first(vocab, chunk, words, i);
        let after = merge_at(vocab, chunk, words, i);
        lemma_merge_at_tiles(vocab, chunk, words, i, start, end);
        assert(mergeable(vocab, chunk, words, i));
        assert forall|k: int| 0 <= k < after.len() implies {
            let bytes = chunk.subrange((#[trigger] after[k]).start, after[k].end);
            vocab.contains_key(bytes) && after[k].rank == vocab[bytes].rank
        } by {
            if k < i {
                assert(after[k] == words[k]);
            } else if k > i {
                assert(after[k] == words[k + 1]);
            } else {
                assert(after[k].rank == vocab[joined(chunk, words, i)].rank);
            }
        }
        lemma_merged(vocab, chunk, after, start, end);
    } else {
        assert forall|i: int| !#[trigger] mergeable(vocab, chunk, words, i) by {
            if mergeable(vocab, chunk, words, i) {
                lemma_some_merge_comes_first(vocab, chunk, words, i);
            }
        }
    }
}

/// The tokens of a chunk: together they are the chunk, each has the rank of its bytes, there are
/// no more of them than bytes, and no two neighbours make a token together.
pub proof fn lemma_chunk_tokens(
    splitter: WordSplitter,
    vocab: Map<Seq<u8>, Entry>,
    chunk: Seq<u8>,
    ranks: Seq<Rank>,
)
    requires
        chunk_ranks(splitter, vocab, chunk) == Ok::<Seq<Rank>, int>(ranks),
    ensures
        exists|words: Seq<Word>|
            {
                &&& ranks == #[trigger] ranks_of(words)
                &&& tile(words, 0, chunk.len() as int)
                &&& words_are_tokens(vocab, chunk, words)
                &&& forall|i: int| !#[trigger] mergeable(vocab, chunk, words, i)
            },
        ranks.len() <= chunk.len(),
{
    let first = words_from(splitter, vocab, chunk, 0)->Ok_0;
    lemma_words_tile(splitter, vocab, chunk, 0);
    lemma_first_words_are_tokens(splitter, vocab, chunk, 0);
    lemma_merged(vocab, chunk, first, 0, chunk.len() as int);
    let words = merged(vocab, chunk, first);
    assert(ranks == ranks_of(words));
    lemma_tile_count(words, 0, chunk.len() as int);
}

/// There are no more words than bytes.
proof fn lemma_tile_count(words: Seq<Word>, start: int, end: int)
    requires
        tile(words, start, end),
    ensures
        words.len() <= end - start,
    decreases words.len(),
{
    if words.len() > 0 {
        lemma_tile_last(words, start, end);
        lemma_tile_count(words.drop_last(), start, words.last().start);
        assert(words[words.len() - 1].start < words[words.len() - 1].end);
    }
}

/// Each token and each special token is what its rank stands for.
pub open spec fn faithful(model: Model) -> bool {
    &&& forall|bytes: Seq<u8>| #[trigger]
        model.vocab.contains_key(bytes) ==> row_of(model, model.vocab[bytes].rank) == Some(bytes)
    &&& forall|bytes: Seq<u8>| #[trigger]
        model.specials.contains_key(bytes) ==> row_of(model, model.specials[bytes].rank) == Some(
            bytes,
        )
}

/// Ranks one after the other stand for the bytes of the first, then those of the others.
pub proof fn lemma_rows_append(model: Model, a: Seq<Rank>, b: Seq<Rank>)
    ensures
        rows_at(model, a + b) == rows_at(model, a) + rows_at(model, b),
    decreases b.len(),
{
    if b.len() == 0 {
        assert(a + b =~= a);
        assert(rows_at(model, a) + rows_at(model, b) =~= rows_at(model, a));
    } else {
        lemma_rows_append(model, a, b.drop_last());
        assert((a + b).drop_last() =~= a + b.drop_last());
        assert((a + b).last() == b.last());
        assert(rows_at(model, a + b) =~= rows_at(model, a) + rows_at(model, b));
    }
}

/// The ranks of tokens that tile a stretch of a chunk stand for that stretch.
proof fn lemma_words_decode(
    model: Model,
    chunk: Seq<u8>,
    words: Seq<Word>,
    start: int,
    end: int,
)
    requires
        faithful(model),
        0 <= start <= end <= chunk.len(),
        tile(words, start, end),
        words_are_tokens(model.vocab, chunk, words),
    ensures
        rows_at(model, ranks_of(words)).flatten() == chunk.subrange(start, end),
    decreases words.len(),
{
    let ranks = ranks_of(words);
    if words.len() == 0 {
        assert(chunk.subrange(start, end) =~= Seq::empty());
        assert(rows_at(model, ranks) =~= Seq::empty());
    } else {
        let init = words.drop_last();
        let last = words.last();
        assert(words[words.len() - 1] == last);
        lemma_tile_bounds(words, start, end);
        lemma_tile_last(words, start, end);
        assert forall|i: int| 0 <= i < init.len() implies {
            let bytes = chunk.subrange((#[trigger] init[i]).start, init[i].end);
            model.vocab.contains_key(bytes) && init[i].rank == model.vocab[bytes].rank
        } by {
            assert(init[i] == words[i]);
        }
        lemma_words_decode(model, chunk, init, start, last.start);
        let bytes = chunk.subrange(last.start, last.end);
        assert(ranks.drop_last() =~= ranks_of(init));
        assert(ranks.last() == last.rank);
        assert(model.vocab.contains_key(bytes));
        assert(row_of(model, ranks.last()) == Some(bytes));
        let before = rows_at(model, ranks.drop_last());
        before.lemma_flatten_push(bytes);
        assert(rows_at(model, ranks) == before.push(bytes));
        assert(chunk.subrange(start, end) =~= chunk.subrange(start, last.start) + bytes);
    }
}

/// The tokens of a piece stand for the piece.
pub proof fn lemma_piece_decodes(model: Model, text: Seq<u8>, piece: Piece)
    requires
        faithful(model),
        0 <= piece.start() <= piece.end() <= text.len(),
        piece_ranks(model, text, piece) is Ok,
    ensures
        rows_at(model, piece_ranks(model, text, piece)->Ok_0).flatten() == text.subrange(
            piece.start(),
            piece.end(),
        ),
{
    let bytes = text.subrange(piece.start(), piece.end());
    let ranks = piece_ranks(model, text, piece)->Ok_0;
    if (piece is Literal && model.specials.contains_key(bytes)) || model.vocab.contains_key(
        bytes,
    ) {
        assert(row_of(model, ranks[0]) == Some(bytes));
        assert(ranks.drop_last() =~= Seq::empty());
        assert(ranks.last() == ranks[0]);
        let none: Seq<Seq<u8>> = Seq::empty();
        assert(rows_at(model, ranks.drop_last()) =~= none);
        none.lemma_flatten_push(bytes);
        assert(rows_at(model, ranks).flatten() =~= bytes);
    } else {
        lemma_chunk_tokens(model.words, model.vocab, bytes, ranks);
        let words = choose|words: Seq<Word>|
            {
                &&& ranks == #[trigger] ranks_of(words)
                &&& tile(words, 0, bytes.len() as int)
                &&& words_are_tokens(model.vocab, bytes, words)
                &&& forall|i: int| !#[trigger] mergeable(model.vocab, bytes, words, i)
            };
        lemma_words_decode(model, bytes, words, 0, bytes.len() as int);
        assert(bytes.subrange(0, bytes.len() as int) =~= bytes);
    }
}

/// The tokens of pieces that cover a text stand for the text.
pub proof fn lemma_pieces_decode(model: Model, text: Seq<u8>, pieces: Seq<Piece>, end: int)
    requires
        faithful(model),
        cover(pieces, 0, end),
        end <= text.len(),
        pieces_ranks(model, text, pieces) is Ok,
    ensures
        rows_at(model, pieces_ranks(model, text, pieces)->Ok_0).flatten() == text.subrange(0, end),
    decreases pieces.len(),
{
    let ranks = pieces_ranks(model, text, pieces)->Ok_0;
    if pieces.len() == 0 {
        assert(rows_at(model, ranks) =~= Seq::empty());
        assert(text.subrange(0, end) =~= Seq::empty());
    } else {
        let last = pieces.last();
        lemma_cover_bounds(pieces, 0, end);
        assert(pieces[pieces.len() - 1] == last);
        lemma_cover_last(pieces, 0, end);
        lemma_pieces_decode(model, text, pieces.drop_last(), last.start());
        lemma_piece_decodes(model, text, last);
        let before = pieces_ranks(model, text, pieces.drop_last())->Ok_0;
        let after = piece_ranks(model, text, last)->Ok_0;
        lemma_rows_append(model, before, after);
        lemma_flatten_concat(rows_at(model, before), rows_at(model, after));
        assert(text.subrange(0, end) =~= text.subrange(0, last.start()) + text.subrange(
            last.start(),
            end,
        ));
    }
}

/// The tokens of a text stand for the text with its prefix.
pub proof fn lemma_tokens_stand_for_text(model: Model, text: Seq<u8>, ranks: Seq<Rank>)
    requires
        faithful(model),
        searches_sound(model.rules, prefixed(model, text), model.rules.len()),
        encoded(model, text) == Ok::<Seq<Rank>, Seq<u8>>(ranks),
    ensures
        rows_at(model, ranks).flatten() == prefixed(model, text),
{
    let whole = prefixed(model, text);
    lemma_cut_cover(model.rules, whole, model.rules.len());
    lemma_pieces_decode(
        model,
        whole,
        cut(model.rules, whole, model.rules.len()),
        whole.len() as int,
    );
    assert(whole.subrange(0, whole.len() as int) =~= whole);
}

/// Decoding the tokens of a text gives back the text, if the first token takes in all of the
/// prefix.
pub proof fn lemma_round_trip(model: Model, text: Seq<u8>, ranks: Seq<Rank>)
    requires
        faithful(model),
        searches_sound(model.rules, prefixed(model, text), model.rules.len()),
        encoded(model, text) == Ok::<Seq<Rank>, Seq<u8>>(ranks),
        model.prefix matches Some(prefix) ==> prefix.len() == 0 || prefix.len() <= rows_at(
            model,
            ranks,
        )[0].len(),
    ensures
        decoded(model, ranks).flatten() == text,
{
    lemma_tokens_stand_for_text(model, text, ranks);
    let rows = rows_at(model, ranks);
    match model.prefix {
        None => {},
        Some(prefix) => {
            let whole = prefix + text;
            assert(whole.skip(prefix.len() as int) =~= text);
            if rows.len() == 0 {
                assert(whole.len() == 0);
                assert(text =~= Seq::empty());
            } else {
                let rest = rows.drop_first().flatten();
                assert(whole == rows[0] + rest);
                if prefix.len() <= rows[0].len() {
                    assert(prefix =~= rows[0].subrange(0, prefix.len() as int)) by {
                        assert forall|i: int| 0 <= i < prefix.len() implies prefix[i]
                            == rows[0][i] by {
                            assert(whole[i] == prefix[i]);
                        }
                    }
                    let cut_rows = rows.update(0, rows[0].skip(prefix.len() as int));
                    assert(decoded(model, ranks) == cut_rows);
                    assert(cut_rows.drop_first() =~= rows.drop_first());
                    assert(cut_rows.flatten() =~= cut_rows[0] + rest);
                    assert(cut_rows[0] + rest =~= whole.skip(prefix.len() as int));
                } else {
                    assert(prefix.len() == 0);
                    assert(rows[0].len() == 0);
                }
            }
        },
    }
}

/// The rank is that of a token or of a special token.
pub open spec fn is_rank(model: Model, rank: Rank) -> bool {
    ||| exists|bytes: Seq<u8>| #[trigger]
        model.vocab.contains_key(bytes) && model.vocab[bytes].rank == rank
    ||| exists|bytes: Seq<u8>| #[trigger]
        model.specials.contains_key(bytes) && model.specials[bytes].rank == rank
}

pub open spec fn all_ranks(model: Model, ranks: Seq<Rank>) -> bool {
    forall|i: int| 0 <= i < ranks.len() ==> is_rank(model, #[trigger] ranks[i])
}

proof fn lemma_piece_has_ranks(model: Model, text: Seq<u8>, piece: Piece)
    requires
        piece_ranks(model, text, piece) is Ok,
    ensures
        all_ranks(model, piece_ranks(model, text, piece)->Ok_0),
{
    let bytes = text.subrange(piece.start(), piece.end());
    let ranks = piece_ranks(model, text, piece)->Ok_0;
    if !(piece is Literal && model.specials.contains_key(bytes)) && !model.vocab.contains_key(
        bytes,
    ) {
        lemma_chunk_tokens(model.words, model.vocab, bytes, ranks);
        let words = choose|words: Seq<Word>|
            {
                &&& ranks == #[trigger] ranks_of(words)
                &&& tile(words, 0, bytes.len() as int)
                &&& words_are_tokens(model.vocab, bytes, words)
                &&& forall|i: int| !#[trigger] mergeable(model.vocab, bytes, words, i)
            };
        assert forall|i: int| 0 <= i < ranks.len() implies is_rank(model, #[trigger] ranks[i]) by {
            let token = bytes.subrange(words[i].start, words[i].end);
            assert(model.vocab.contains_key(token) && model.vocab[token].rank == ranks[i]);
        }
    }
}

proof fn lemma_pieces_have_ranks(model: Model, text: Seq<u8>, pieces: Seq<Piece>)
    requires
        pieces_ranks(model, text, pieces) is Ok,
    ensures
        all_ranks(model, pieces_ranks(model, text, pieces)->Ok_0),
    decreases pieces.len(),
{
    if pieces.len() > 0 {
        lemma_pieces_have_ranks(model, text, pieces.drop_last());
        lemma_piece_has_ranks(model, text, pieces.last());
    }
}

/// Encoding gives ranks of the vocabulary and of the special tokens only.
pub proof fn lemma_encoded_has_ranks(model: Model, text: Seq<u8>, ranks: Seq<Rank>)
    requires
        encoded(model, text) == Ok::<Seq<Rank>, Seq<u8>>(ranks),
    ensures
        all_ranks(model, ranks),
{
    let whole = prefixed(model, text);
    lemma_pieces_have_ranks(model, whole, cut(model.rules, whole, model.rules.len()));
}

/// No token and no special token is empty.
pub open spec fn no_empty_token(model: Model) -> bool {
    !model.vocab.contains_key(Seq::empty()) && !model.specials.contains_key(Seq::empty())
}

/// Each rank has its row, and none of the rows is empty.
proof fn lemma_rows_not_empty(model: Model, ranks: Seq<Rank>)
    requires
        faithful(model),
        no_empty_token(model),
        all_ranks(model, ranks),
    ensures
        rows_at(model, ranks).len() == ranks.len(),
        forall|i: int|
            0 <= i < ranks.len() ==> (#[trigger] rows_at(model, ranks)[i]).len() > 0,
    decreases ranks.len(),
{
    if ranks.len() > 0 {
        let init = ranks.drop_last();
        assert forall|i: int| 0 <= i < init.len() implies is_rank(model, #[trigger] init[i]) by {
            assert(init[i] == ranks[i]);
        }
        lemma_rows_not_empty(model, init);
        assert(is_rank(model, ranks[ranks.len() - 1]));
        let row = row_of(model, ranks.last())->0;
        assert(row_of(model, ranks.last()) is Some);
        if row.len() == 0 {
            assert(row =~= Seq::empty());
        }
        assert forall|i: int| 0 <= i < ranks.len() implies (#[trigger] rows_at(
            model,
            ranks,
        )[i]).len() > 0 by {
            if i < init.len() {
                assert(rows_at(model, ranks)[i] == rows_at(model, init)[i]);
            }
        }
    }
}

/// Decoding the tokens of a text gives back the text, where there is no prefix, or it is one byte
/// and no token is empty.
pub proof fn lemma_round_trip_short_prefix(model: Model, text: Seq<u8>, ranks: Seq<Rank>)
    requires
        faithful(model),
        searches_sound(model.rules, prefixed(model, text), model.rules.len()),
        encoded(model, text) == Ok::<Seq<Rank>, Seq<u8>>(ranks),
        model.prefix matches Some(prefix) ==> prefix.len() == 1 && no_empty_token(model),
    ensures
        decoded(model, ranks).flatten() == text,
{
    if model.prefix is Some {
        lemma_tokens_stand_for_text(model, text, ranks);
        lemma_encoded_has_ranks(model, text, ranks);
        lemma_rows_not_empty(model, ranks);
        assert(prefixed(model, text).len() > 0);
        assert(rows_at(model, ranks).len() > 0);
    }
    lemma_round_trip(model, text, ranks);
}

proof fn lemma_flatten_count(rows: Seq<Seq<u8>>)
    requires
        forall|i: int| 0 <= i < rows.len() ==> (#[trigger] rows[i]).len() > 0,
    ensures
        rows.len() <= rows.flatten().len(),
    decreases rows.len(),
{
    if rows.len() > 0 {
        let rest = rows.drop_first();
        assert forall|i: int| 0 <= i < rest.len() implies (#[trigger] rest[i]).len() > 0 by {
            assert(rest[i] == rows[i + 1]);
        }
        lemma_flatten_count(rest);
    }
}

/// A text has no more tokens than bytes, where no token is empty.
pub proof fn lemma_no_more_tokens_than_bytes(model: Model, text: Seq<u8>, ranks: Seq<Rank>)
    requires
        faithful(model),
        no_empty_token(model),
        searches_sound(model.rules, prefixed(model, text), model.rules.len()),
        encoded(model, text) == Ok::<Seq<Rank>, Seq<u8>>(ranks),
    ensures
        ranks.len() <= prefixed(model, text).len(),
{
    lemma_tokens_stand_for_text(model, text, ranks);
    lemma_encoded_has_ranks(model, text, ranks);
    lemma_rows_not_empty(model, ranks);
    lemma_flatten_count(rows_at(model, ranks));
}

/// A rank stands for the same bytes wherever it is given.
pub open spec fn consistent(tokens: Seq<(Seq<u8>, Rank)>) -> bool {
    forall|i: int, j: int|
        0 <= i < tokens.len() && 0 <= j < tokens.len() && (#[trigger] tokens[i]).1 == (
        #[trigger] tokens[j]).1 ==> tokens[i].0 == tokens[j].0
}

/// The entries of a vocabulary are its tokens.
proof fn lemma_entries_are_tokens(tokens: Seq<(Seq<u8>, Rank)>, bytes: Seq<u8>)
    requires
        vocab_entries(tokens).contains_key(bytes),
    ensures
        exists|i: int|
            0 <= i < tokens.len() && #[trigger] tokens[i] == (
                bytes,
                vocab_entries(tokens)[bytes].rank,
            ),
    decreases tokens.len(),
{
    let last = tokens.len() - 1;
    if tokens.last().0 == bytes {
        assert(tokens[last] == (bytes, vocab_entries(tokens)[bytes].rank));
    } else {
        let init = tokens.drop_last();
        lemma_entries_are_tokens(init, bytes);
        let i = choose|i: int|
            0 <= i < init.len() && #[trigger] init[i] == (bytes, vocab_entries(init)[bytes].rank);
        assert(tokens[i] == init[i]);
    }
}

/// The row of each rank holds the bytes of the token.
proof fn lemma_decoder_row(tokens: Seq<(Seq<u8>, Rank)>, i: int)
    requires
        consistent(tokens),
        0 <= i < tokens.len(),
    ensures
        tokens[i].1 < decoder_rows(tokens).len(),
        decoder_rows(tokens)[tokens[i].1 as int] == tokens[i].0,
    decreases tokens.len(),
{
    let init = tokens.drop_last();
    let last = tokens.len() - 1;
    assert(tokens[last] == tokens.last());
    if i < last {
        assert forall|j: int, k: int|
            0 <= j < init.len() && 0 <= k < init.len() && (#[trigger] init[j]).1 == (
            #[trigger] init[k]).1 implies init[j].0 == init[k].0 by {
            assert(init[j] == tokens[j] && init[k] == tokens[k]);
        }
        assert(init[i] == tokens[i]);
        lemma_decoder_row(init, i);
    }
}

/// A special token keeps its rank to itself: the vocabulary has no rows up to there, or has the
/// same bytes there.
pub open spec fn specials_clear(
    vocab: Seq<(Seq<u8>, Rank)>,
    specials: Seq<(Seq<u8>, Rank)>,
) -> bool {
    forall|i: int|
        0 <= i < specials.len() ==> {
            let rank = (#[trigger] specials[i]).1;
            rank >= decoder_rows(vocab).len() || decoder_rows(vocab)[rank as int] == specials[i].0
        }
}

/// A tokenizer whose ranks stand for one token each is faithful.
pub proof fn lemma_assembled_faithful(
    vocab: Seq<(Seq<u8>, Rank)>,
    specials: Seq<(Seq<u8>, Rank)>,
    merges: Option<Seq<(Seq<u8>, Seq<u8>)>>,
    prefix: Option<Seq<u8>>,
    rules: Seq<SplitRule>,
    words: WordSplitter,
)
    requires
        consistent(vocab),
        consistent(specials),
        specials_clear(vocab, specials),
        merges matches Some(merges) ==> merges_grow(vocab_entries(vocab), merges),
    ensures
        faithful(assembled(vocab, specials, merges, prefix, rules, words)),
{
    let model = assembled(vocab, specials, merges, prefix, rules, words);
    let plain = vocab_entries(vocab);
    lemma_vocab_entries_unmerged(vocab);
    if let Some(merges) = merges {
        lemma_merges_keep_vocab(plain, merges);
    }
    assert(model.vocab.dom() == plain.dom());
    assert forall|bytes: Seq<u8>| #[trigger] model.vocab.contains_key(bytes) implies row_of(
        model,
        model.vocab[bytes].rank,
    ) == Some(bytes) by {
        assert(plain.contains_key(bytes));
        assert(model.vocab[bytes].rank == plain[bytes].rank);
        lemma_entries_are_tokens(vocab, bytes);
        let i = choose|i: int|
            0 <= i < vocab.len() && #[trigger] vocab[i] == (bytes, plain[bytes].rank);
        lemma_decoder_row(vocab, i);
    }
    assert forall|bytes: Seq<u8>| #[trigger] model.specials.contains_key(bytes) implies row_of(
        model,
        model.specials[bytes].rank,
    ) == Some(bytes) by {
        lemma_entries_are_tokens(specials, bytes);
        let i = choose|i: int|
            0 <= i < specials.len() && #[trigger] specials[i] == (
                bytes,
                vocab_entries(specials)[bytes].rank,
            );
        lemma_decoder_row(specials, i);
    }
}

/// Decoding the tokens of a text gives back the text, with any vocabulary in which a rank stands
/// for one token, where there is no prefix, or it is one byte and no token is empty.
pub proof fn lemma_assembled_round_trip(
    vocab: Seq<(Seq<u8>, Rank)>,
    specials: Seq<(Seq<u8>, Rank)>,
    merges: Option<Seq<(Seq<u8>, Seq<u8>)>>,
    prefix: Option<Seq<u8>>,
    rules: Seq<SplitRule>,
    words: WordSplitter,
    text: Seq<u8>,
    ranks: Seq<Rank>,
)
    requires
        consistent(vocab),
        consistent(specials),
        specials_clear(vocab, specials),
        merges matches Some(merges) ==> merges_grow(vocab_entries(vocab), merges),
        prefix matches Some(prefix) ==> prefix.len() == 1 && no_empty_token(
            assembled(vocab, specials, merges, Some(prefix), rules, words),
        ),
        ({
            let model = assembled(vocab, specials, merges, prefix, rules, words);
            &&& searches_sound(model.rules, prefixed(model, text), model.rules.len())
            &&& encoded(model, text) == Ok::<Seq<Rank>, Seq<u8>>(ranks)
        }),
    ensures
        decoded(
            assembled(vocab, specials, merges, prefix, rules, words),
            ranks,
        ).flatten() == text,
{
    let model = assembled(vocab, specials, merges, prefix, rules, words);
    lemma_assembled_faithful(vocab, specials, merges, prefix, rules, words);
    lemma_round_trip_short_prefix(model, text, ranks);
}

/// None of the rules makes literals.
pub open spec fn no_literals(rules: Seq<SplitRule>) -> bool {
    forall|i: int| 0 <= i < rules.len() ==> !((#[trigger] rules[i]) is Literals)
}

proof fn lemma_bytes_at(spans: Seq<(int, int)>, start: int, len: int)
    ensures
        forall|i: int|
            0 <= i < pieces_at(spans, start, len, false).len() ==> (#[trigger] pieces_at(
                spans,
                start,
                len,
                false,
            )[i]) is Bytes,
    decreases spans.len(),
{
    if spans.len() > 0 {
        lemma_bytes_at(spans.drop_first(), spans[0].1, len);
    }
}

proof fn lemma_bytes_before_runs(text: Seq<u8>, delimiter: u8, start: int, i: int)
    ensures
        forall|k: int|
            0 <= k < pieces_before_runs(text, delimiter, start, i).len() ==> (
            #[trigger] pieces_before_runs(text, delimiter, start, i)[k]) is Bytes,
    decreases text.len() - i,
{
    if i < text.len() {
        if run_begins(text, delimiter, i) {
            lemma_bytes_before_runs(text, delimiter, i, i + 1);
        } else {
            lemma_bytes_before_runs(text, delimiter, start, i + 1);
        }
    }
}

/// The pieces that are literals have the bytes of one of these.
pub open spec fn literals_among(literals: Seq<Seq<u8>>, text: Seq<u8>, pieces: Seq<Piece>) -> bool {
    forall|i: int|
        0 <= i < pieces.len() && (#[trigger] pieces[i]) is Literal ==> literals.contains(
            text.subrange(pieces[i].start(), pieces[i].end()),
        )
}

proof fn lemma_literals_at(
    literals: Seq<Seq<u8>>,
    text: Seq<u8>,
    spans: Seq<(int, int)>,
    start: int,
)
    requires
        spans_among(literals, text, spans),
    ensures
        literals_among(literals, text, pieces_at(spans, start, text.len() as int, true)),
    decreases spans.len(),
{
    if spans.len() > 0 {
        let rest = spans.drop_first();
        assert forall|k: int| 0 <= k < rest.len() implies literals.contains(
            text.subrange((#[trigger] rest[k]).0, rest[k].1),
        ) by {
            assert(rest[k] == spans[k + 1]);
        }
        lemma_literals_at(literals, text, rest, spans[0].1);
        assert(literals.contains(text.subrange(spans[0].0, spans[0].1)));
        let tail = pieces_at(rest, spans[0].1, text.len() as int, true);
        let all = pieces_at(spans, start, text.len() as int, true);
        let head = all.len() - tail.len();
        assert forall|i: int| 0 <= i < all.len() && (
        #[trigger] all[i]) is Literal implies literals.contains(
            text.subrange(all[i].start(), all[i].end()),
        ) by {
            if i >= head {
                assert(all[i] == tail[i - head]);
            }
        }
    }
}

/// One piece is cut by itself.
proof fn lemma_cut_one(rule: SplitRule, text: Seq<u8>, piece: Piece)
    ensures
        cut_pieces(rule, text, seq![piece]) == cut_piece(rule, text, piece),
{
    let none: Seq<Piece> = Seq::empty();
    assert(seq![piece].drop_last() =~= none);
    assert(cut_pieces(rule, text, none) =~= none);
    assert(cut_pieces(rule, text, seq![piece]) =~= cut_piece(rule, text, piece));
}

/// A rule that makes no literals leaves the literals that there are.
proof fn lemma_cut_pieces_literals(
    rule: SplitRule,
    literals: Seq<Seq<u8>>,
    text: Seq<u8>,
    pieces: Seq<Piece>,
)
    requires
        !(rule is Literals),
        literals_among(literals, text, pieces),
    ensures
        literals_among(literals, text, cut_pieces(rule, text, pieces)),
    decreases pieces.len(),
{
    if pieces.len() > 0 {
        let init = pieces.drop_last();
        let last = pieces.last();
        assert(pieces[pieces.len() - 1] == last);
        assert forall|i: int| 0 <= i < init.len() && (
        #[trigger] init[i]) is Literal implies literals.contains(
            text.subrange(init[i].start(), init[i].end()),
        ) by {
            assert(init[i] == pieces[i]);
        }
        lemma_cut_pieces_literals(rule, literals, text, init);
        if let Piece::Bytes(start, end) = last {
            let part = text.subrange(start, end);
            match rule {
                SplitRule::Pattern(pattern, engine) => {
                    lemma_bytes_at(regex_spans(pattern, engine, part), 0, part.len() as int);
                },
                SplitRule::Delimiter(delimiter) => {
                    lemma_bytes_before_runs(part, delimiter, 0, 1);
                },
                SplitRule::Literals(_) => {},
            }
            let made = cut_piece(rule, text, last);
            assert forall|i: int| 0 <= i < made.len() implies (#[trigger] made[i]) is Bytes by {
                assert(made[i] == rule_pieces(rule, part)[i].moved(start));
            }
        }
    }
}

/// Special tokens are the only literals that a text is cut into.
pub proof fn lemma_literals_are_special(
    literals: Seq<Seq<u8>>,
    rules: Seq<SplitRule>,
    text: Seq<u8>,
    n: nat,
)
    requires
        no_literals(rules),
        1 <= n <= rules.len() + 1,
        found_soundly(literals, text),
    ensures
        literals_among(literals, text, cut(seq![SplitRule::Literals(literals)] + rules, text, n)),
    decreases n,
{
    let all = seq![SplitRule::Literals(literals)] + rules;
    if n == 1 {
        let whole = seq![Piece::Bytes(0, text.len() as int)];
        let spans = found_literals(literals, text);
        assert(text.subrange(0, text.len() as int) =~= text);
        lemma_literals_at(literals, text, spans, 0);
        let made = rule_pieces(all[0], text);
        assert(cut(all, text, 0) == whole);
        lemma_cut_one(all[0], text, whole[0]);
        assert(all_moved(made, 0) =~= made);
        assert(cut(all, text, 1) == made);
    } else {
        let k = (n - 1) as nat;
        lemma_literals_are_special(literals, rules, text, k);
        assert(all[k as int] == rules[k - 1]);
        lemma_cut_pieces_literals(all[k as int], literals, text, cut(all, text, k));
    }
}

/// Where there is no word, the byte is no token.
proof fn lemma_no_word(splitter: WordSplitter, vocab: Map<Seq<u8>, Entry>, chunk: Seq<u8>, i: int)
    requires
        0 <= i,
        words_from(splitter, vocab, chunk, i) is Err,
    ensures
        ({
            let at = words_from(splitter, vocab, chunk, i)->Err_0;
            i <= at < chunk.len() && !vocab.contains_key(chunk.subrange(at, at + 1))
        }),
    decreases chunk.len() - i,
{
    if word_at(splitter, vocab, chunk, i) is Some {
        lemma_no_word(splitter, vocab, chunk, word_at(splitter, vocab, chunk, i)->0.end);
    }
}

/// Where all searches are sound, so is the first one, in the whole text.
proof fn lemma_first_search(rules: Seq<SplitRule>, text: Seq<u8>)
    requires
        rules.len() > 0,
        searches_sound(rules, text, rules.len()),
    ensures
        rule_sound(rules[0], text),
{
    let whole = cut(rules, text, 0)[0];
    assert(whole == Piece::Bytes(0, text.len() as int));
    assert(piece_sound(rules[0], text, whole));
    assert(text.subrange(0, text.len() as int) =~= text);
}

/// The special tokens are among their entries.
proof fn lemma_literal_is_entry(tokens: Seq<(Seq<u8>, Rank)>, bytes: Seq<u8>)
    requires
        literals_of(tokens).contains(bytes),
    ensures
        vocab_entries(tokens).contains_key(bytes),
    decreases tokens.len(),
{
    let i = literals_of(tokens).index_of(bytes);
    if i < tokens.len() - 1 {
        assert(literals_of(tokens.drop_last())[i] == bytes);
        lemma_literal_is_entry(tokens.drop_last(), bytes);
    } else {
        assert(tokens[i].0 == bytes);
    }
}

proof fn lemma_pieces_error(
    model: Model,
    literals: Seq<Seq<u8>>,
    text: Seq<u8>,
    pieces: Seq<Piece>,
    end: int,
)
    requires
        forall|bytes: Seq<u8>| #[trigger]
            literals.contains(bytes) ==> model.specials.contains_key(bytes),
        literals_among(literals, text, pieces),
        cover(pieces, 0, end),
        end <= text.len(),
        pieces_ranks(model, text, pieces) is Err,
    ensures
        pieces_ranks(model, text, pieces)->Err_0.len() == 1,
        !model.vocab.contains_key(pieces_ranks(model, text, pieces)->Err_0),
    decreases pieces.len(),
{
    let init = pieces.drop_last();
    let last = pieces.last();
    assert(pieces[pieces.len() - 1] == last);
    lemma_cover_bounds(pieces, 0, end);
    lemma_cover_last(pieces, 0, end);
    if pieces_ranks(model, text, init) is Err {
        assert forall|i: int| 0 <= i < init.len() && (
        #[trigger] init[i]) is Literal implies literals.contains(
            text.subrange(init[i].start(), init[i].end()),
        ) by {
            assert(init[i] == pieces[i]);
        }
        lemma_pieces_error(model, literals, text, init, last.start());
    } else {
        let bytes = text.subrange(last.start(), last.end());
        lemma_no_word(model.words, model.vocab, bytes, 0);
    }
}

/// The error of a text that has no tokens names a single byte, which is no token.
pub proof fn lemma_error_names_byte(
    vocab: Seq<(Seq<u8>, Rank)>,
    specials: Seq<(Seq<u8>, Rank)>,
    merges: Option<Seq<(Seq<u8>, Seq<u8>)>>,
    prefix: Option<Seq<u8>>,
    rules: Seq<SplitRule>,
    words: WordSplitter,
    text: Seq<u8>,
    bytes: Seq<u8>,
)
    requires
        no_literals(rules),
        ({
            let model = assembled(vocab, specials, merges, prefix, rules, words);
            &&& searches_sound(model.rules, prefixed(model, text), model.rules.len())
            &&& encoded(model, text) == Err::<Seq<Rank>, Seq<u8>>(bytes)
        }),
    ensures
        bytes.len() == 1,
        !assembled(vocab, specials, merges, prefix, rules, words).vocab.contains_key(bytes),
{
    let model = assembled(vocab, specials, merges, prefix, rules, words);
    let whole = prefixed(model, text);
    let literals = literals_of(specials);
    let n = model.rules.len();
    lemma_first_search(model.rules, whole);
    lemma_literals_are_special(literals, rules, whole, n);
    lemma_cut_cover(model.rules, whole, n);
    assert forall|b: Seq<u8>| #[trigger]
        literals.contains(b) implies model.specials.contains_key(b) by {
        lemma_literal_is_entry(specials, b);
    }
    lemma_pieces_error(model, literals, whole, cut(model.rules, whole, n), whole.len() as int);
}

/// Where each single byte is a token, each text has tokens.
pub proof fn lemma_all_bytes_suffice(
    vocab: Seq<(Seq<u8>, Rank)>,
    specials: Seq<(Seq<u8>, Rank)>,
    merges: Option<Seq<(Seq<u8>, Seq<u8>)>>,
    prefix: Option<Seq<u8>>,
    rules: Seq<SplitRule>,
    words: WordSplitter,
    text: Seq<u8>,
)
    requires
        no_literals(rules),
        ({
            let model = assembled(vocab, specials, merges, prefix, rules, words);
            &&& searches_sound(model.rules, prefixed(model, text), model.rules.len())
            &&& forall|byte: u8| model.vocab.contains_key(#[trigger] seq![byte])
        }),
    ensures
        encoded(assembled(vocab, specials, merges, prefix, rules, words), text) is Ok,
{
    let model = assembled(vocab, specials, merges, prefix, rules, words);
    if encoded(model, text) is Err {
        let bytes = encoded(model, text)->Err_0;
        lemma_error_names_byte(vocab, specials, merges, prefix, rules, words, text, bytes);
        assert(bytes =~= seq![bytes[0]]);
    }
}

/// A text that is one literal is cut into that literal.
proof fn lemma_cut_literal(
    literals: Seq<Seq<u8>>,
    rules: Seq<SplitRule>,
    text: Seq<u8>,
    n: nat,
)
    requires
        literals.contains(text),
        text.len() > 0,
        found_soundly(literals, text),
        1 <= n <= rules.len() + 1,
    ensures
        cut(seq![SplitRule::Literals(literals)] + rules, text, n) == seq![
            Piece::Literal(0, text.len() as int),
        ],
    decreases n,
{
    let all = seq![SplitRule::Literals(literals)] + rules;
    let len = text.len() as int;
    let one = seq![Piece::Literal(0, len)];
    if n == 1 {
        assert(text.subrange(0, len) =~= text);
        let none: Seq<(int, int)> = Seq::empty();
        let spans = found_literals(literals, text);
        assert(spans.drop_first() =~= none);
        assert(pieces_at(none, len, len, true) =~= Seq::empty());
        assert(pieces_at(spans, 0, len, true) =~= one);
        let whole = seq![Piece::Bytes(0, len)];
        assert(cut(all, text, 0) == whole);
        lemma_cut_one(all[0], text, whole[0]);
        assert(all_moved(one, 0) =~= one);
    } else {
        let k = (n - 1) as nat;
        lemma_cut_literal(literals, rules, text, k);
        lemma_cut_one(all[k as int], text, one[0]);
    }
}

/// A special token is one token, whatever the rules would cut it into.
pub proof fn lemma_special_is_one_token(
    vocab: Seq<(Seq<u8>, Rank)>,
    specials: Seq<(Seq<u8>, Rank)>,
    merges: Option<Seq<(Seq<u8>, Seq<u8>)>>,
    rules: Seq<SplitRule>,
    words: WordSplitter,
    i: int,
)
    requires
        0 <= i < specials.len(),
        specials[i].0.len() > 0,
        found_soundly(literals_of(specials), specials[i].0),
    ensures
        encoded(assembled(vocab, specials, merges, None, rules, words), specials[i].0) == Ok::<
            Seq<Rank>,
            Seq<u8>,
        >(seq![vocab_entries(specials)[specials[i].0].rank]),
{
    let model = assembled(vocab, specials, merges, None, rules, words);
    let text = specials[i].0;
    let n = model.rules.len();
    assert(literals_of(specials)[i] == text);
    lemma_cut_literal(literals_of(specials), rules, text, n);
    lemma_literal_is_entry(specials, text);
    let one = seq![Piece::Literal(0, text.len() as int)];
    assert(one.drop_last() =~= Seq::empty());
    assert(text.subrange(0, text.len() as int) =~= text);
    let rank = model.specials[text].rank;
    assert(pieces_ranks(model, text, one.drop_last()) == Ok::<Seq<Rank>, Seq<u8>>(Seq::empty()));
    assert(Seq::<Rank>::empty() + seq![rank] =~= seq![rank]);
}

/// The empty text has no tokens, where there is no prefix and no empty special token.
pub proof fn lemma_empty_text(
    vocab: Seq<(Seq<u8>, Rank)>,
    specials: Seq<(Seq<u8>, Rank)>,
    merges: Option<Seq<(Seq<u8>, Seq<u8>)>>,
    rules: Seq<SplitRule>,
    words: WordSplitter,
)
    requires
        !literals_of(specials).contains(Seq::empty()),
    ensures
        encoded(assembled(vocab, specials, merges, None, rules, words), Seq::empty()) == Ok::<
            Seq<Rank>,
            Seq<u8>,
        >(Seq::empty()),
{
    let model = assembled(vocab, specials, merges, None, rules, words);
    lemma_cut_empty(literals_of(specials), rules, model.rules.len());
}

proof fn lemma_cut_empty(literals: Seq<Seq<u8>>, rules: Seq<SplitRule>, n: nat)
    requires
        !literals.contains(Seq::empty()),
        1 <= n <= rules.len() + 1,
    ensures
        cut(seq![SplitRule::Literals(literals)] + rules, Seq::empty(), n) == Seq::<Piece>::empty(),
    decreases n,
{
    let all = seq![SplitRule::Literals(literals)] + rules;
    let text: Seq<u8> = Seq::empty();
    if n == 1 {
        lemma_longest_bounds(literals, text, 0, 0);
        assert(text.subrange(0, 0) =~= text);
        assert(longest_at(literals, text, 0, 0) is None);
        assert(literal_matches(literals, text, 1, false) =~= Seq::empty());
        assert(literal_matches(literals, text, 0, false) =~= Seq::empty());
        let whole = seq![Piece::Bytes(0, 0)];
        assert(cut(all, text, 0) == whole);
        lemma_cut_one(all[0], text, whole[0]);
        assert(rule_pieces(all[0], text) =~= Seq::empty());
        assert(all_moved(Seq::empty(), 0) =~= Seq::empty());
    } else {
        lemma_cut_empty(literals, rules, (n - 1) as nat);
    }
}

} // verus!
