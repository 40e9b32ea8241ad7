//! The tokenizer itself.
use vstd::prelude::*;
use vstd::slice::slice_subrange;

use crate::bpe::{bpe_merge, chunk_ranks};
use crate::encoder::{encoder_get, entries, EncoderMap, Entry};
use crate::error::{is_no_valid_token, lossy, Error};
use crate::search::{automaton_fits, byte_strings, surely_fit, LiteralSearch};
use crate::splitters::{
    cover, cut, cut_all, cut_failure, lemma_cover_bounds, may_give_up, pieces, rule_steady,
    rules_of, searches_sound, Piece, Split, SplitRule, Splitter,
};
use crate::vocabulary::{
    decoder_rows, fill_decoder, fill_encoder, lemma_vocab_entries_unmerged, merges_grow, merges_of,
    note_merges, ranks_fit, rows_of, tokens_of, vocab_entries, with_merges, Token,
};
use crate::words::WordSplitter;
use crate::Rank;

verus! {

pub struct Tokenizer {
    encoder: EncoderMap,
    special_encoder: EncoderMap,
    decoder: Vec<Vec<u8>>,
    special_tokens_decoder: Vec<Vec<u8>>,
    prefix: Option<Vec<u8>>,
    splitters: Vec<Splitter>,
    word_splitter: WordSplitter,
}

/// The mathematical content of a [`Tokenizer`].
#[verifier::ext_equal]
pub struct Model {
    /// The tokens, by their bytes.
    pub vocab: Map<Seq<u8>, Entry>,
    /// The special tokens, by their bytes.
    pub specials: Map<Seq<u8>, Entry>,
    /// The bytes of the tokens, by rank.
    pub decoder: Seq<Seq<u8>>,
    /// The bytes of the special tokens, by rank.
    pub special_decoder: Seq<Seq<u8>>,
    /// What is put before each text.
    pub prefix: Option<Seq<u8>>,
    /// How a text is cut, rule after rule.
    pub rules: Seq<SplitRule>,
    /// What a piece is cut into before merging.
    pub words: WordSplitter,
}

pub open spec fn bytes_of(bytes: Option<Vec<u8>>) -> Option<Seq<u8>> {
    match bytes {
        Some(bytes) => Some(bytes@),
        None => None,
    }
}

pub open spec fn literals_of(tokens: Seq<(Seq<u8>, Rank)>) -> Seq<Seq<u8>> {
    tokens.map_values(|token: (Seq<u8>, Rank)| token.0)
}

/// The tokenizer with this vocabulary. Special tokens are cut out before any other rule applies.
pub open spec fn assembled(
    vocab: Seq<(Seq<u8>, Rank)>,
    specials: Seq<(Seq<u8>, Rank)>,
    merges: Option<Seq<(Seq<u8>, Seq<u8>)>>,
    prefix: Option<Seq<u8>>,
    rules: Seq<SplitRule>,
    words: WordSplitter,
) -> Model {
    Model {
        vocab: match merges {
            Some(merges) => with_merges(vocab_entries(vocab), merges),
            None => vocab_entries(vocab),
        },
        specials: vocab_entries(specials),
        decoder: decoder_rows(vocab),
        special_decoder: decoder_rows(specials),
        prefix,
        rules: seq![SplitRule::Literals(literals_of(specials))] + rules,
        words,
    }
}

/// The text that is cut and encoded.
pub open spec fn prefixed(model: Model, text: Seq<u8>) -> Seq<u8> {
    match model.prefix {
        Some(prefix) => prefix + text,
        None => text,
    }
}

/// The tokens of one piece, or the bytes for which there is none. A literal is a special token
/// where it is one; a piece that is a token is not taken apart.
pub open spec fn piece_ranks(model: Model, text: Seq<u8>, piece: Piece) -> Result<
    Seq<Rank>,
    Seq<u8>,
> {
    let bytes = text.subrange(piece.start(), piece.end());
    if piece is Literal && model.specials.contains_key(bytes) {
        Ok(seq![model.specials[bytes].rank])
    } else if model.vocab.contains_key(bytes) {
        Ok(seq![model.vocab[bytes].rank])
    } else if piece is Literal {
        Err(bytes)
    } else {
        match chunk_ranks(model.words, model.vocab, bytes) {
            Ok(ranks) => Ok(ranks),
            Err(at) => Err(bytes.subrange(at, at + 1)),
        }
    }
}

/// The tokens of the pieces, or the first bytes for which there is none.
pub open spec fn pieces_ranks(model: Model, text: Seq<u8>, pieces: Seq<Piece>) -> Result<
    Seq<Rank>,
    Seq<u8>,
>
    decreases pieces.len(),
{
    if pieces.len() == 0 {
        Ok(Seq::empty())
    } else {
        match pieces_ranks(model, text, pieces.drop_last()) {
            Err(bytes) => Err(bytes),
            Ok(before) => match piece_ranks(model, text, pieces.last()) {
                Err(bytes) => Err(bytes),
                Ok(ranks) => Ok(before + ranks),
            },
        }
    }
}

/// The tokens of a text, or the first bytes for which there is none.
pub open spec fn encoded(model: Model, text: Seq<u8>) -> Result<Seq<Rank>, Seq<u8>> {
    let whole = prefixed(model, text);
    pieces_ranks(model, whole, cut(model.rules, whole, model.rules.len()))
}

/// The bytes of a rank: a token's before a special token's.
pub open spec fn row_of(model: Model, rank: Rank) -> Option<Seq<u8>> {
    if rank < model.decoder.len() {
        Some(model.decoder[rank as int])
    } else if rank < model.special_decoder.len() {
        Some(model.special_decoder[rank as int])
    } else {
        None
    }
}

/// The bytes of each of the ranks; ranks that are not known are passed over.
pub open spec fn rows_at(model: Model, ranks: Seq<Rank>) -> Seq<Seq<u8>>
    decreases ranks.len(),
{
    if ranks.len() == 0 {
        Seq::empty()
    } else {
        match row_of(model, ranks.last()) {
            Some(row) => rows_at(model, ranks.drop_last()).push(row),
            None => rows_at(model, ranks.drop_last()),
        }
    }
}

/// The rows, the first one without the prefix where it begins with it.
pub open spec fn without_prefix(prefix: Option<Seq<u8>>, rows: Seq<Seq<u8>>) -> Seq<Seq<u8>> {
    match prefix {
        Some(prefix) => if rows.len() > 0 && prefix.is_prefix_of(rows[0]) {
            rows.update(0, rows[0].skip(prefix.len() as int))
        } else {
            rows
        },
        None => rows,
    }
}

/// The bytes that the ranks stand for, rank by rank.
pub open spec fn decoded(model: Model, ranks: Seq<Rank>) -> Seq<Seq<u8>> {
    without_prefix(model.prefix, rows_at(model, ranks))
}

/// What encoding may answer for a text that has its prefix: its tokens, or the error that names the
/// first bytes for which there is none. Where a pattern is searched for, the search may be given
/// up instead.
pub open spec fn may_encode_whole(
    model: Model,
    whole: Seq<u8>,
    result: Result<Seq<Rank>, Error>,
) -> bool {
    let ranks = pieces_ranks(model, whole, cut(model.rules, whole, model.rules.len()));
    match result {
        Err(Error::RegexError(e)) => may_give_up(model.rules, whole, Error::RegexError(e)),
        _ => {
            &&& cut_failure(model.rules, whole, model.rules.len()) is None
            &&& searches_sound(model.rules, whole, model.rules.len())
            &&& match result {
                Ok(r) => ranks == Ok::<Seq<Rank>, Seq<u8>>(r),
                Err(error) => ranks matches Err(bytes) && is_no_valid_token(error, bytes),
            }
        },
    }
}

/// What encoding may answer for a text.
pub open spec fn may_encode(model: Model, text: Seq<u8>, result: Result<Seq<Rank>, Error>) -> bool {
    may_encode_whole(model, prefixed(model, text), result)
}

fn starts_with(bytes: &[u8], prefix: &[u8]) -> (answer: bool)
    ensures
        answer == prefix@.is_prefix_of(bytes@),
{
    if bytes.len() < prefix.len() {
        return false;
    }
    let mut i: usize = 0;
    while i < prefix.len()
        invariant
            i <= prefix@.len() <= bytes@.len(),
            forall|k: int| 0 <= k < i ==> prefix@[k] == bytes@[k],
        decreases prefix@.len() - i,
    {
        if bytes[i] != prefix[i] {
            assert(bytes@.subrange(0, prefix@.len() as int)[i as int] == bytes@[i as int]);
            return false;
        }
        i = i + 1;
    }
    assert(prefix@ =~= bytes@.subrange(0, prefix@.len() as int));
    true
}

impl View for Tokenizer {
    type V = Model;

    closed spec fn view(&self) -> Model {
        Model {
            vocab: entries(self.encoder),
            specials: entries(self.special_encoder),
            decoder: rows_of(self.decoder@),
            special_decoder: rows_of(self.special_tokens_decoder@),
            prefix: bytes_of(self.prefix),
            rules: rules_of(self.splitters@),
            words: self.word_splitter,
        }
    }
}

impl Tokenizer {
    #[verifier::type_invariant]
    closed spec fn all_steady(self) -> bool {
        forall|i: int| 0 <= i < self.splitters@.len() ==> rule_steady(
            (#[trigger] self.splitters@[i])@,
        )
    }

    /// The tokenizer with this vocabulary, if the special tokens fit an automaton.
    pub fn from_vocab_and_splitters(
        vocab: Vec<Token>,
        special_vocab: Vec<Token>,
        merges: Option<Vec<(Vec<u8>, Vec<u8>)>>,
        prefix: Option<Vec<u8>>,
        splitters: Vec<Splitter>,
        word_splitter: WordSplitter,
    ) -> (result: Result<Tokenizer, Error>)
        requires
            automaton_fits(literals_of(tokens_of(special_vocab@))) ==> {
                &&& ranks_fit(tokens_of(vocab@))
                &&& ranks_fit(tokens_of(special_vocab@))
                &&& merges matches Some(m) ==> merges_grow(
                    vocab_entries(tokens_of(vocab@)),
                    merges_of(m@),
                )
                &&& forall|i: int|
                    0 <= i < splitters@.len() ==> rule_steady((#[trigger] splitters@[i])@)
            },
        ensures
            surely_fit(literals_of(tokens_of(special_vocab@))) ==> result is Ok,
            match result {
                Ok(tokenizer) => {
                    &&& automaton_fits(literals_of(tokens_of(special_vocab@)))
                    &&& tokenizer@ == assembled(
                        tokens_of(vocab@),
                        tokens_of(special_vocab@),
                        match merges {
                            Some(m) => Some(merges_of(m@)),
                            None => None,
                        },
                        bytes_of(prefix),
                        rules_of(splitters@),
                        word_splitter,
                    )
                },
                Err(error) => {
                    &&& !automaton_fits(literals_of(tokens_of(special_vocab@)))
                    &&& error is AhoCorasickError
                },
            },
    {
        let ghost given = splitters@;
        let special_tokens_search = match special_search(&special_vocab) {
            Ok(search) => search,
            Err(error) => {
                return Err(error);
            },
        };
        let mut all_splitters: Vec<Splitter> = Vec::new();
        all_splitters.push(Splitter::AhoCorasick(special_tokens_search));
        let mut splitters = splitters;
        all_splitters.append(&mut splitters);
        let mut encoder = fill_encoder(&vocab);
        proof {
            lemma_vocab_entries_unmerged(tokens_of(vocab@));
            assert(rules_of(all_splitters@) =~= seq![
                SplitRule::Literals(literals_of(tokens_of(special_vocab@))),
            ] + rules_of(given));
        }
        if let Some(merges) = &merges {
            note_merges(&mut encoder, merges);
        }
        Ok(
            Tokenizer {
                encoder,
                special_encoder: fill_encoder(&special_vocab),
                decoder: fill_decoder(&vocab),
                special_tokens_decoder: fill_decoder(&special_vocab),
                prefix,
                splitters: all_splitters,
                word_splitter,
            },
        )
    }

    /// The bytes that the ranks stand for, rank by rank. Ranks that are not known are passed over,
    /// and the prefix is taken off where the first bytes begin with it.
    pub fn decode(&self, tokens: &[Rank]) -> (result: Result<Vec<&[u8]>, Error>)
        ensures
            result matches Ok(rows) && byte_strings(rows@) == decoded(self@, tokens@),
    {
        let mut rows: Vec<&[u8]> = Vec::with_capacity(tokens.len());
        let mut i: usize = 0;
        assert(byte_strings(rows@) =~= rows_at(self@, tokens@.take(0)));
        while i < tokens.len()
            invariant
                i <= tokens@.len(),
                byte_strings(rows@) == rows_at(self@, tokens@.take(i as int)),
            decreases tokens@.len() - i,
        {
            let ghost before = byte_strings(rows@);
            assert(tokens@.take(i + 1).drop_last() =~= tokens@.take(i as int));
            let rank: usize = tokens[i] as usize;
            if rank < self.decoder.len() {
                rows.push(self.decoder[rank].as_slice());
                assert(byte_strings(rows@) =~= before.push(self@.decoder[rank as int]));
            } else if rank < self.special_tokens_decoder.len() {
                rows.push(self.special_tokens_decoder[rank].as_slice());
                assert(byte_strings(rows@) =~= before.push(self@.special_decoder[rank as int]));
            }
            i = i + 1;
        }
        assert(tokens@.take(tokens@.len() as int) =~= tokens@);
        if let Some(prefix) = &self.prefix {
            if rows.len() > 0 && starts_with(rows[0], prefix.as_slice()) {
                let ghost before = byte_strings(rows@);
                let first: &[u8] = rows[0];
                rows[0] = slice_subrange(first, prefix.len(), first.len());
                assert(byte_strings(rows@) =~= before.update(
                    0,
                    before[0].skip(prefix@.len() as int),
                ));
            }
        }
        Ok(rows)
    }

    /// The tokens of a text. Where bytes have no token, the first of them are named in the error; a
    /// search with a pattern may be given up instead.
    pub fn encode(&self, text: &[u8]) -> (result: Result<Vec<Rank>, Error>)
        requires
            prefixed(self@, text@).len() <= usize::MAX,
        ensures
            result matches Ok(ranks) ==> may_encode(self@, text@, Ok(ranks@)),
            result matches Err(error) ==> may_encode(self@, text@, Err(error)),
    {
        match &self.prefix {
            Some(prefix) => {
                let mut whole: Vec<u8> = Vec::with_capacity(prefix.len() + text.len());
                whole.extend_from_slice(prefix.as_slice());
                whole.extend_from_slice(text);
                assert(whole@ =~= prefix@ + text@);
                self.encode_whole(whole.as_slice())
            },
            None => self.encode_whole(text),
        }
    }

    /// The tokens of a text that has its prefix.
    fn encode_whole(&self, text: &[u8]) -> (result: Result<Vec<Rank>, Error>)
        ensures
            result matches Ok(ranks) ==> may_encode_whole(self@, text@, Ok(ranks@)),
            result matches Err(error) ==> may_encode_whole(self@, text@, Err(error)),
    {
        proof {
            use_type_invariant(self);
        }
        match cut_all(&self.splitters, text) {
            Ok(splits) => self.encode_splits(text, &splits),
            Err(error) => Err(error),
        }
    }

    /// The tokens of a text that is cut into these pieces.
    pub fn encode_splits(&self, text: &[u8], splits: &Vec<Split>) -> (result: Result<
        Vec<Rank>,
        Error,
    >)
        requires
            cover(pieces(splits@), 0, text@.len() as int),
        ensures
            match pieces_ranks(self@, text@, pieces(splits@)) {
                Ok(ranks) => result matches Ok(r) && r@ == ranks,
                Err(bytes) => result matches Err(error) && is_no_valid_token(error, bytes),
            },
    {
        let ghost all = pieces(splits@);
        let mut ranks: Vec<Rank> = Vec::with_capacity(text.len() / 4);
        let mut i: usize = 0;
        proof {
            lemma_cover_bounds(all, 0, text@.len() as int);
            assert(all.take(0) =~= Seq::empty());
        }
        while i < splits.len()
            invariant
                i <= splits@.len(),
                all == pieces(splits@),
                forall|i: int|
                    0 <= i < all.len() ==> 0 <= (#[trigger] all[i]).start() <= all[i].end()
                        <= text@.len(),
                pieces_ranks(self@, text@, all.take(i as int)) == Ok::<Seq<Rank>, Seq<u8>>(ranks@),
            decreases splits@.len() - i,
        {
            let ghost before = ranks@;
            let ghost piece = splits@[i as int]@;
            proof {
                assert(all[i as int] == piece);
                assert(all.take(i + 1).drop_last() =~= all.take(i as int));
                assert(all.take(i + 1).last() == piece);
            }
            let encoding = self.encode_split(text, &splits[i], &mut ranks);
            if let Err(error) = encoding {
                proof {
                    lemma_error_stays(self@, text@, all, i + 1);
                    assert(all.take(all.len() as int) =~= all);
                }
                return Err(error);
            }
            i = i + 1;
        }
        assert(all.take(all.len() as int) =~= all);
        Ok(ranks)
    }

    /// Appends the tokens of one piece of a text.
    fn encode_split(&self, text: &[u8], split: &Split, ranks: &mut Vec<Rank>) -> (result: Result<
        (),
        Error,
    >)
        requires
            0 <= split@.start() <= split@.end() <= text@.len(),
        ensures
            match piece_ranks(self@, text@, split@) {
                Ok(r) => result is Ok && final(ranks)@ == old(ranks)@ + r,
                Err(bytes) => result matches Err(error) && is_no_valid_token(error, bytes),
            },
    {
        match split {
            Split::Literal(range) => {
                let bytes: &[u8] = slice_subrange(text, range.start, range.end);
                if let Some(entry) = encoder_get(&self.special_encoder, bytes) {
                    ranks.push(entry.rank);
                    assert(ranks@ =~= old(ranks)@ + seq![entry.rank]);
                    Ok(())
                } else if let Some(entry) = encoder_get(&self.encoder, bytes) {
                    ranks.push(entry.rank);
                    assert(ranks@ =~= old(ranks)@ + seq![entry.rank]);
                    Ok(())
                } else {
                    Err(Error::NoValidToken(lossy(bytes)))
                }
            },
            Split::Bytes(range) => {
                let bytes: &[u8] = slice_subrange(text, range.start, range.end);
                if let Some(entry) = encoder_get(&self.encoder, bytes) {
                    ranks.push(entry.rank);
                    assert(ranks@ =~= old(ranks)@ + seq![entry.rank]);
                    Ok(())
                } else {
                    self.bpe_merge(bytes, ranks)
                }
            },
        }
    }

    /// Appends the tokens of a chunk that is no token itself.
    fn bpe_merge(&self, chunk: &[u8], output: &mut Vec<Rank>) -> (result: Result<(), Error>)
        ensures
            match chunk_ranks(self@.words, self@.vocab, chunk@) {
                Ok(ranks) => result is Ok && final(output)@ == old(output)@ + ranks,
                Err(at) => {
                    &&& result matches Err(error)
                    &&& is_no_valid_token(error, chunk@.subrange(at, at + 1))
                    &&& final(output)@ == old(output)@
                },
            },
    {
        bpe_merge(&self.word_splitter, &self.encoder, chunk, output)
    }
}

/// A search for the special tokens.
pub(crate) fn special_search(special_vocab: &Vec<Token>) -> (result: Result<LiteralSearch, Error>)
    ensures
        surely_fit(literals_of(tokens_of(special_vocab@))) ==> result is Ok,
        match result {
            Ok(search) => {
                &&& automaton_fits(literals_of(tokens_of(special_vocab@)))
                &&& search.literals() == literals_of(tokens_of(special_vocab@))
            },
            Err(error) => {
                &&& !automaton_fits(literals_of(tokens_of(special_vocab@)))
                &&& error is AhoCorasickError
            },
        },
{
    let mut literals: Vec<&[u8]> = Vec::with_capacity(special_vocab.len());
    let mut i: usize = 0;
    while i < special_vocab.len()
        invariant
            i <= special_vocab@.len(),
            literals@.len() == i,
            forall|k: int|
                0 <= k < i ==> (#[trigger] literals@[k])@ == special_vocab@[k].bytes@,
        decreases special_vocab@.len() - i,
    {
        literals.push(special_vocab[i].bytes.as_slice());
        i = i + 1;
    }
    assert(byte_strings(literals@) =~= literals_of(tokens_of(special_vocab@)));
    LiteralSearch::new(&literals)
}

/// An error in the first pieces is the error of all of them.
proof fn lemma_error_stays(model: Model, text: Seq<u8>, pieces: Seq<Piece>, n: int)
    requires
        0 <= n <= pieces.len(),
        pieces_ranks(model, text, pieces.take(n)) is Err,
    ensures
        pieces_ranks(model, text, pieces.take(pieces.len() as int)) == pieces_ranks(
            model,
            text,
            pieces.take(n),
        ),
    decreases pieces.len() - n,
{
    if n < pieces.len() {
        assert(pieces.take(n + 1).drop_last() =~= pieces.take(n));
        lemma_error_stays(model, text, pieces, n + 1);
    }
}

} // verus!
