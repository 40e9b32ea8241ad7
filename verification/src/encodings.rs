//! What the tokens of a text are, in terms of the lists that the tokenizer was made from.
use vstd::prelude::*;

use crate::bpe::chunk_ranks;
use crate::cuts::{cut_by_rules, lemma_search_is_given_up, lemma_text_is_cut};
use crate::error::{error_code, no_memory, utf8_lossy, Error};
use crate::histories::{lemma_chunk_merges, merges_into, stuck, walked};
use crate::search::regex_failure;
use crate::splitters::{cut, Piece, SplitRule};
use crate::tables::{
    holds, lemma_entries_hold_tokens, lemma_tables_hold_lists, listed, merges_in, ranked,
};
use crate::tokenizer::{
    assembled, literals_of, may_encode, piece_ranks, pieces_ranks, prefixed, Model,
};
use crate::vocabulary::{merges_grow, vocab_entries};
use crate::words::WordSplitter;
use crate::Rank;

verus! {

/// The lists from which a tokenizer is made.
pub struct Lists {
    pub vocab: Seq<(Seq<u8>, Rank)>,
    pub specials: Seq<(Seq<u8>, Rank)>,
    pub merges: Option<Seq<(Seq<u8>, Seq<u8>)>>,
    pub prefix: Option<Seq<u8>>,
    pub rules: Seq<SplitRule>,
    pub words: WordSplitter,
}

impl Lists {
    /// The tokenizer that is made from the lists.
    pub open spec fn model(self) -> Model {
        assembled(
            self.vocab,
            self.specials,
            self.merges,
            self.prefix,
            self.rules,
            self.words,
        )
    }

    /// The merges add something where they make a token, and their places are numbers of 32 bits.
    pub open spec fn valid(self) -> bool {
        &&& merges_in(self.merges).len() <= Rank::MAX + 1
        &&& forall|i: int|
            #![trigger merges_in(self.merges)[i]]
            0 <= i < merges_in(self.merges).len() && listed(
                self.vocab,
                merges_in(self.merges)[i].0 + merges_in(self.merges)[i].1,
            ) ==> merges_in(self.merges)[i].1.len() > 0
    }

    /// The text that is cut: the prefix, if there is one, and the text.
    pub open spec fn whole(self, text: Seq<u8>) -> Seq<u8> {
        match self.prefix {
            Some(prefix) => prefix + text,
            None => text,
        }
    }

    /// What cuts a text: first the special tokens, then the rules.
    pub open spec fn all_rules(self) -> Seq<SplitRule> {
        seq![
            SplitRule::Literals(
                Seq::new(self.specials.len(), |i: int| self.specials[i].0),
            ),
        ] + self.rules
    }

    /// The tokens of a piece of the text. A literal is a special token before it is a token. Any
    /// other piece is one token where it is one; else it is cut into words, and these are merged.
    pub open spec fn piece_has(self, whole: Seq<u8>, piece: Piece, ranks: Seq<Rank>) -> bool {
        let bytes = whole.subrange(piece.start(), piece.end());
        match piece {
            Piece::Literal(_, _) => {
                &&& ranks.len() == 1
                &&& listed(self.specials, bytes) ==> ranked(self.specials, bytes, ranks[0])
                &&& !listed(self.specials, bytes) ==> ranked(self.vocab, bytes, ranks[0])
            },
            Piece::Bytes(_, _) => {
                &&& listed(self.vocab, bytes) ==> ranks.len() == 1 && ranked(
                    self.vocab,
                    bytes,
                    ranks[0],
                )
                &&& !listed(self.vocab, bytes) ==> merges_into(
                    self.words,
                    self.vocab,
                    merges_in(self.merges),
                    bytes,
                    ranks,
                )
            },
        }
    }

    /// The piece has no tokens, and the error names why: a literal that is no token at all, or the
    /// first byte at which no word begins.
    pub open spec fn piece_lacks(self, whole: Seq<u8>, piece: Piece, shown: Seq<char>) -> bool {
        let bytes = whole.subrange(piece.start(), piece.end());
        match piece {
            Piece::Literal(_, _) => {
                &&& !listed(self.specials, bytes)
                &&& !listed(self.vocab, bytes)
                &&& shown == utf8_lossy(bytes)
            },
            Piece::Bytes(_, _) => {
                &&& !listed(self.vocab, bytes)
                &&& exists|at: int, cuts: Seq<int>|
                    {
                        &&& #[trigger] walked(self.words, self.vocab, bytes, 0, at, cuts)
                        &&& stuck(self.words, self.vocab, bytes, at)
                        &&& shown == utf8_lossy(bytes.subrange(at, at + 1))
                    }
            },
        }
    }

    /// The ranks are the tokens of the text: those of its pieces, one piece after the other.
    pub open spec fn text_has(self, text: Seq<u8>, ranks: Seq<Rank>) -> bool {
        exists|pieces: Seq<Piece>, groups: Seq<Seq<Rank>>|
            {
                &&& cut_by_rules(self.all_rules(), self.whole(text), pieces)
                &&& #[trigger] self.pieces_have(self.whole(text), pieces, groups)
                &&& ranks == groups.flatten()
                &&& pieces.len() == groups.len()
            }
    }

    /// Each of the groups holds the tokens of the piece at the same place.
    pub open spec fn pieces_have(
        self,
        whole: Seq<u8>,
        pieces: Seq<Piece>,
        groups: Seq<Seq<Rank>>,
    ) -> bool {
        &&& groups.len() <= pieces.len()
        &&& forall|i: int|
            0 <= i < groups.len() ==> self.piece_has(whole, pieces[i], #[trigger] groups[i])
    }

    /// The text has no tokens, and the error names why: what the first of its pieces lacks that has
    /// none.
    pub open spec fn text_lacks(self, text: Seq<u8>, shown: Seq<char>) -> bool {
        exists|pieces: Seq<Piece>, groups: Seq<Seq<Rank>>|
            {
                &&& cut_by_rules(self.all_rules(), self.whole(text), pieces)
                &&& #[trigger] self.pieces_have(self.whole(text), pieces, groups)
                &&& groups.len() < pieces.len()
                &&& self.piece_lacks(
                    self.whole(text),
                    pieces[groups.len() as int],
                    shown,
                )
            }
    }
}

/// What the tables give for a piece is what the piece has.
proof fn lemma_piece(lists: Lists, whole: Seq<u8>, piece: Piece)
    requires
        lists.valid(),
    ensures
        match piece_ranks(lists.model(), whole, piece) {
            Ok(ranks) => lists.piece_has(whole, piece, ranks),
            Err(bytes) => lists.piece_lacks(whole, piece, utf8_lossy(bytes)),
        },
{
    let model = lists.model();
    let bytes = whole.subrange(piece.start(), piece.end());
    let merges = merges_in(lists.merges);
    assert(merges_grow(vocab_entries(lists.vocab), merges)) by {
        assert forall|i: int|
            #![trigger merges[i]]
            0 <= i < merges.len() && vocab_entries(lists.vocab).contains_key(
                merges[i].0 + merges[i].1,
            ) implies merges[i].1.len() > 0 by {
            lemma_entries_hold_tokens(lists.vocab, merges[i].0 + merges[i].1);
        }
    }
    lemma_tables_hold_lists(
        lists.vocab,
        lists.specials,
        lists.merges,
        lists.prefix,
        lists.rules,
        lists.words,
    );
    assert(holds(model.vocab, lists.vocab, merges));
    assert(model.vocab.contains_key(bytes) == listed(lists.vocab, bytes));
    assert(model.specials.contains_key(bytes) == listed(lists.specials, bytes));
    lemma_chunk_merges(lists.words, model.vocab, lists.vocab, merges, bytes);
    if piece is Bytes && !listed(lists.vocab, bytes) {
        if let Err(at) = chunk_ranks(model.words, model.vocab, bytes) {
            let cuts = choose|cuts: Seq<int>|
                walked(lists.words, lists.vocab, bytes, 0, at, cuts);
            assert(walked(lists.words, lists.vocab, bytes, 0, at, cuts));
        }
    }
}

/// The tokens of pieces are those of each of them, one after the other; where there are none, the
/// first piece that has none says why.
pub proof fn lemma_pieces(lists: Lists, whole: Seq<u8>, pieces: Seq<Piece>) -> (groups: Seq<
    Seq<Rank>,
>)
    requires
        lists.valid(),
    ensures
        lists.pieces_have(whole, pieces, groups),
        match pieces_ranks(lists.model(), whole, pieces) {
            Ok(ranks) => groups.len() == pieces.len() && ranks == groups.flatten(),
            Err(bytes) => groups.len() < pieces.len() && lists.piece_lacks(
                whole,
                pieces[groups.len() as int],
                utf8_lossy(bytes),
            ),
        },
    decreases pieces.len(),
{
    if pieces.len() == 0 {
        let groups: Seq<Seq<Rank>> = Seq::empty();
        assert(groups.flatten() =~= Seq::empty());
        groups
    } else {
        let init = pieces.drop_last();
        let last = pieces.last();
        let before = lemma_pieces(lists, whole, init);
        lemma_piece(lists, whole, last);
        assert(pieces[pieces.len() - 1] == last);
        assert forall|i: int| 0 <= i < before.len() implies lists.piece_has(
            whole,
            pieces[i],
            #[trigger] before[i],
        ) by {
            assert(pieces[i] == init[i]);
        }
        match pieces_ranks(lists.model(), whole, init) {
            Err(bytes) => {
                assert(pieces[before.len() as int] == init[before.len() as int]);
                before
            },
            Ok(ranks) => match piece_ranks(lists.model(), whole, last) {
                Err(bytes) => before,
                Ok(more) => {
                    let groups = before.push(more);
                    before.lemma_flatten_push(more);
                    assert forall|i: int| 0 <= i < groups.len() implies lists.piece_has(
                        whole,
                        pieces[i],
                        #[trigger] groups[i],
                    ) by {
                        if i < before.len() {
                            assert(groups[i] == before[i]);
                        }
                    }
                    groups
                },
            },
        }
    }
}

/// Encoding gives the tokens of the text and nothing else: the prefix goes before the text, special
/// tokens are cut out first and then each rule cuts what is left, and each of the pieces is one
/// token or is merged from its words. Where a piece has no tokens, the error names the first byte
/// for which there is none.
pub proof fn lemma_text_is_encoded(
    lists: Lists,
    text: Seq<u8>,
    result: Result<Seq<Rank>, Error>,
)
    requires
        lists.valid(),
        may_encode(lists.model(), text, result),
        !(result matches Err(Error::RegexError(_))),
    ensures
        match result {
            Ok(ranks) => lists.text_has(text, ranks),
            Err(error) => error matches Error::NoValidToken(shown) && lists.text_lacks(
                text,
                shown@,
            ),
        },
{
    let model = lists.model();
    let whole = lists.whole(text);
    let rules = lists.all_rules();
    assert(literals_of(lists.specials) =~= Seq::new(
        lists.specials.len(),
        |i: int| lists.specials[i].0,
    ));
    assert(model.rules == rules);
    assert(prefixed(model, text) == whole);
    let pieces = cut(rules, whole, rules.len());
    lemma_text_is_cut(rules, whole, pieces);
    let groups = lemma_pieces(lists, whole, pieces);
    assert(lists.pieces_have(whole, pieces, groups));
    if let Ok(ranks) = result {
        assert(ranks == groups.flatten());
    }
}

/// Where encoding is given up, a search for the pattern of one of the rules is, in a piece of what
/// the special tokens and the rules before it leave of the text with its prefix.
pub proof fn lemma_encoding_is_given_up(lists: Lists, text: Seq<u8>, error: Error)
    requires
        may_encode(lists.model(), text, Err(error)),
        error is RegexError,
    ensures
        exists|k: int, before: Seq<Piece>, i: int|
            {
                &&& 0 <= k < lists.all_rules().len()
                &&& #[trigger] cut_by_rules(lists.all_rules().take(k), lists.whole(text), before)
                &&& 0 <= i < before.len()
                &&& #[trigger] before[i] matches Piece::Bytes(start, end)
                &&& lists.all_rules()[k] matches SplitRule::Pattern(pattern, engine)
                &&& error matches Error::RegexError(e)
                &&& no_memory(e) || regex_failure(
                    pattern,
                    engine,
                    lists.whole(text).subrange(start, end),
                ) == Some(error_code(e))
            },
{
    assert(literals_of(lists.specials) =~= Seq::new(
        lists.specials.len(),
        |i: int| lists.specials[i].0,
    ));
    assert(lists.model().rules == lists.all_rules());
    lemma_search_is_given_up(lists.all_rules(), lists.whole(text), error);
}

} // verus!
