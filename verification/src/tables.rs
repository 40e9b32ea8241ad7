//! What the tables of a tokenizer hold of the lists that it was made from, and what ranks are
//! decoded to.
use vstd::prelude::*;

use crate::bpe::priority_of;
use crate::encoder::Entry;
use crate::splitters::SplitRule;
use crate::tokenizer::{assembled, decoded, row_of, rows_at, Model};
use crate::vocabulary::{
    decoder_rows, lemma_merges_keep_vocab, lemma_vocab_entries_unmerged, merges_grow, vocab_entries,
    with_merges,
};
use crate::words::WordSplitter;
use crate::Rank;

verus! {

/// The bytes are those of one of the tokens.
pub open spec fn listed(tokens: Seq<(Seq<u8>, Rank)>, bytes: Seq<u8>) -> bool {
    exists|i: int| 0 <= i < tokens.len() && (#[trigger] tokens[i]).0 == bytes
}

/// The last of the tokens with these bytes has this rank.
pub open spec fn ranked(tokens: Seq<(Seq<u8>, Rank)>, bytes: Seq<u8>, rank: Rank) -> bool {
    exists|i: int|
        {
            &&& 0 <= i < tokens.len()
            &&& #[trigger] tokens[i] == (bytes, rank)
            &&& forall|j: int| i < j < tokens.len() ==> (#[trigger] tokens[j]).0 != bytes
        }
}

/// The last of the merges of these two parts stands at this place of the list.
pub open spec fn placed(
    merges: Seq<(Seq<u8>, Seq<u8>)>,
    left: Seq<u8>,
    right: Seq<u8>,
    place: int,
) -> bool {
    &&& 0 <= place < merges.len()
    &&& merges[place] == (left, right)
    &&& forall|j: int| place < j < merges.len() ==> #[trigger] merges[j] != (left, right)
}

/// Some merge of the list has these two parts.
pub open spec fn paired(merges: Seq<(Seq<u8>, Seq<u8>)>, left: Seq<u8>, right: Seq<u8>) -> bool {
    exists|i: int| 0 <= i < merges.len() && #[trigger] merges[i] == (left, right)
}

/// Each of the bytes that are listed has a last token.
pub proof fn lemma_listed_is_ranked(tokens: Seq<(Seq<u8>, Rank)>, bytes: Seq<u8>) -> (rank: Rank)
    requires
        listed(tokens, bytes),
    ensures
        ranked(tokens, bytes, rank),
    decreases tokens.len(),
{
    let last = tokens.len() - 1;
    if tokens[last].0 == bytes {
        assert(tokens[last] == (bytes, tokens[last].1));
        tokens[last].1
    } else {
        let init = tokens.drop_last();
        let i = choose|i: int| 0 <= i < tokens.len() && (#[trigger] tokens[i]).0 == bytes;
        assert(init[i].0 == bytes);
        let rank = lemma_listed_is_ranked(init, bytes);
        lemma_ranked_stays(tokens, bytes, rank);
        rank
    }
}

proof fn lemma_ranked_stays(tokens: Seq<(Seq<u8>, Rank)>, bytes: Seq<u8>, rank: Rank)
    requires
        tokens.len() > 0,
        tokens.last().0 != bytes,
        ranked(tokens.drop_last(), bytes, rank),
    ensures
        ranked(tokens, bytes, rank),
{
    let init = tokens.drop_last();
    let i = choose|i: int|
        {
            &&& 0 <= i < init.len()
            &&& #[trigger] init[i] == (bytes, rank)
            &&& forall|j: int| i < j < init.len() ==> (#[trigger] init[j]).0 != bytes
        };
    assert(tokens[i] == (bytes, rank));
    assert forall|j: int| i < j < tokens.len() implies (#[trigger] tokens[j]).0 != bytes by {
        if j < init.len() {
            assert(init[j].0 != bytes);
        }
    }
}

/// The same bytes do not have two ranks.
pub proof fn lemma_ranked_once(tokens: Seq<(Seq<u8>, Rank)>, bytes: Seq<u8>, a: Rank, b: Rank)
    requires
        ranked(tokens, bytes, a),
        ranked(tokens, bytes, b),
    ensures
        a == b,
{
    let i = choose|i: int|
        {
            &&& 0 <= i < tokens.len()
            &&& #[trigger] tokens[i] == (bytes, a)
            &&& forall|j: int| i < j < tokens.len() ==> (#[trigger] tokens[j]).0 != bytes
        };
    let k = choose|k: int|
        {
            &&& 0 <= k < tokens.len()
            &&& #[trigger] tokens[k] == (bytes, b)
            &&& forall|j: int| k < j < tokens.len() ==> (#[trigger] tokens[j]).0 != bytes
        };
    assert(tokens[i].0 == bytes && tokens[k].0 == bytes);
}

/// The table of a vocabulary has an entry for each of its tokens and for nothing else, with the
/// rank of the last token that has the bytes.
pub proof fn lemma_entries_hold_tokens(tokens: Seq<(Seq<u8>, Rank)>, bytes: Seq<u8>)
    ensures
        vocab_entries(tokens).contains_key(bytes) <==> listed(tokens, bytes),
        listed(tokens, bytes) ==> ranked(tokens, bytes, vocab_entries(tokens)[bytes].rank),
    decreases tokens.len(),
{
    if tokens.len() > 0 {
        let init = tokens.drop_last();
        let last = tokens.len() - 1;
        lemma_entries_hold_tokens(init, bytes);
        assert(tokens[last] == tokens.last());
        if tokens.last().0 == bytes {
            assert(listed(tokens, bytes));
            assert(tokens[last] == (bytes, vocab_entries(tokens)[bytes].rank));
        } else {
            if listed(init, bytes) {
                let i = choose|i: int| 0 <= i < init.len() && (#[trigger] init[i]).0 == bytes;
                assert(tokens[i].0 == bytes);
                lemma_ranked_stays(tokens, bytes, vocab_entries(init)[bytes].rank);
            }
            if listed(tokens, bytes) {
                let i = choose|i: int| 0 <= i < tokens.len() && (#[trigger] tokens[i]).0 == bytes;
                assert(init[i].0 == bytes);
            }
        }
    }
}

/// What is known of the merge of two parts: its last place in the list, or that it is not there.
spec fn notes(
    entry: Entry,
    merges: Seq<(Seq<u8>, Seq<u8>)>,
    left: Seq<u8>,
    right: Seq<u8>,
) -> bool {
    match priority_of(entry, left.len() as int) {
        Some(priority) => exists|place: int| #[trigger]
            placed(merges, left, right, place) && priority == place as Rank,
        None => !paired(merges, left, right),
    }
}

proof fn lemma_not_paired(merges: Seq<(Seq<u8>, Seq<u8>)>, left: Seq<u8>, right: Seq<u8>)
    requires
        merges.len() > 0,
        merges.last() != (left, right),
        !paired(merges.drop_last(), left, right),
    ensures
        !paired(merges, left, right),
{
    let init = merges.drop_last();
    assert forall|i: int| 0 <= i < merges.len() implies #[trigger] merges[i] != (left, right) by {
        if i < init.len() {
            assert(init[i] == merges[i]);
        }
    }
}

proof fn lemma_placed_stays(
    merges: Seq<(Seq<u8>, Seq<u8>)>,
    left: Seq<u8>,
    right: Seq<u8>,
    place: int,
)
    requires
        merges.len() > 0,
        merges.last() != (left, right),
        placed(merges.drop_last(), left, right, place),
    ensures
        placed(merges, left, right, place),
{
    let init = merges.drop_last();
    assert(init[place] == merges[place]);
    assert forall|j: int| place < j < merges.len() implies #[trigger] merges[j] != (
        left,
        right,
    ) by {
        if j < init.len() {
            assert(init[j] == merges[j]);
        }
    }
}

proof fn lemma_merges_noted(
    vocab: Map<Seq<u8>, Entry>,
    merges: Seq<(Seq<u8>, Seq<u8>)>,
    left: Seq<u8>,
    right: Seq<u8>,
)
    requires
        forall|key: Seq<u8>| #[trigger]
            vocab.contains_key(key) ==> vocab[key].priorities is None,
        merges_grow(vocab, merges),
        vocab.contains_key(left + right),
    ensures
        notes(with_merges(vocab, merges)[left + right], merges, left, right),
    decreases merges.len(),
{
    let whole = left + right;
    if merges.len() > 0 {
        let init = merges.drop_last();
        let last = merges.len() - 1;
        assert(merges[last] == merges.last());
        assert forall|i: int|
            #![trigger init[i]]
            0 <= i < init.len() && vocab.contains_key(init[i].0 + init[i].1) implies init[i].1.len()
            > 0 by {
            assert(init[i] == merges[i]);
        }
        lemma_merges_noted(vocab, init, left, right);
        lemma_merges_keep_vocab(vocab, init);
        let before = with_merges(vocab, init);
        let after = with_merges(vocab, merges);
        let (l, r) = merges.last();
        assert(before.contains_key(whole));
        if merges.last() == (left, right) {
            assert(right.len() > 0);
            assert(before[whole].priorities matches Some(p) ==> p.len() == whole.len());
            assert(priority_of(after[whole], left.len() as int) == Some(last as Rank));
            assert(placed(merges, left, right, last));
        } else {
            if l + r == whole && l.len() == left.len() {
                assert(l =~= whole.take(left.len() as int));
                assert(left =~= whole.take(left.len() as int));
                assert(r =~= whole.skip(left.len() as int));
                assert(right =~= whole.skip(left.len() as int));
            }
            assert(priority_of(after[whole], left.len() as int) == priority_of(
                before[whole],
                left.len() as int,
            ));
            match priority_of(before[whole], left.len() as int) {
                Some(priority) => {
                    let place = choose|place: int| #[trigger]
                        placed(init, left, right, place) && priority == place as Rank;
                    lemma_placed_stays(merges, left, right, place);
                },
                None => {
                    lemma_not_paired(merges, left, right);
                },
            }
        }
    }
}

/// What a tokenizer knows of its vocabulary: each of the tokens and nothing else, under the rank of
/// the last one with the bytes; and of the merge of two parts its last place in the list of merges.
pub open spec fn holds(
    table: Map<Seq<u8>, Entry>,
    vocab: Seq<(Seq<u8>, Rank)>,
    merges: Seq<(Seq<u8>, Seq<u8>)>,
) -> bool {
    &&& forall|bytes: Seq<u8>| #[trigger]
        table.contains_key(bytes) <==> listed(vocab, bytes)
    &&& forall|bytes: Seq<u8>| #[trigger]
        table.contains_key(bytes) ==> ranked(vocab, bytes, table[bytes].rank)
    &&& forall|left: Seq<u8>, right: Seq<u8>| #[trigger]
        table.contains_key(left + right) ==> match priority_of(
            table[left + right],
            left.len() as int,
        ) {
            Some(priority) => placed(merges, left, right, priority as int),
            None => !paired(merges, left, right),
        }
}

/// The list of merges, where there is one.
pub open spec fn merges_in(merges: Option<Seq<(Seq<u8>, Seq<u8>)>>) -> Seq<(Seq<u8>, Seq<u8>)> {
    match merges {
        Some(merges) => merges,
        None => Seq::empty(),
    }
}

/// The tables of a tokenizer hold the tokens, the special tokens and the merges that it was made
/// from, as long as the places of the merges are numbers of 32 bits.
pub proof fn lemma_tables_hold_lists(
    vocab: Seq<(Seq<u8>, Rank)>,
    specials: Seq<(Seq<u8>, Rank)>,
    merges: Option<Seq<(Seq<u8>, Seq<u8>)>>,
    prefix: Option<Seq<u8>>,
    rules: Seq<SplitRule>,
    words: WordSplitter,
)
    requires
        merges matches Some(m) ==> merges_grow(vocab_entries(vocab), m),
        merges_in(merges).len() <= Rank::MAX + 1,
    ensures
        holds(
            assembled(vocab, specials, merges, prefix, rules, words).vocab,
            vocab,
            merges_in(merges),
        ),
        forall|bytes: Seq<u8>| #[trigger]
            assembled(vocab, specials, merges, prefix, rules, words).specials.contains_key(bytes)
                <==> listed(specials, bytes),
        forall|bytes: Seq<u8>| #[trigger]
            assembled(vocab, specials, merges, prefix, rules, words).specials.contains_key(bytes)
                ==> ranked(
                specials,
                bytes,
                assembled(vocab, specials, merges, prefix, rules, words).specials[bytes].rank,
            ),
{
    let model = assembled(vocab, specials, merges, prefix, rules, words);
    let plain = vocab_entries(vocab);
    let list = merges_in(merges);
    lemma_vocab_entries_unmerged(vocab);
    assert(model.vocab == with_merges(plain, list));
    assert(merges_grow(plain, list));
    lemma_merges_keep_vocab(plain, list);
    assert forall|bytes: Seq<u8>| #[trigger] model.vocab.contains_key(bytes) <==> listed(
        vocab,
        bytes,
    ) by {
        lemma_entries_hold_tokens(vocab, bytes);
        assert(model.vocab.dom().contains(bytes) == plain.dom().contains(bytes));
    }
    assert forall|bytes: Seq<u8>| #[trigger] model.vocab.contains_key(bytes) implies ranked(
        vocab,
        bytes,
        model.vocab[bytes].rank,
    ) by {
        lemma_entries_hold_tokens(vocab, bytes);
        assert(plain.contains_key(bytes));
    }
    assert forall|left: Seq<u8>, right: Seq<u8>| #[trigger]
        model.vocab.contains_key(left + right) implies match priority_of(
        model.vocab[left + right],
        left.len() as int,
    ) {
        Some(priority) => placed(list, left, right, priority as int),
        None => !paired(list, left, right),
    } by {
        lemma_entries_hold_tokens(vocab, left + right);
        assert(plain.contains_key(left + right));
        lemma_merges_noted(plain, list, left, right);
    }
    assert forall|bytes: Seq<u8>| true implies (#[trigger] model.specials.contains_key(bytes)
        <==> listed(specials, bytes)) && (model.specials.contains_key(bytes) ==> ranked(
        specials,
        bytes,
        model.specials[bytes].rank,
    )) by {
        lemma_entries_hold_tokens(specials, bytes);
    }
}

/// Some token has this rank or a higher one.
pub open spec fn reaches(tokens: Seq<(Seq<u8>, Rank)>, rank: Rank) -> bool {
    exists|i: int| 0 <= i < tokens.len() && (#[trigger] tokens[i]).1 >= rank
}

/// The last of the tokens with this rank has these bytes; where there is none there are no bytes.
pub open spec fn stands_for(tokens: Seq<(Seq<u8>, Rank)>, rank: Rank, bytes: Seq<u8>) -> bool {
    ||| exists|i: int|
        {
            &&& 0 <= i < tokens.len()
            &&& #[trigger] tokens[i] == (bytes, rank)
            &&& forall|j: int| i < j < tokens.len() ==> (#[trigger] tokens[j]).1 != rank
        }
    ||| bytes.len() == 0 && forall|i: int|
        0 <= i < tokens.len() ==> (#[trigger] tokens[i]).1 != rank
}

proof fn lemma_rows_hold_tokens(tokens: Seq<(Seq<u8>, Rank)>, rank: Rank)
    ensures
        rank < decoder_rows(tokens).len() <==> reaches(tokens, rank),
        rank < decoder_rows(tokens).len() ==> stands_for(
            tokens,
            rank,
            decoder_rows(tokens)[rank as int],
        ),
    decreases tokens.len(),
{
    if tokens.len() > 0 {
        let init = tokens.drop_last();
        let last = tokens.len() - 1;
        let before = decoder_rows(init);
        let rows = decoder_rows(tokens);
        lemma_rows_hold_tokens(init, rank);
        assert(tokens[last] == tokens.last());
        if reaches(init, rank) {
            let i = choose|i: int| 0 <= i < init.len() && (#[trigger] init[i]).1 >= rank;
            assert(tokens[i].1 >= rank);
        }
        if reaches(tokens, rank) && !reaches(init, rank) {
            let i = choose|i: int| 0 <= i < tokens.len() && (#[trigger] tokens[i]).1 >= rank;
            if i < init.len() {
                assert(init[i].1 >= rank);
            }
            assert(i == last);
        }
        if rank < rows.len() {
            let row = rows[rank as int];
            if tokens.last().1 == rank {
                assert(tokens[last] == (row, rank));
            } else if rank < before.len() {
                assert(row == before[rank as int]);
                if exists|i: int|
                    {
                        &&& 0 <= i < init.len()
                        &&& #[trigger] init[i] == (row, rank)
                        &&& forall|j: int| i < j < init.len() ==> (#[trigger] init[j]).1 != rank
                    } {
                    let i = choose|i: int|
                        {
                            &&& 0 <= i < init.len()
                            &&& #[trigger] init[i] == (row, rank)
                            &&& forall|j: int|
                                i < j < init.len() ==> (#[trigger] init[j]).1 != rank
                        };
                    assert(tokens[i] == (row, rank));
                    assert forall|j: int| i < j < tokens.len() implies (#[trigger] tokens[j]).1
                        != rank by {
                        if j < init.len() {
                            assert(init[j].1 != rank);
                        }
                    }
                } else {
                    assert forall|i: int| 0 <= i < tokens.len() implies (#[trigger] tokens[i]).1
                        != rank by {
                        if i < init.len() {
                            assert(init[i].1 != rank);
                        }
                    }
                }
            } else {
                assert(row.len() == 0);
                assert forall|i: int| 0 <= i < tokens.len() implies (#[trigger] tokens[i]).1
                    != rank by {
                    if i < init.len() {
                        assert(!(init[i].1 >= rank));
                    }
                }
            }
        }
    }
}

/// A rank up to the highest of the vocabulary stands for the last token of the vocabulary that has
/// it, whatever the special tokens are, and for no bytes where there is none. A higher rank stands
/// for the last special token that has it in the same way, up to the highest of theirs; one that is
/// higher still is passed over.
pub proof fn lemma_rank_decodes(
    vocab: Seq<(Seq<u8>, Rank)>,
    specials: Seq<(Seq<u8>, Rank)>,
    merges: Option<Seq<(Seq<u8>, Seq<u8>)>>,
    rules: Seq<SplitRule>,
    words: WordSplitter,
    rank: Rank,
    rows: Seq<Seq<u8>>,
)
    requires
        rows == decoded(assembled(vocab, specials, merges, None, rules, words), seq![rank]),
    ensures
        reaches(vocab, rank) ==> rows.len() == 1 && stands_for(vocab, rank, rows[0]),
        !reaches(vocab, rank) && reaches(specials, rank) ==> rows.len() == 1 && stands_for(
            specials,
            rank,
            rows[0],
        ),
        !reaches(vocab, rank) && !reaches(specials, rank) ==> rows.len() == 0,
{
    let model = assembled(vocab, specials, merges, None, rules, words);
    let one = seq![rank];
    lemma_rows_hold_tokens(vocab, rank);
    lemma_rows_hold_tokens(specials, rank);
    assert(one.drop_last() =~= Seq::empty());
    assert(one.last() == rank);
    assert(rows_at(model, one.drop_last()) =~= Seq::empty());
}

/// Where the vocabulary gives a rank to one byte string only, the rank is decoded to it, whatever
/// the special tokens and their ranks are.
pub proof fn lemma_own_rank_decodes(
    vocab: Seq<(Seq<u8>, Rank)>,
    specials: Seq<(Seq<u8>, Rank)>,
    merges: Option<Seq<(Seq<u8>, Seq<u8>)>>,
    rules: Seq<SplitRule>,
    words: WordSplitter,
    bytes: Seq<u8>,
    rank: Rank,
)
    requires
        vocab.contains((bytes, rank)),
        forall|i: int|
            0 <= i < vocab.len() && (#[trigger] vocab[i]).1 == rank ==> vocab[i].0 == bytes,
    ensures
        decoded(assembled(vocab, specials, merges, None, rules, words), seq![rank]) == seq![bytes],
{
    let rows = decoded(assembled(vocab, specials, merges, None, rules, words), seq![rank]);
    lemma_rank_decodes(vocab, specials, merges, rules, words, rank, rows);
    let i = vocab.index_of((bytes, rank));
    assert(vocab[i].1 >= rank);
    assert(rows =~= seq![bytes]);
}

/// Ranks are decoded one by one: the rows of ranks one after the other are those of the first, then
/// those of the others.
pub proof fn lemma_decoding_appends(
    vocab: Seq<(Seq<u8>, Rank)>,
    specials: Seq<(Seq<u8>, Rank)>,
    merges: Option<Seq<(Seq<u8>, Seq<u8>)>>,
    rules: Seq<SplitRule>,
    words: WordSplitter,
    a: Seq<Rank>,
    b: Seq<Rank>,
)
    ensures
        ({
            let model = assembled(vocab, specials, merges, None, rules, words);
            decoded(model, a + b) == decoded(model, a) + decoded(model, b)
        }),
    decreases b.len(),
{
    let model = assembled(vocab, specials, merges, None, rules, words);
    if b.len() == 0 {
        assert(a + b =~= a);
        assert(decoded(model, a) + decoded(model, b) =~= decoded(model, a));
    } else {
        lemma_decoding_appends(vocab, specials, merges, rules, words, a, b.drop_last());
        assert((a + b).drop_last() =~= a + b.drop_last());
        assert((a + b).last() == b.last());
        assert(decoded(model, a + b) =~= decoded(model, a) + decoded(model, b));
    }
}

/// With a prefix the rows are those without one, but that a first row which begins with the prefix
/// has it taken off.
pub proof fn lemma_prefix_comes_off(
    vocab: Seq<(Seq<u8>, Rank)>,
    specials: Seq<(Seq<u8>, Rank)>,
    merges: Option<Seq<(Seq<u8>, Seq<u8>)>>,
    prefix: Seq<u8>,
    rules: Seq<SplitRule>,
    words: WordSplitter,
    ranks: Seq<Rank>,
    rest: Seq<u8>,
    others: Seq<Seq<u8>>,
)
    ensures
        ({
            let with = decoded(
                assembled(vocab, specials, merges, Some(prefix), rules, words),
                ranks,
            );
            let without = decoded(assembled(vocab, specials, merges, None, rules, words), ranks);
            &&& without == seq![prefix + rest] + others ==> with == seq![rest] + others
            &&& with == without || exists|r: Seq<u8>, o: Seq<Seq<u8>>|
                without == #[trigger] (seq![prefix + r] + o)
        }),
{
    let m = assembled(vocab, specials, merges, Some(prefix), rules, words);
    let n = assembled(vocab, specials, merges, None, rules, words);
    lemma_same_rows(m, n, ranks);
    let with = decoded(m, ranks);
    let without = decoded(n, ranks);
    if without == seq![prefix + rest] + others {
        assert(without[0] == prefix + rest);
        assert(prefix =~= (prefix + rest).subrange(0, prefix.len() as int));
        assert((prefix + rest).skip(prefix.len() as int) =~= rest);
        assert(with =~= seq![rest] + others);
    }
    if with != without {
        let r = without[0].skip(prefix.len() as int);
        let o = without.drop_first();
        assert(prefix + r =~= without[0]);
        assert(without =~= seq![prefix + r] + o);
    }
}

proof fn lemma_same_rows(m: Model, n: Model, ranks: Seq<Rank>)
    requires
        m.decoder == n.decoder,
        m.special_decoder == n.special_decoder,
    ensures
        rows_at(m, ranks) == rows_at(n, ranks),
    decreases ranks.len(),
{
    if ranks.len() > 0 {
        lemma_same_rows(m, n, ranks.drop_last());
        assert(row_of(m, ranks.last()) == row_of(n, ranks.last()));
    }
}

} // verus!
