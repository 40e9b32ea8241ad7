//! Which merges have an effect.
use vstd::prelude::*;

use crate::bpe::{
    chunk_ranks, comes_first, joined, lemma_first_is_unique, merge_at, mergeable, merged, precedes,
    priority_of, weight_at,
};
use crate::encoder::Entry;
use crate::error::{ran_out, Error};
use crate::relations::same_answer;
use crate::splitters::{cut, Piece, SplitRule};
use crate::tokenizer::{
    assembled, encoded, may_encode, piece_ranks, pieces_ranks, prefixed, Model,
};
use crate::vocabulary::{
    lemma_merges_keep_vocab, lemma_vocab_entries_unmerged, merges_grow, vocab_entries, with_merges,
};
use crate::words::{word_at, words_from, Word, WordSplitter};
use crate::Rank;

verus! {

/// The merges that make a token of the vocabulary.
pub open spec fn useful(
    vocab: Map<Seq<u8>, Entry>,
    merges: Seq<(Seq<u8>, Seq<u8>)>,
) -> Seq<(Seq<u8>, Seq<u8>)>
    decreases merges.len(),
{
    if merges.len() == 0 {
        merges
    } else {
        let before = useful(vocab, merges.drop_last());
        if vocab.contains_key(merges.last().0 + merges.last().1) {
            before.push(merges.last())
        } else {
            before
        }
    }
}

/// The last place of the merge of these two parts in the list.
spec fn last_merge(
    merges: Seq<(Seq<u8>, Seq<u8>)>,
    left: Seq<u8>,
    right: Seq<u8>,
) -> Option<int>
    decreases merges.len(),
{
    if merges.len() == 0 {
        None
    } else if merges.last() == (left, right) {
        Some(merges.len() - 1)
    } else {
        last_merge(merges.drop_last(), left, right)
    }
}

proof fn lemma_last_merge(merges: Seq<(Seq<u8>, Seq<u8>)>, left: Seq<u8>, right: Seq<u8>)
    ensures
        last_merge(merges, left, right) matches Some(i) ==> 0 <= i < merges.len() && merges[i] == (
            left,
            right,
        ),
    decreases merges.len(),
{
    if merges.len() > 0 && merges.last() != (left, right) {
        lemma_last_merge(merges.drop_last(), left, right);
    }
}

proof fn lemma_grow_init(vocab: Map<Seq<u8>, Entry>, merges: Seq<(Seq<u8>, Seq<u8>)>)
    requires
        merges_grow(vocab, merges),
        merges.len() > 0,
    ensures
        merges_grow(vocab, merges.drop_last()),
        vocab.contains_key(merges.last().0 + merges.last().1) ==> merges.last().1.len() > 0,
{
    let init = merges.drop_last();
    assert(merges[merges.len() - 1] == merges.last());
    assert forall|i: int|
        #![trigger init[i]]
        0 <= i < init.len() && vocab.contains_key(init[i].0 + init[i].1) implies init[i].1.len()
        > 0 by {
        assert(init[i] == merges[i]);
    }
}

/// The priority of a merge that makes a token is its last place in the list.
proof fn lemma_priority(
    vocab: Map<Seq<u8>, Entry>,
    merges: Seq<(Seq<u8>, Seq<u8>)>,
    key: Seq<u8>,
    n: int,
)
    requires
        forall|key: Seq<u8>| #[trigger]
            vocab.contains_key(key) ==> vocab[key].priorities is None,
        merges_grow(vocab, merges),
        vocab.contains_key(key),
    ensures
        priority_of(with_merges(vocab, merges)[key], n) == (if 0 <= n < key.len() {
            match last_merge(merges, key.take(n), key.skip(n)) {
                Some(i) => Some(i as Rank),
                None => None,
            }
        } else {
            None
        }),
    decreases merges.len(),
{
    lemma_merges_keep_vocab(vocab, merges);
    if 0 <= n < key.len() && merges.len() > 0 {
        let init = merges.drop_last();
        let (left, right) = merges.last();
        let whole = left + right;
        lemma_grow_init(vocab, merges);
        lemma_merges_keep_vocab(vocab, init);
        lemma_priority(vocab, init, key, n);
        assert(key.take(n) + key.skip(n) =~= key);
        let before = with_merges(vocab, init);
        assert(before.contains_key(whole) <==> vocab.contains_key(whole));
        assert(before.contains_key(key));
        if whole == key {
            if left.len() == n {
                assert(left =~= key.take(n));
                assert(right =~= key.skip(n));
            } else {
                assert(left != key.take(n));
            }
        } else {
            assert((left, right) != (key.take(n), key.skip(n)));
        }
    }
}

/// Leaving out the merges that make no token moves the others up.
proof fn lemma_useful_place(
    vocab: Map<Seq<u8>, Entry>,
    merges: Seq<(Seq<u8>, Seq<u8>)>,
    left: Seq<u8>,
    right: Seq<u8>,
)
    requires
        vocab.contains_key(left + right),
    ensures
        last_merge(useful(vocab, merges), left, right) == match last_merge(merges, left, right) {
            Some(i) => Some(useful(vocab, merges.take(i)).len() as int),
            None => None,
        },
    decreases merges.len(),
{
    if merges.len() > 0 {
        let init = merges.drop_last();
        lemma_useful_place(vocab, init, left, right);
        lemma_last_merge(init, left, right);
        let before = useful(vocab, init);
        if merges.last() == (left, right) {
            assert(merges.take(merges.len() - 1) =~= init);
            assert(useful(vocab, merges).last() == merges.last());
        } else {
            if let Some(i) = last_merge(init, left, right) {
                assert(init.take(i) =~= merges.take(i));
            }
            if useful(vocab, merges).len() > before.len() {
                assert(useful(vocab, merges).drop_last() =~= before);
                assert(useful(vocab, merges).last() == merges.last());
            }
        }
    }
}

/// The order of the others stays.
proof fn lemma_useful_order(
    vocab: Map<Seq<u8>, Entry>,
    merges: Seq<(Seq<u8>, Seq<u8>)>,
    i: int,
    j: int,
)
    requires
        0 <= i < j <= merges.len(),
        vocab.contains_key(merges[i].0 + merges[i].1),
    ensures
        useful(vocab, merges.take(i)).len() < useful(vocab, merges.take(j)).len(),
    decreases j - i,
{
    assert(merges.take(j).drop_last() =~= merges.take(j - 1));
    assert(merges.take(j).last() == merges[j - 1]);
    if i < j - 1 {
        lemma_useful_order(vocab, merges, i, j - 1);
    }
}

proof fn lemma_useful_len(vocab: Map<Seq<u8>, Entry>, merges: Seq<(Seq<u8>, Seq<u8>)>)
    ensures
        useful(vocab, merges).len() <= merges.len(),
        merges_grow(vocab, merges) ==> merges_grow(vocab, useful(vocab, merges)),
    decreases merges.len(),
{
    if merges.len() > 0 {
        let init = merges.drop_last();
        lemma_useful_len(vocab, init);
        if merges_grow(vocab, merges) {
            lemma_grow_init(vocab, merges);
            let kept = useful(vocab, merges);
            let before = useful(vocab, init);
            assert forall|i: int|
                #![trigger kept[i]]
                0 <= i < kept.len() && vocab.contains_key(
                    kept[i].0 + kept[i].1,
                ) implies kept[i].1.len() > 0 by {
                if i < before.len() {
                    assert(kept[i] == before[i]);
                }
            }
        }
    }
}

/// The priorities of two merges are there in both vocabularies or in none, and are in the same
/// order.
pub open spec fn same_order(
    a: Map<Seq<u8>, Entry>,
    b: Map<Seq<u8>, Entry>,
    key1: Seq<u8>,
    n1: int,
    key2: Seq<u8>,
    n2: int,
) -> bool {
    match (
        priority_of(a[key1], n1),
        priority_of(a[key2], n2),
        priority_of(b[key1], n1),
        priority_of(b[key2], n2),
    ) {
        (Some(a1), Some(a2), Some(b1), Some(b2)) => a1 < a2 <==> b1 < b2,
        (Some(_), None, Some(_), None) => true,
        (None, Some(_), None, Some(_)) => true,
        (None, None, None, None) => true,
        _ => false,
    }
}

/// The vocabularies have the same tokens with the same ranks, and their merges come in the same
/// order.
pub open spec fn alike(a: Map<Seq<u8>, Entry>, b: Map<Seq<u8>, Entry>) -> bool {
    &&& a.dom() == b.dom()
    &&& forall|key: Seq<u8>| #[trigger] a.contains_key(key) ==> a[key].rank == b[key].rank
    &&& forall|key1: Seq<u8>, n1: int, key2: Seq<u8>, n2: int|
        a.contains_key(key1) && a.contains_key(key2) ==> #[trigger] same_order(
            a,
            b,
            key1,
            n1,
            key2,
            n2,
        )
}

proof fn lemma_useful_alike(vocab: Map<Seq<u8>, Entry>, merges: Seq<(Seq<u8>, Seq<u8>)>)
    requires
        forall|key: Seq<u8>| #[trigger]
            vocab.contains_key(key) ==> vocab[key].priorities is None,
        merges_grow(vocab, merges),
        merges.len() <= Rank::MAX + 1,
    ensures
        alike(with_merges(vocab, merges), with_merges(vocab, useful(vocab, merges))),
{
    let kept = useful(vocab, merges);
    let a = with_merges(vocab, merges);
    let b = with_merges(vocab, kept);
    lemma_useful_len(vocab, merges);
    lemma_merges_keep_vocab(vocab, merges);
    lemma_merges_keep_vocab(vocab, kept);
    assert forall|key: Seq<u8>| #[trigger] a.contains_key(key) implies a[key].rank
        == b[key].rank by {
        assert(vocab.contains_key(key));
    }
    assert forall|key1: Seq<u8>, n1: int, key2: Seq<u8>, n2: int|
        a.contains_key(key1) && a.contains_key(key2) implies #[trigger] same_order(
        a,
        b,
        key1,
        n1,
        key2,
        n2,
    ) by {
        assert(vocab.contains_key(key1) && vocab.contains_key(key2));
        lemma_priority(vocab, merges, key1, n1);
        lemma_priority(vocab, merges, key2, n2);
        lemma_priority(vocab, kept, key1, n1);
        lemma_priority(vocab, kept, key2, n2);
        lemma_place_bounds(vocab, merges, key1, n1);
        lemma_place_bounds(vocab, merges, key2, n2);
        if 0 <= n1 < key1.len() && 0 <= n2 < key2.len() {
            if let (Some(i), Some(j)) = (
                last_merge(merges, key1.take(n1), key1.skip(n1)),
                last_merge(merges, key2.take(n2), key2.skip(n2)),
            ) {
                if i < j {
                    lemma_useful_order(vocab, merges, i, j);
                } else if j < i {
                    lemma_useful_order(vocab, merges, j, i);
                }
            }
        }
    }
}

/// Where a merge that makes a token stands, before and after the others are left out.
proof fn lemma_place_bounds(
    vocab: Map<Seq<u8>, Entry>,
    merges: Seq<(Seq<u8>, Seq<u8>)>,
    key: Seq<u8>,
    n: int,
)
    requires
        vocab.contains_key(key),
    ensures
        0 <= n < key.len() ==> match last_merge(merges, key.take(n), key.skip(n)) {
            Some(i) => {
                &&& 0 <= i < merges.len()
                &&& vocab.contains_key(merges[i].0 + merges[i].1)
                &&& last_merge(useful(vocab, merges), key.take(n), key.skip(n)) == Some(
                    useful(vocab, merges.take(i)).len() as int,
                )
                &&& useful(vocab, merges.take(i)).len() <= i
            },
            None => last_merge(useful(vocab, merges), key.take(n), key.skip(n)) is None,
        },
{
    if 0 <= n < key.len() {
        assert(key.take(n) + key.skip(n) =~= key);
        lemma_last_merge(merges, key.take(n), key.skip(n));
        lemma_useful_place(vocab, merges, key.take(n), key.skip(n));
        if let Some(i) = last_merge(merges, key.take(n), key.skip(n)) {
            lemma_useful_len(vocab, merges.take(i));
        }
    }
}

proof fn lemma_first_alike(
    a: Map<Seq<u8>, Entry>,
    b: Map<Seq<u8>, Entry>,
    chunk: Seq<u8>,
    words: Seq<Word>,
    i: int,
)
    requires
        alike(a, b),
        comes_first(a, chunk, words, i),
    ensures
        comes_first(b, chunk, words, i),
{
    assert(mergeable(a, chunk, words, i));
    assert(a.contains_key(joined(chunk, words, i)));
    assert(b.contains_key(joined(chunk, words, i)));
    assert forall|j: int| #[trigger] mergeable(b, chunk, words, j) implies {
        &&& !precedes(weight_at(b, chunk, words, j), weight_at(b, chunk, words, i))
        &&& j < i ==> precedes(weight_at(b, chunk, words, i), weight_at(b, chunk, words, j))
    } by {
        let (key1, n1) = (joined(chunk, words, j), words[j].end - words[j].start);
        let (key2, n2) = (joined(chunk, words, i), words[i].end - words[i].start);
        assert(a.dom().contains(key1));
        assert(mergeable(a, chunk, words, j));
        assert(same_order(a, b, key1, n1, key2, n2));
        assert(same_order(a, b, key2, n2, key1, n1));
    }
}

proof fn lemma_alike_back(a: Map<Seq<u8>, Entry>, b: Map<Seq<u8>, Entry>)
    requires
        alike(a, b),
    ensures
        alike(b, a),
{
    assert forall|key: Seq<u8>| #[trigger] b.contains_key(key) implies b[key].rank
        == a[key].rank by {
        assert(a.dom().contains(key));
        assert(a.contains_key(key));
    }
    assert forall|key1: Seq<u8>, n1: int, key2: Seq<u8>, n2: int|
        b.contains_key(key1) && b.contains_key(key2) implies #[trigger] same_order(
        b,
        a,
        key1,
        n1,
        key2,
        n2,
    ) by {
        assert(a.dom().contains(key1) && a.dom().contains(key2));
        assert(a.contains_key(key1) && a.contains_key(key2));
        assert(same_order(a, b, key1, n1, key2, n2));
    }
}

proof fn lemma_merged_alike(
    a: Map<Seq<u8>, Entry>,
    b: Map<Seq<u8>, Entry>,
    chunk: Seq<u8>,
    words: Seq<Word>,
)
    requires
        alike(a, b),
    ensures
        merged(a, chunk, words) == merged(b, chunk, words),
    decreases words.len(),
{
    if exists|i: int| comes_first(a, chunk, words, i) {
        let i = choose|i: int| comes_first(a, chunk, words, i);
        lemma_first_alike(a, b, chunk, words, i);
        lemma_first_is_unique(a, chunk, words, i);
        lemma_first_is_unique(b, chunk, words, i);
        assert(mergeable(a, chunk, words, i));
        assert(a.contains_key(joined(chunk, words, i)));
        assert(merge_at(a, chunk, words, i) == merge_at(b, chunk, words, i));
        lemma_merged_alike(a, b, chunk, merge_at(a, chunk, words, i));
    } else {
        assert forall|i: int| !comes_first(b, chunk, words, i) by {
            if comes_first(b, chunk, words, i) {
                lemma_alike_back(a, b);
                lemma_first_alike(b, a, chunk, words, i);
            }
        }
    }
}

proof fn lemma_words_alike(
    splitter: WordSplitter,
    a: Map<Seq<u8>, Entry>,
    b: Map<Seq<u8>, Entry>,
    chunk: Seq<u8>,
    i: int,
)
    requires
        alike(a, b),
    ensures
        words_from(splitter, a, chunk, i) == words_from(splitter, b, chunk, i),
    decreases chunk.len() - i,
{
    if 0 <= i < chunk.len() {
        assert forall|key: Seq<u8>| a.contains_key(key) == b.contains_key(key) by {
            assert(a.dom().contains(key) == b.dom().contains(key));
        }
        assert(word_at(splitter, a, chunk, i) == word_at(splitter, b, chunk, i));
        if let Some(word) = word_at(splitter, a, chunk, i) {
            lemma_words_alike(splitter, a, b, chunk, word.end);
        }
    }
}

/// Vocabularies that are alike give a text the same tokens.
pub proof fn lemma_alike_encode(model: Model, other: Model, text: Seq<u8>, pieces: Seq<Piece>)
    requires
        alike(model.vocab, other.vocab),
        model.specials == other.specials,
        model.words == other.words,
    ensures
        pieces_ranks(model, text, pieces) == pieces_ranks(other, text, pieces),
    decreases pieces.len(),
{
    if pieces.len() > 0 {
        lemma_alike_encode(model, other, text, pieces.drop_last());
        let piece = pieces.last();
        let bytes = text.subrange(piece.start(), piece.end());
        assert(model.vocab.dom().contains(bytes) == other.vocab.dom().contains(bytes));
        assert(model.vocab.contains_key(bytes) == other.vocab.contains_key(bytes));
        lemma_words_alike(model.words, model.vocab, other.vocab, bytes, 0);
        if let Ok(words) = words_from(model.words, model.vocab, bytes, 0) {
            lemma_merged_alike(model.vocab, other.vocab, bytes, words);
        }
        assert(chunk_ranks(model.words, model.vocab, bytes) == chunk_ranks(
            other.words,
            other.vocab,
            bytes,
        ));
        assert(piece_ranks(model, text, piece) == piece_ranks(other, text, piece));
    }
}

/// Merges that make no token have no effect: without them, and with the others in their order, the
/// same answers may be given for each text, and the answers are the same, unless a search runs out
/// of memory. A list of no merges is as good as none.
pub proof fn lemma_idle_merges(
    vocab: Seq<(Seq<u8>, Rank)>,
    specials: Seq<(Seq<u8>, Rank)>,
    merges: Seq<(Seq<u8>, Seq<u8>)>,
    prefix: Option<Seq<u8>>,
    rules: Seq<SplitRule>,
    words: WordSplitter,
    text: Seq<u8>,
    x: Result<Seq<Rank>, Error>,
    y: Result<Seq<Rank>, Error>,
)
    requires
        merges_grow(vocab_entries(vocab), merges),
        merges.len() <= Rank::MAX + 1,
    ensures
        ({
            let kept = useful(vocab_entries(vocab), merges);
            let all = assembled(vocab, specials, Some(merges), prefix, rules, words);
            let fewer = assembled(vocab, specials, Some(kept), prefix, rules, words);
            &&& encoded(all, text) == encoded(fewer, text)
            &&& may_encode(all, text, x) <==> may_encode(fewer, text, x)
            &&& may_encode(all, text, x) && may_encode(fewer, text, y) && !ran_out(x) && !ran_out(
                y,
            ) ==> same_answer(x, y)
            &&& kept.len() == 0 ==> fewer == assembled(vocab, specials, None, prefix, rules, words)
        }),
{
    let kept = useful(vocab_entries(vocab), merges);
    let all = assembled(vocab, specials, Some(merges), prefix, rules, words);
    let fewer = assembled(vocab, specials, Some(kept), prefix, rules, words);
    let whole = prefixed(all, text);
    lemma_vocab_entries_unmerged(vocab);
    lemma_useful_alike(vocab_entries(vocab), merges);
    lemma_alike_encode(all, fewer, whole, cut(all.rules, whole, all.rules.len()));
}

} // verus!
