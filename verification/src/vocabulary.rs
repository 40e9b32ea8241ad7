//! The tables that a vocabulary makes: from bytes to entries, and from ranks to bytes.
use vstd::prelude::*;
use vstd::slice::slice_to_vec;

use crate::encoder::{
    encoder_get_mut, encoder_insert, encoder_new, entries, EncoderEntry, EncoderMap, Entry,
};
use crate::Rank;

verus! {

/// A token of a vocabulary.
pub struct Token {
    pub bytes: Vec<u8>,
    pub rank: Rank,
}

impl View for Token {
    type V = (Seq<u8>, Rank);

    open spec fn view(&self) -> (Seq<u8>, Rank) {
        (self.bytes@, self.rank)
    }
}

pub open spec fn tokens_of(tokens: Seq<Token>) -> Seq<(Seq<u8>, Rank)> {
    tokens.map_values(|token: Token| token@)
}

pub open spec fn merges_of(merges: Seq<(Vec<u8>, Vec<u8>)>) -> Seq<(Seq<u8>, Seq<u8>)> {
    merges.map_values(|merge: (Vec<u8>, Vec<u8>)| (merge.0@, merge.1@))
}

pub open spec fn rows_of(table: Seq<Vec<u8>>) -> Seq<Seq<u8>> {
    table.map_values(|row: Vec<u8>| row@)
}

/// The entries of a vocabulary. Of two tokens with the same bytes, the later one counts.
pub open spec fn vocab_entries(tokens: Seq<(Seq<u8>, Rank)>) -> Map<Seq<u8>, Entry>
    decreases tokens.len(),
{
    if tokens.len() == 0 {
        Map::empty()
    } else {
        vocab_entries(tokens.drop_last()).insert(
            tokens.last().0,
            Entry { priorities: None, rank: tokens.last().1 },
        )
    }
}

/// The bytes of each rank up to the highest. Of two tokens with the same rank, the later one
/// counts; a rank that no token has stands for no bytes.
pub open spec fn decoder_rows(tokens: Seq<(Seq<u8>, Rank)>) -> Seq<Seq<u8>>
    decreases tokens.len(),
{
    if tokens.len() == 0 {
        Seq::empty()
    } else {
        place_row(decoder_rows(tokens.drop_last()), tokens.last().1 as int, tokens.last().0)
    }
}

/// The rows with this one at `rank`, and with empty ones before it where there were none.
pub open spec fn place_row(rows: Seq<Seq<u8>>, rank: int, bytes: Seq<u8>) -> Seq<Seq<u8>> {
    let len = if rows.len() <= rank {
        (rank + 1) as nat
    } else {
        rows.len()
    };
    Seq::new(
        len,
        |i: int|
            if i == rank {
                bytes
            } else if i < rows.len() {
                rows[i]
            } else {
                Seq::empty()
            },
    )
}

/// The entry with a note that a merge with a left part of this length has this priority.
pub open spec fn noted(entry: Entry, len: nat, left_len: int, priority: Rank) -> Entry {
    let priorities = match entry.priorities {
        Some(priorities) => priorities,
        None => Seq::new(len, |i: int| None),
    };
    Entry { priorities: Some(priorities.update(left_len, Some(priority))), rank: entry.rank }
}

/// The entries with the priority of each merge noted at the token that it makes. The place of a
/// merge in the list is its priority, counted in the width of a rank.
pub open spec fn with_merges(
    vocab: Map<Seq<u8>, Entry>,
    merges: Seq<(Seq<u8>, Seq<u8>)>,
) -> Map<Seq<u8>, Entry>
    decreases merges.len(),
{
    if merges.len() == 0 {
        vocab
    } else {
        let before = with_merges(vocab, merges.drop_last());
        let (left, right) = merges.last();
        let whole = left + right;
        if before.contains_key(whole) {
            before.insert(
                whole,
                noted(
                    before[whole],
                    whole.len(),
                    left.len() as int,
                    (merges.len() - 1) as Rank,
                ),
            )
        } else {
            before
        }
    }
}

/// A merge that makes a token adds something on the right.
pub open spec fn merges_grow(
    vocab: Map<Seq<u8>, Entry>,
    merges: Seq<(Seq<u8>, Seq<u8>)>,
) -> bool {
    forall|i: int|
        #![trigger merges[i]]
        0 <= i < merges.len() && vocab.contains_key(merges[i].0 + merges[i].1) ==> merges[i].1.len()
            > 0
}

/// The tables can be indexed by every rank.
pub open spec fn ranks_fit(tokens: Seq<(Seq<u8>, Rank)>) -> bool {
    forall|i: int| 0 <= i < tokens.len() ==> (#[trigger] tokens[i]).1 < usize::MAX
}

/// Merges are noted at tokens of the vocabulary only, and leave the ranks alone. Priorities are
/// kept for each length of a left part.
pub proof fn lemma_merges_keep_vocab(
    vocab: Map<Seq<u8>, Entry>,
    merges: Seq<(Seq<u8>, Seq<u8>)>,
)
    requires
        forall|key: Seq<u8>| #[trigger]
            vocab.contains_key(key) ==> vocab[key].priorities is None,
        merges_grow(vocab, merges),
    ensures
        with_merges(vocab, merges).dom() == vocab.dom(),
        forall|key: Seq<u8>| #[trigger]
            vocab.contains_key(key) ==> {
                &&& with_merges(vocab, merges)[key].rank == vocab[key].rank
                &&& with_merges(vocab, merges)[key].priorities matches Some(priorities)
                    ==> priorities.len() == key.len()
            },
    decreases merges.len(),
{
    if merges.len() > 0 {
        assert(merges[merges.len() - 1] == merges.last());
        assert forall|i: int|
            #![trigger merges.drop_last()[i]]
            0 <= i < merges.drop_last().len() && vocab.contains_key(
                merges.drop_last()[i].0 + merges.drop_last()[i].1,
            ) implies merges.drop_last()[i].1.len() > 0 by {
            assert(merges.drop_last()[i] == merges[i]);
        }
        lemma_merges_keep_vocab(vocab, merges.drop_last());
        let before = with_merges(vocab, merges.drop_last());
        let after = with_merges(vocab, merges);
        assert forall|key: Seq<u8>| #[trigger] vocab.contains_key(key) implies {
            &&& after[key].rank == vocab[key].rank
            &&& after[key].priorities matches Some(priorities) ==> priorities.len() == key.len()
        } by {
            assert(before.contains_key(key));
        }
        assert(after.dom() =~= vocab.dom());
    }
}

pub proof fn lemma_vocab_entries_unmerged(tokens: Seq<(Seq<u8>, Rank)>)
    ensures
        forall|key: Seq<u8>| #[trigger]
            vocab_entries(tokens).contains_key(key) ==> vocab_entries(
                tokens,
            )[key].priorities is None,
    decreases tokens.len(),
{
    if tokens.len() > 0 {
        lemma_vocab_entries_unmerged(tokens.drop_last());
    }
}

/// The encoder of a vocabulary.
pub(crate) fn fill_encoder(tokens: &Vec<Token>) -> (encoder: EncoderMap)
    ensures
        entries(encoder) == vocab_entries(tokens_of(tokens@)),
{
    let ghost all = tokens_of(tokens@);
    let mut encoder = encoder_new();
    let mut i: usize = 0;
    assert(all.take(0) =~= Seq::empty());
    assert(entries(encoder) =~= Map::empty());
    while i < tokens.len()
        invariant
            i <= tokens@.len(),
            all == tokens_of(tokens@),
            entries(encoder) == vocab_entries(all.take(i as int)),
        decreases tokens@.len() - i,
    {
        assert(all.take(i + 1).drop_last() =~= all.take(i as int));
        let entry = EncoderEntry { priorities: None, rank: tokens[i].rank };
        encoder_insert(&mut encoder, slice_to_vec(tokens[i].bytes.as_slice()), entry);
        i = i + 1;
    }
    assert(all.take(all.len() as int) =~= all);
    encoder
}

/// The decoder of a vocabulary.
pub(crate) fn fill_decoder(tokens: &Vec<Token>) -> (decoder: Vec<Vec<u8>>)
    requires
        ranks_fit(tokens_of(tokens@)),
    ensures
        rows_of(decoder@) == decoder_rows(tokens_of(tokens@)),
{
    let ghost all = tokens_of(tokens@);
    let mut decoder: Vec<Vec<u8>> = Vec::new();
    let mut i: usize = 0;
    assert(all.take(0) =~= Seq::empty());
    assert(rows_of(decoder@) =~= Seq::empty());
    while i < tokens.len()
        invariant
            i <= tokens@.len(),
            ranks_fit(all),
            all == tokens_of(tokens@),
            rows_of(decoder@) == decoder_rows(all.take(i as int)),
        decreases tokens@.len() - i,
    {
        let ghost before = rows_of(decoder@);
        assert(all.take(i + 1).drop_last() =~= all.take(i as int));
        assert(all[i as int] == tokens@[i as int]@);
        let rank: usize = tokens[i].rank as usize;
        while decoder.len() <= rank
            invariant
                rank < usize::MAX,
                before.len() <= decoder@.len(),
                before.len() <= rank ==> decoder@.len() <= rank + 1,
                before.len() > rank ==> decoder@.len() == before.len(),
                forall|k: int|
                    0 <= k < decoder@.len() ==> (#[trigger] decoder@[k])@ == (if k < before.len() {
                        before[k]
                    } else {
                        Seq::empty()
                    }),
            decreases rank + 1 - decoder@.len(),
        {
            decoder.push(Vec::new());
        }
        decoder[rank] = slice_to_vec(tokens[i].bytes.as_slice());
        assert(rows_of(decoder@) =~= place_row(before, rank as int, tokens@[i as int].bytes@));
        i = i + 1;
    }
    assert(all.take(all.len() as int) =~= all);
    decoder
}

/// Notes the priority of each merge at the token that it makes.
pub(crate) fn note_merges(encoder: &mut EncoderMap, merges: &Vec<(Vec<u8>, Vec<u8>)>)
    requires
        forall|key: Seq<u8>| #[trigger]
            entries(*old(encoder)).contains_key(key) ==> entries(
                *old(encoder),
            )[key].priorities is None,
        merges_grow(entries(*old(encoder)), merges_of(merges@)),
    ensures
        entries(*final(encoder)) == with_merges(entries(*old(encoder)), merges_of(merges@)),
{
    let ghost vocab = entries(*encoder);
    let ghost all = merges_of(merges@);
    let mut i: usize = 0;
    assert(all.take(0) =~= Seq::empty());
    while i < merges.len()
        invariant
            i <= merges@.len(),
            all == merges_of(merges@),
            forall|key: Seq<u8>| #[trigger]
                vocab.contains_key(key) ==> vocab[key].priorities is None,
            merges_grow(vocab, all),
            entries(*encoder) == with_merges(vocab, all.take(i as int)),
        decreases merges@.len() - i,
    {
        let ghost before = entries(*encoder);
        let ghost left = merges@[i as int].0@;
        let ghost right = merges@[i as int].1@;
        proof {
            assert(all.take(i + 1).drop_last() =~= all.take(i as int));
            assert(all[i as int] == (left, right));
            assert forall|j: int|
                #![trigger all.take(i as int)[j]]
                0 <= j < i && vocab.contains_key(
                    all.take(i as int)[j].0 + all.take(i as int)[j].1,
                ) implies all.take(i as int)[j].1.len() > 0 by {
                assert(all.take(i as int)[j] == all[j]);
            }
            lemma_merges_keep_vocab(vocab, all.take(i as int));
            assert(before.contains_key(left + right) ==> vocab.contains_key(left + right));
        }
        let left_len: usize = merges[i].0.len();
        let mut whole: Vec<u8> = slice_to_vec(merges[i].0.as_slice());
        whole.extend_from_slice(merges[i].1.as_slice());
        assert(whole@ =~= left + right);
        if let Some(entry) = encoder_get_mut(encoder, whole.as_slice()) {
            let mut priorities: Vec<Option<Rank>> = match &entry.priorities {
                Some(priorities) => slice_to_vec(priorities.as_slice()),
                None => {
                    let none: Vec<Option<Rank>> = vec![None;whole.len()];
                    assert(none@ =~= Seq::new(whole@.len(), |i: int| None));
                    none
                },
            };
            priorities[left_len] = Some(i as Rank);
            entry.priorities = Some(priorities);
        }
        i = i + 1;
    }
    assert(all.take(all.len() as int) =~= all);
}

} // verus!
