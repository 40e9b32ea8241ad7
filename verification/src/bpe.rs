//! Merging the words of a chunk into the tokens of the vocabulary.
use std::ops::Range;
use vstd::prelude::*;

use crate::encoder::{encoder_get, entries, EncoderMap, Entry};
use crate::error::{is_no_valid_token, Error};
use crate::words::{word_at, words_from, Word, WordSplitter};
use crate::Rank;

verus! {

/// What decides which of two merges is made first.
#[derive(Clone, Copy)]
pub struct Weight {
    /// The place of the merge in the list of merges, where it is in the list.
    pub priority: Option<Rank>,
    /// The rank of the token that it makes.
    pub rank: Rank,
}

/// Merges of the list come before all others, in the order of the list; the others come in the
/// order of rank.
pub open spec fn precedes(a: Weight, b: Weight) -> bool {
    match (a.priority, b.priority) {
        (Some(x), Some(y)) => x < y,
        (Some(_), None) => true,
        (None, Some(_)) => false,
        (None, None) => a.rank < b.rank,
    }
}

/// The place in the list of merges of the merge that makes the token of this entry from a left
/// part of this length.
pub open spec fn priority_of(entry: Entry, left_len: int) -> Option<Rank> {
    match entry.priorities {
        Some(priorities) => if 0 <= left_len < priorities.len() {
            priorities[left_len]
        } else {
            None
        },
        None => None,
    }
}

/// The text of the words `i` and `i + 1` together.
pub open spec fn joined(chunk: Seq<u8>, words: Seq<Word>, i: int) -> Seq<u8> {
    chunk.subrange(words[i].start, words[i + 1].end)
}

/// The words `i` and `i + 1` make a token together.
pub open spec fn mergeable(
    vocab: Map<Seq<u8>, Entry>,
    chunk: Seq<u8>,
    words: Seq<Word>,
    i: int,
) -> bool {
    0 <= i < words.len() - 1 && vocab.contains_key(joined(chunk, words, i))
}

/// The weight of merging the words `i` and `i + 1`.
pub open spec fn weight_at(
    vocab: Map<Seq<u8>, Entry>,
    chunk: Seq<u8>,
    words: Seq<Word>,
    i: int,
) -> Weight {
    let entry = vocab[joined(chunk, words, i)];
    Weight {
        priority: priority_of(entry, words[i].end - words[i].start),
        rank: entry.rank,
    }
}

/// The merge to make next: none precedes it, and it precedes those left of it.
pub open spec fn comes_first(
    vocab: Map<Seq<u8>, Entry>,
    chunk: Seq<u8>,
    words: Seq<Word>,
    i: int,
) -> bool {
    &&& mergeable(vocab, chunk, words, i)
    &&& forall|j: int| #[trigger]
        mergeable(vocab, chunk, words, j) ==> {
            &&& !precedes(weight_at(vocab, chunk, words, j), weight_at(vocab, chunk, words, i))
            &&& j < i ==> precedes(
                weight_at(vocab, chunk, words, i),
                weight_at(vocab, chunk, words, j),
            )
        }
}

/// The words with `i` and `i + 1` made one.
pub open spec fn merge_at(
    vocab: Map<Seq<u8>, Entry>,
    chunk: Seq<u8>,
    words: Seq<Word>,
    i: int,
) -> Seq<Word> {
    words.update(
        i,
        Word {
            start: words[i].start,
            end: words[i + 1].end,
            rank: vocab[joined(chunk, words, i)].rank,
        },
    ).remove(i + 1)
}

/// What is left when merges are made, one after the other, as long as there is one to make.
pub open spec fn merged(
    vocab: Map<Seq<u8>, Entry>,
    chunk: Seq<u8>,
    words: Seq<Word>,
) -> Seq<Word>
    decreases words.len(),
{
    if exists|i: int| comes_first(vocab, chunk, words, i) {
        let i = choose|i: int| comes_first(vocab, chunk, words, i);
        merged(vocab, chunk, merge_at(vocab, chunk, words, i))
    } else {
        words
    }
}

pub open spec fn ranks_of(words: Seq<Word>) -> Seq<Rank> {
    words.map_values(|word: Word| word.rank)
}

/// The tokens of a chunk, or the place of a byte for which there is none.
pub open spec fn chunk_ranks(
    splitter: WordSplitter,
    vocab: Map<Seq<u8>, Entry>,
    chunk: Seq<u8>,
) -> Result<Seq<Rank>, int> {
    match words_from(splitter, vocab, chunk, 0) {
        Ok(words) => Ok(ranks_of(merged(vocab, chunk, words))),
        Err(at) => Err(at),
    }
}

/// The words stand one after the other, none is empty, and together they are the text from
/// `start` to `end`.
pub open spec fn tile(words: Seq<Word>, start: int, end: int) -> bool {
    &&& words.len() == 0 ==> start == end
    &&& words.len() > 0 ==> words[0].start == start && words.last().end == end
    &&& forall|i: int| 0 <= i < words.len() ==> (#[trigger] words[i]).start < words[i].end
    &&& forall|i: int, j: int|
        0 <= i < words.len() && j == i + 1 && j < words.len() ==> (#[trigger] words[i]).end == (
        #[trigger] words[j]).start
}

struct WordState {
    word: Range<usize>,
    left_index: usize,
    right_index: usize,
    rank: Rank,
    is_removed: bool,
}

struct Match {
    word: Range<usize>,
    left_index: usize,
    right_index: usize,
    weight: Weight,
    is_removed: bool,
}

/// The places of the words that are left; the states and the matches, taken at those places, are
/// the words and the pairs of neighbours among them.
spec fn linked(
    vocab: Map<Seq<u8>, Entry>,
    chunk: Seq<u8>,
    states: Seq<WordState>,
    matches: Seq<Match>,
    live: Seq<int>,
    words: Seq<Word>,
) -> bool {
    &&& matches.len() == (if states.len() == 0 { 0 } else { states.len() - 1 })
    &&& live.len() == words.len()
    &&& states.len() > 0 <==> live.len() > 0
    &&& live.len() > 0 ==> live[0] == 0
    &&& forall|k: int| 0 <= k < live.len() ==> 0 <= #[trigger] live[k] < states.len()
    &&& forall|j: int, k: int| 0 <= j < k < live.len() ==> #[trigger] live[j] < #[trigger] live[k]
    &&& forall|k: int|
        0 <= k < live.len() ==> #[trigger] state_fits(states, live, words, k)
    &&& forall|i: int|
        0 <= i < states.len() && !(#[trigger] states[i]).is_removed ==> live.contains(i)
    &&& forall|k: int|
        1 <= k < live.len() ==> #[trigger] match_fits(vocab, chunk, matches, live, words, k)
    &&& forall|i: int|
        0 <= i < matches.len() && !(#[trigger] matches[i]).is_removed ==> live.contains(i + 1)
}

spec fn state_fits(
    states: Seq<WordState>,
    live: Seq<int>,
    words: Seq<Word>,
    k: int,
) -> bool {
    let at = live[k];
    &&& !states[at].is_removed
    &&& states[at].word.start == words[k].start
    &&& states[at].word.end == words[k].end
    &&& states[at].rank == words[k].rank
    &&& states[at].left_index == (if at == 0 { usize::MAX as int } else { at - 1 })
    &&& states[at].right_index == (if k + 1 < live.len() { live[k + 1] - 1 } else {
        states.len() - 1
    })
}

/// The match is that of two neighbours, at these places: the left one from `start` to `middle`, the
/// right one up to `end`.
spec fn stands_for(
    m: Match,
    vocab: Map<Seq<u8>, Entry>,
    chunk: Seq<u8>,
    start: int,
    middle: int,
    end: int,
    left_index: int,
    right_index: int,
) -> bool {
    let bytes = chunk.subrange(start, end);
    &&& m.word.start == start
    &&& m.word.end == end
    &&& m.left_index == left_index
    &&& m.right_index == right_index
    &&& m.is_removed == !vocab.contains_key(bytes)
    &&& !m.is_removed ==> m.weight == (Weight {
        priority: priority_of(vocab[bytes], middle - start),
        rank: vocab[bytes].rank,
    })
}

/// The match that ends where the word `k` is stands for the pair of the words `k - 1` and `k`.
spec fn match_fits(
    vocab: Map<Seq<u8>, Entry>,
    chunk: Seq<u8>,
    matches: Seq<Match>,
    live: Seq<int>,
    words: Seq<Word>,
    k: int,
) -> bool {
    stands_for(
        matches[live[k] - 1],
        vocab,
        chunk,
        words[k - 1].start,
        words[k - 1].end,
        words[k].end,
        live[k - 1],
        live[k],
    )
}

/// There is only one merge to make next.
pub proof fn lemma_first_is_unique(
    vocab: Map<Seq<u8>, Entry>,
    chunk: Seq<u8>,
    words: Seq<Word>,
    i: int,
)
    requires
        comes_first(vocab, chunk, words, i),
    ensures
        merged(vocab, chunk, words) == merged(vocab, chunk, merge_at(vocab, chunk, words, i)),
{
    let j = choose|j: int| comes_first(vocab, chunk, words, j);
    assert(comes_first(vocab, chunk, words, j));
    assert(mergeable(vocab, chunk, words, i) && mergeable(vocab, chunk, words, j));
    assert(i == j);
}

/// All words but the last tile the text up to the last.
pub proof fn lemma_tile_last(words: Seq<Word>, start: int, end: int)
    requires
        tile(words, start, end),
        words.len() > 0,
    ensures
        tile(words.drop_last(), start, words.last().start),
        words.last().end == end,
{
    let init = words.drop_last();
    if init.len() > 0 {
        assert(words[init.len() - 1].end == words[init.len() as int].start);
    } else {
        assert(words[0].start == start);
    }
}

pub proof fn lemma_tile_bounds(words: Seq<Word>, start: int, end: int)
    requires
        tile(words, start, end),
    ensures
        start <= end,
        forall|i: int|
            0 <= i < words.len() ==> start <= (#[trigger] words[i]).start < words[i].end <= end,
        forall|i: int, j: int|
            0 <= i < j < words.len() ==> (#[trigger] words[i]).end <= (#[trigger] words[j]).start,
    decreases words.len(),
{
    if words.len() > 0 {
        let init = words.drop_last();
        let middle = words.last().start;
        lemma_tile_last(words, start, end);
        lemma_tile_bounds(init, start, middle);
        assert forall|i: int| 0 <= i < words.len() implies start <= (#[trigger] words[i]).start
            < words[i].end <= end by {
            if i < init.len() {
                assert(words[i] == init[i]);
            }
        }
        assert forall|i: int, j: int| 0 <= i < j < words.len() implies (#[trigger] words[i]).end
            <= (#[trigger] words[j]).start by {
            assert(words[i] == init[i]);
            if j < init.len() {
                assert(words[j] == init[j]);
            }
        }
    }
}

/// Merging two neighbours leaves the text covered.
pub proof fn lemma_merge_at_tiles(
    vocab: Map<Seq<u8>, Entry>,
    chunk: Seq<u8>,
    words: Seq<Word>,
    i: int,
    start: int,
    end: int,
)
    requires
        tile(words, start, end),
        0 <= i < words.len() - 1,
    ensures
        tile(merge_at(vocab, chunk, words, i), start, end),
{
    let after = merge_at(vocab, chunk, words, i);
    assert(words[i].end == words[i + 1].start);
    assert forall|j: int| 0 <= j < after.len() implies (#[trigger] after[j]).start
        < after[j].end by {
        if j > i {
            assert(after[j] == words[j + 1]);
        }
    }
    assert forall|j: int, k: int|
        0 <= j < after.len() && k == j + 1 && k < after.len() implies (#[trigger] after[j]).end == (
    #[trigger] after[k]).start by {
        if j < i {
            assert(words[j].end == words[k].start);
        } else {
            assert(words[j + 1].end == words[k + 1].start);
        }
    }
}

/// The words of the walk tile the text.
pub proof fn lemma_words_tile(
    splitter: WordSplitter,
    vocab: Map<Seq<u8>, Entry>,
    text: Seq<u8>,
    i: int,
)
    requires
        0 <= i <= text.len(),
        words_from(splitter, vocab, text, i) is Ok,
    ensures
        tile(words_from(splitter, vocab, text, i)->Ok_0, i, text.len() as int),
    decreases text.len() - i,
{
    if i < text.len() {
        let word = word_at(splitter, vocab, text, i)->0;
        lemma_words_tile(splitter, vocab, text, word.end);
        let rest = words_from(splitter, vocab, text, word.end)->Ok_0;
        let words = words_from(splitter, vocab, text, i)->Ok_0;
        assert(words == seq![word] + rest);
        assert forall|j: int| 0 <= j < words.len() implies (#[trigger] words[j]).start
            < words[j].end by {
            if j > 0 {
                assert(words[j] == rest[j - 1]);
            }
        }
        assert forall|j: int, k: int|
            0 <= j < words.len() && k == j + 1 && k < words.len() implies (
        #[trigger] words[j]).end == (#[trigger] words[k]).start by {
            assert(words[k] == rest[j]);
            if j > 0 {
                assert(words[j] == rest[j - 1]);
            }
        }
        if rest.len() > 0 {
            assert(words.last() == rest.last());
        }
    }
}

/// The rank and the weight of the token with these bytes, made from a left part of this length.
fn look_up(encoder: &EncoderMap, bytes: &[u8], left_len: usize) -> (weight: Option<Weight>)
    ensures
        weight is Some <==> entries(*encoder).contains_key(bytes@),
        weight matches Some(w) ==> w == (Weight {
            priority: priority_of(entries(*encoder)[bytes@], left_len as int),
            rank: entries(*encoder)[bytes@].rank,
        }),
{
    match encoder_get(encoder, bytes) {
        Some(entry) => {
            let priority: Option<Rank> = match &entry.priorities {
                Some(priorities) => if left_len < priorities.len() {
                    priorities[left_len]
                } else {
                    None
                },
                None => None,
            };
            Some(Weight { priority, rank: entry.rank })
        },
        None => None,
    }
}

/// The first words of a chunk, each one with its neighbours.
fn word_states(splitter: &WordSplitter, encoder: &EncoderMap, chunk: &[u8]) -> (result: Result<
    Vec<WordState>,
    Error,
>)
    ensures
        match words_from(*splitter, entries(*encoder), chunk@, 0) {
            Ok(words) => {
                &&& result matches Ok(states)
                &&& states@.len() == words.len()
                &&& forall|k: int|
                    0 <= k < words.len() ==> {
                        &&& !(#[trigger] states@[k]).is_removed
                        &&& states@[k].word.start == words[k].start
                        &&& states@[k].word.end == words[k].end
                        &&& states@[k].rank == words[k].rank
                        &&& states@[k].left_index == (if k == 0 { usize::MAX as int } else {
                            k - 1
                        })
                        &&& states@[k].right_index == k
                    }
            },
            Err(at) => {
                &&& result matches Err(error)
                &&& is_no_valid_token(error, chunk@.subrange(at, at + 1))
            },
        },
{
    let ghost vocab = entries(*encoder);
    let ghost all = words_from(*splitter, vocab, chunk@, 0);
    let ghost mut done: Seq<Word> = Seq::empty();
    let mut states: Vec<WordState> = Vec::with_capacity(chunk.len());
    let mut walk = splitter.iter(chunk, encoder);
    assert(all is Ok ==> all->Ok_0 =~= done + all->Ok_0);
    loop
        invariant
            walk.splitter() == *splitter,
            walk.text() == chunk@,
            walk.encoder() == *encoder,
            vocab == entries(*encoder),
            0 <= walk.position() <= chunk@.len(),
            all == words_from(*splitter, vocab, chunk@, 0),
            match words_from(*splitter, vocab, chunk@, walk.position()) {
                Ok(rest) => all == Ok::<Seq<Word>, int>(done + rest),
                Err(at) => all == Err::<Seq<Word>, int>(at),
            },
            states@.len() == done.len(),
            states@.len() <= walk.position(),
            forall|k: int|
                0 <= k < done.len() ==> {
                    &&& !(#[trigger] states@[k]).is_removed
                    &&& states@[k].word.start == done[k].start
                    &&& states@[k].word.end == done[k].end
                    &&& states@[k].rank == done[k].rank
                    &&& states@[k].left_index == (if k == 0 { usize::MAX as int } else { k - 1 })
                    &&& states@[k].right_index == k
                },
        decreases chunk@.len() - walk.position(),
    {
        let ghost at = walk.position();
        match walk.next() {
            None => {
                assert(done + Seq::<Word>::empty() =~= done);
                return Ok(states);
            },
            Some(Err(error)) => {
                return Err(error);
            },
            Some(Ok((word, rank))) => {
                let index: usize = states.len();
                proof {
                    let w = word_at(*splitter, vocab, chunk@, at)->0;
                    if let Ok(rest) = words_from(*splitter, vocab, chunk@, w.end) {
                        assert(done + (seq![w] + rest) =~= done.push(w) + rest);
                    }
                    done = done.push(w);
                }
                states.push(
                    WordState {
                        word,
                        left_index: index.wrapping_sub(1),
                        right_index: index,
                        rank,
                        is_removed: false,
                    },
                );
            },
        }
    }
}

/// The match of a pair of neighbours.
fn pair_up(
    encoder: &EncoderMap,
    chunk: &[u8],
    left: &Range<usize>,
    right: &Range<usize>,
    left_index: usize,
    right_index: usize,
) -> (m: Match)
    requires
        left.start <= left.end <= right.end <= chunk@.len(),
    ensures
        stands_for(
            m,
            entries(*encoder),
            chunk@,
            left.start as int,
            left.end as int,
            right.end as int,
            left_index as int,
            right_index as int,
        ),
{
    let word: Range<usize> = left.start..right.end;
    match look_up(encoder, &chunk[left.start..right.end], left.end - left.start) {
        Some(weight) => Match { word, left_index, right_index, weight, is_removed: false },
        None => Match {
            word,
            left_index,
            right_index,
            weight: Weight { priority: None, rank: Rank::MAX },
            is_removed: true,
        },
    }
}

/// The matches of all neighbours.
fn matches_of(
    encoder: &EncoderMap,
    chunk: &[u8],
    states: &Vec<WordState>,
    Ghost(words): Ghost<Seq<Word>>,
) -> (matches: Vec<Match>)
    requires
        tile(words, 0, chunk@.len() as int),
        states@.len() == words.len(),
        forall|k: int|
            0 <= k < words.len() ==> {
                &&& !(#[trigger] states@[k]).is_removed
                &&& states@[k].word.start == words[k].start
                &&& states@[k].word.end == words[k].end
                &&& states@[k].rank == words[k].rank
                &&& states@[k].left_index == (if k == 0 { usize::MAX as int } else { k - 1 })
                &&& states@[k].right_index == k
            },
    ensures
        linked(
            entries(*encoder),
            chunk@,
            states@,
            matches@,
            Seq::new(states@.len(), |k: int| k),
            words,
        ),
{
    let ghost vocab = entries(*encoder);
    let ghost live: Seq<int> = Seq::new(states@.len(), |k: int| k);
    let mut matches: Vec<Match> = Vec::with_capacity(states.len());
    proof {
        lemma_tile_bounds(words, 0, chunk@.len() as int);
    }
    let mut right: usize = 1;
    while right < states.len()
        invariant
            vocab == entries(*encoder),
            live == Seq::new(states@.len(), |k: int| k),
            states@.len() == words.len(),
            forall|k: int|
                0 <= k < words.len() ==> {
                    &&& (#[trigger] states@[k]).word.start == words[k].start
                    &&& states@[k].word.end == words[k].end
                },
            forall|i: int|
                0 <= i < words.len() ==> 0 <= (#[trigger] words[i]).start < words[i].end
                    <= chunk@.len(),
            forall|i: int, j: int|
                0 <= i < j < words.len() ==> (#[trigger] words[i]).end <= (
                #[trigger] words[j]).start,
            1 <= right,
            states@.len() > 0 ==> right <= states@.len(),
            states@.len() == 0 ==> right == 1,
            matches@.len() == right - 1,
            forall|k: int|
                1 <= k < right ==> #[trigger] match_fits(
                    vocab,
                    chunk@,
                    matches@,
                    live,
                    words,
                    k,
                ),
        decreases states@.len() - right,
    {
        let left: usize = right - 1;
        let ghost before = matches@;
        assert(states@[left as int].word.end == words[left as int].end);
        assert(words[left as int].end <= words[right as int].start);
        let m = pair_up(encoder, chunk, &states[left].word, &states[right].word, left, right);
        matches.push(m);
        assert forall|k: int| 1 <= k < right + 1 implies #[trigger] match_fits(
            vocab,
            chunk@,
            matches@,
            live,
            words,
            k,
        ) by {
            if k < right {
                assert(match_fits(vocab, chunk@, before, live, words, k));
                assert(matches@[k - 1] == before[k - 1]);
            }
        }
        right = right + 1;
    }
    proof {
        assert forall|i: int|
            0 <= i < states@.len() && !(#[trigger] states@[i]).is_removed implies live.contains(
            i,
        ) by {
            assert(live[i] == i);
        }
        assert forall|i: int|
            0 <= i < matches@.len() && !(#[trigger] matches@[i]).is_removed implies live.contains(
            i + 1,
        ) by {
            assert(live[i + 1] == i + 1);
        }
    }
    matches
}

fn goes_before(a: Weight, b: Weight) -> (before: bool)
    ensures
        before == precedes(a, b),
{
    match (a.priority, b.priority) {
        (Some(x), Some(y)) => x < y,
        (Some(_), None) => true,
        (None, Some(_)) => false,
        (None, None) => a.rank < b.rank,
    }
}

/// The match to make next, if there is one: the first of those that no other precedes.
fn first_match(matches: &Vec<Match>) -> (first: Option<usize>)
    ensures
        match first {
            None => forall|i: int| 0 <= i < matches@.len() ==> (#[trigger] matches@[i]).is_removed,
            Some(b) => {
                &&& b < matches@.len()
                &&& !matches@[b as int].is_removed
                &&& forall|i: int|
                    0 <= i < matches@.len() && !(#[trigger] matches@[i]).is_removed ==> {
                        &&& !precedes(matches@[i].weight, matches@[b as int].weight)
                        &&& i < b ==> precedes(matches@[b as int].weight, matches@[i].weight)
                    }
            },
        },
{
    let mut first: Option<usize> = None;
    let mut at: usize = 0;
    while at < matches.len()
        invariant
            at <= matches@.len(),
            match first {
                None => forall|i: int| 0 <= i < at ==> (#[trigger] matches@[i]).is_removed,
                Some(b) => {
                    &&& b < at
                    &&& !matches@[b as int].is_removed
                    &&& forall|i: int|
                        0 <= i < at && !(#[trigger] matches@[i]).is_removed ==> {
                            &&& !precedes(matches@[i].weight, matches@[b as int].weight)
                            &&& i < b ==> precedes(matches@[b as int].weight, matches@[i].weight)
                        }
                },
            },
        decreases matches@.len() - at,
    {
        if !matches[at].is_removed {
            match first {
                None => {
                    first = Some(at);
                },
                Some(b) => {
                    if goes_before(matches[at].weight, matches[b].weight) {
                        first = Some(at);
                    }
                },
            }
        }
        at = at + 1;
    }
    first
}

/// A match that is still there is the pair of two words that make a token.
proof fn lemma_live_match(
    vocab: Map<Seq<u8>, Entry>,
    chunk: Seq<u8>,
    states: Seq<WordState>,
    matches: Seq<Match>,
    live: Seq<int>,
    words: Seq<Word>,
    b: int,
) -> (k: int)
    requires
        linked(vocab, chunk, states, matches, live, words),
        0 <= b < matches.len(),
        !matches[b].is_removed,
    ensures
        1 <= k < live.len(),
        live[k] == b + 1,
        match_fits(vocab, chunk, matches, live, words, k),
        mergeable(vocab, chunk, words, k - 1),
        matches[b].weight == weight_at(vocab, chunk, words, k - 1),
{
    assert(live.contains(b + 1));
    let k = choose|k: int| 0 <= k < live.len() && live[k] == b + 1;
    assert(match_fits(vocab, chunk, matches, live, words, k));
    k
}

/// The first of the matches is the merge that comes first.
proof fn lemma_first_match_comes_first(
    vocab: Map<Seq<u8>, Entry>,
    chunk: Seq<u8>,
    states: Seq<WordState>,
    matches: Seq<Match>,
    live: Seq<int>,
    words: Seq<Word>,
    b: int,
    k: int,
)
    requires
        linked(vocab, chunk, states, matches, live, words),
        0 <= b < matches.len(),
        !matches[b].is_removed,
        1 <= k < live.len(),
        live[k] == b + 1,
        forall|i: int|
            0 <= i < matches.len() && !(#[trigger] matches[i]).is_removed ==> {
                &&& !precedes(matches[i].weight, matches[b].weight)
                &&& i < b ==> precedes(matches[b].weight, matches[i].weight)
            },
    ensures
        comes_first(vocab, chunk, words, k - 1),
{
    assert(match_fits(vocab, chunk, matches, live, words, k));
    assert forall|j: int| #[trigger] mergeable(vocab, chunk, words, j) implies {
        &&& !precedes(weight_at(vocab, chunk, words, j), weight_at(vocab, chunk, words, k - 1))
        &&& j < k - 1 ==> precedes(
            weight_at(vocab, chunk, words, k - 1),
            weight_at(vocab, chunk, words, j),
        )
    } by {
        assert(match_fits(vocab, chunk, matches, live, words, j + 1));
        let other = live[j + 1] - 1;
        assert(live[0] < live[j + 1]);
        assert(!matches[other].is_removed);
        if j + 1 < k {
            assert(live[j + 1] < live[k]);
        }
    }
}

/// Where every match is gone, no merge is left to make.
proof fn lemma_no_match_is_done(
    vocab: Map<Seq<u8>, Entry>,
    chunk: Seq<u8>,
    states: Seq<WordState>,
    matches: Seq<Match>,
    live: Seq<int>,
    words: Seq<Word>,
)
    requires
        linked(vocab, chunk, states, matches, live, words),
        forall|i: int| 0 <= i < matches.len() ==> (#[trigger] matches[i]).is_removed,
    ensures
        merged(vocab, chunk, words) == words,
{
    assert forall|i: int| !comes_first(vocab, chunk, words, i) by {
        if mergeable(vocab, chunk, words, i) {
            assert(match_fits(vocab, chunk, matches, live, words, i + 1));
            assert(live[0] < live[i + 1]);
            assert(matches[live[i + 1] - 1].is_removed);
        }
    }
}

/// After a merge the states and the matches are those of the words that are left.
proof fn lemma_merge_links(
    vocab: Map<Seq<u8>, Entry>,
    chunk: Seq<u8>,
    states0: Seq<WordState>,
    matches0: Seq<Match>,
    states: Seq<WordState>,
    matches: Seq<Match>,
    live: Seq<int>,
    words: Seq<Word>,
    k: int,
)
    requires
        linked(vocab, chunk, states0, matches0, live, words),
        1 <= k < live.len(),
        mergeable(vocab, chunk, words, k - 1),
        states.len() == states0.len(),
        forall|i: int|
            0 <= i < states.len() && i != live[k - 1] && i != live[k] ==> #[trigger] states[i]
                == states0[i],
        states[live[k]].is_removed,
        !states[live[k - 1]].is_removed,
        states[live[k - 1]].word.start == words[k - 1].start,
        states[live[k - 1]].word.end == words[k].end,
        states[live[k - 1]].rank == vocab[joined(chunk, words, k - 1)].rank,
        states[live[k - 1]].left_index == states0[live[k - 1]].left_index,
        states[live[k - 1]].right_index == states0[live[k]].right_index,
        matches.len() == matches0.len(),
        forall|i: int|
            0 <= i < matches.len() && i != live[k] - 1 && i != live[k - 1] - 1 && !(k + 1
                < live.len() && i == live[k + 1] - 1) ==> #[trigger] matches[i] == matches0[i],
        matches[live[k] - 1].is_removed,
        k >= 2 ==> stands_for(
            matches[live[k - 1] - 1],
            vocab,
            chunk,
            words[k - 2].start,
            words[k - 2].end,
            words[k].end,
            live[k - 2],
            live[k - 1],
        ),
        k + 1 < live.len() ==> stands_for(
            matches[live[k + 1] - 1],
            vocab,
            chunk,
            words[k - 1].start,
            words[k].end,
            words[k + 1].end,
            live[k - 1],
            live[k + 1],
        ),
    ensures
        linked(
            vocab,
            chunk,
            states,
            matches,
            live.remove(k),
            merge_at(vocab, chunk, words, k - 1),
        ),
{
    let live1 = live.remove(k);
    let words1 = merge_at(vocab, chunk, words, k - 1);
    assert(live[k - 1] < live[k]);
    assert forall|j: int| 0 <= j < live1.len() implies #[trigger] state_fits(
        states,
        live1,
        words1,
        j,
    ) by {
        let old_j = if j < k { j } else { j + 1 };
        assert(live1[j] == live[old_j]);
        assert(state_fits(states0, live, words, old_j));
        assert(state_fits(states0, live, words, k));
        if j < k - 1 {
            assert(live[j] < live[k - 1]);
        } else if j >= k {
            assert(live[k] < live[old_j]);
        }
    }
    assert forall|i: int| 0 <= i < states.len() && !(
    #[trigger] states[i]).is_removed implies live1.contains(i) by {
        let j = if i == live[k - 1] { k - 1 } else {
            assert(states[i] == states0[i]);
            choose|j: int| 0 <= j < live.len() && live[j] == i
        };
        assert(live1[if j < k { j } else { j - 1 }] == i);
    }
    assert forall|j: int| 1 <= j < live1.len() implies #[trigger] match_fits(
        vocab,
        chunk,
        matches,
        live1,
        words1,
        j,
    ) by {
        let old_j = if j < k { j } else { j + 1 };
        assert(live1[j] == live[old_j]);
        assert(match_fits(vocab, chunk, matches0, live, words, old_j));
        assert(live[0] < live[old_j]);
        if j < k - 1 {
            assert(live[j] < live[k - 1]);
        } else if j > k {
            assert(live[k + 1] < live[old_j]);
        }
    }
    assert forall|i: int| 0 <= i < matches.len() && !(
    #[trigger] matches[i]).is_removed implies live1.contains(i + 1) by {
        let j = if i == live[k - 1] - 1 {
            k - 1
        } else if k + 1 < live.len() && i == live[k + 1] - 1 {
            k + 1
        } else {
            assert(matches[i] == matches0[i]);
            choose|j: int| 0 <= j < live.len() && live[j] == i + 1
        };
        assert(live1[if j < k { j } else { j - 1 }] == i + 1);
    }
}

/// Makes the merge of the match `b`, and brings the matches on both sides up to date.
fn make_merge(
    encoder: &EncoderMap,
    chunk: &[u8],
    states: &mut Vec<WordState>,
    matches: &mut Vec<Match>,
    b: usize,
    Ghost(live): Ghost<Seq<int>>,
    Ghost(words): Ghost<Seq<Word>>,
    Ghost(k): Ghost<int>,
)
    requires
        tile(words, 0, chunk@.len() as int),
        linked(entries(*encoder), chunk@, old(states)@, old(matches)@, live, words),
        b < old(matches)@.len(),
        !old(matches)@[b as int].is_removed,
        1 <= k < live.len(),
        live[k] == b + 1,
    ensures
        linked(
            entries(*encoder),
            chunk@,
            final(states)@,
            final(matches)@,
            live.remove(k),
            merge_at(entries(*encoder), chunk@, words, k - 1),
        ),
{
    let ghost vocab = entries(*encoder);
    let ghost states0 = states@;
    let ghost matches0 = matches@;
    let ghost n = states0.len();
    proof {
        lemma_tile_bounds(words, 0, chunk@.len() as int);
        assert(match_fits(vocab, chunk@, matches0, live, words, k));
        assert(state_fits(states0, live, words, k - 1));
        assert(state_fits(states0, live, words, k));
    }
    let left_index: usize = matches[b].left_index;
    let right_index: usize = matches[b].right_index;
    let rank: Rank = matches[b].weight.rank;
    let start: usize = matches[b].word.start;
    let end: usize = matches[b].word.end;
    let before: usize = states[left_index].left_index;
    let after: usize = states[right_index].right_index;

    if before < matches.len() {
        proof {
            assert(live[k - 1] > 0);
            assert(state_fits(states0, live, words, k - 2));
            assert(match_fits(vocab, chunk@, matches0, live, words, k - 1));
            assert(live[k - 2] < live[k - 1]);
        }
        let outer: usize = matches[before].left_index;
        assert(words[k - 2].end <= words[k - 1].start);
        let m = pair_up(
            encoder,
            chunk,
            &states[outer].word,
            &(start..end),
            outer,
            matches[before].right_index,
        );
        matches[before] = m;
    }
    if after < matches.len() {
        proof {
            assert(k + 1 < live.len());
            assert(state_fits(states0, live, words, k + 1));
            assert(match_fits(vocab, chunk@, matches0, live, words, k + 1));
            assert(live[k] < live[k + 1]);
            assert(after != before);
            assert(words[k].end <= words[k + 1].start);
        }
        let outer: usize = matches[after].right_index;
        let m = pair_up(encoder, chunk, &(start..end), &states[outer].word, left_index, outer);
        matches[after] = m;
    }
    states[left_index].right_index = after;
    states[left_index].word = start..end;
    states[left_index].rank = rank;
    states[right_index].is_removed = true;
    matches[b].is_removed = true;
    proof {
        lemma_merge_links(vocab, chunk@, states0, matches0, states@, matches@, live, words, k);
    }
}

/// The ranks of the words that are left.
fn push_live_ranks(
    states: &Vec<WordState>,
    output: &mut Vec<Rank>,
    Ghost(live): Ghost<Seq<int>>,
    Ghost(words): Ghost<Seq<Word>>,
)
    requires
        live.len() == words.len(),
        forall|k: int| 0 <= k < live.len() ==> 0 <= #[trigger] live[k] < states@.len(),
        forall|j: int, k: int|
            0 <= j < k < live.len() ==> #[trigger] live[j] < #[trigger] live[k],
        forall|k: int|
            0 <= k < live.len() ==> !states@[#[trigger] live[k]].is_removed
                && states@[live[k]].rank == words[k].rank,
        forall|i: int|
            0 <= i < states@.len() && !(#[trigger] states@[i]).is_removed ==> live.contains(i),
    ensures
        final(output)@ == old(output)@ + ranks_of(words),
{
    let ghost mut done: int = 0;
    let mut i: usize = 0;
    while i < states.len()
        invariant
            i <= states@.len(),
            live.len() == words.len(),
            forall|k: int| 0 <= k < live.len() ==> 0 <= #[trigger] live[k] < states@.len(),
            forall|j: int, k: int|
                0 <= j < k < live.len() ==> #[trigger] live[j] < #[trigger] live[k],
            forall|k: int|
                0 <= k < live.len() ==> !states@[#[trigger] live[k]].is_removed
                    && states@[live[k]].rank == words[k].rank,
            forall|i: int|
                0 <= i < states@.len() && !(#[trigger] states@[i]).is_removed ==> live.contains(i),
            0 <= done <= live.len(),
            forall|k: int| 0 <= k < live.len() ==> (#[trigger] live[k] < i <==> k < done),
            output@ == old(output)@ + ranks_of(words).take(done),
        decreases states@.len() - i,
    {
        if !states[i].is_removed {
            proof {
                let k = choose|k: int| 0 <= k < live.len() && live[k] == i;
                if done < k {
                    assert(live[done] < live[k]);
                }
                assert(k == done);
                assert(ranks_of(words).take(done).push(words[done].rank) =~= ranks_of(words).take(
                    done + 1,
                ));
            }
            output.push(states[i].rank);
            proof {
                assert(output@ =~= old(output)@ + ranks_of(words).take(done + 1));
                assert forall|k: int| 0 <= k < live.len() implies (#[trigger] live[k] < i + 1
                    <==> k < done + 1) by {
                    if k > done {
                        assert(live[done] < live[k]);
                    }
                }
                done = done + 1;
            }
        }
        i = i + 1;
    }
    proof {
        if done < live.len() {
            assert(live[done] < i);
        }
        assert(ranks_of(words).take(done) =~= ranks_of(words));
    }
}

/// Appends the tokens of a chunk: its words, merged as long as two neighbours make a token. Where a
/// byte has no token, nothing is appended.
pub fn bpe_merge(
    splitter: &WordSplitter,
    encoder: &EncoderMap,
    chunk: &[u8],
    output: &mut Vec<Rank>,
) -> (result: Result<(), Error>)
    ensures
        match chunk_ranks(*splitter, entries(*encoder), chunk@) {
            Ok(ranks) => result is Ok && final(output)@ == old(output)@ + ranks,
            Err(at) => {
                &&& result matches Err(error)
                &&& is_no_valid_token(error, chunk@.subrange(at, at + 1))
                &&& final(output)@ == old(output)@
            },
        },
{
    let mut states = match word_states(splitter, encoder, chunk) {
        Ok(states) => states,
        Err(error) => {
            return Err(error);
        },
    };
    let ghost vocab = entries(*encoder);
    let ghost first = words_from(*splitter, vocab, chunk@, 0)->Ok_0;
    let ghost mut words = first;
    let ghost mut live: Seq<int> = Seq::new(states@.len(), |k: int| k);
    proof {
        lemma_words_tile(*splitter, vocab, chunk@, 0);
    }
    let mut matches = matches_of(encoder, chunk, &states, Ghost(words));
    loop
        invariant
            vocab == entries(*encoder),
            tile(words, 0, chunk@.len() as int),
            linked(vocab, chunk@, states@, matches@, live, words),
            merged(vocab, chunk@, words) == merged(vocab, chunk@, first),
        ensures
            linked(vocab, chunk@, states@, matches@, live, words),
            words == merged(vocab, chunk@, first),
        decreases words.len(),
    {
        match first_match(&matches) {
            None => {
                proof {
                    lemma_no_match_is_done(vocab, chunk@, states@, matches@, live, words);
                }
                break;
            },
            Some(b) => {
                let ghost k = lemma_live_match(
                    vocab,
                    chunk@,
                    states@,
                    matches@,
                    live,
                    words,
                    b as int,
                );
                proof {
                    lemma_first_match_comes_first(
                        vocab,
                        chunk@,
                        states@,
                        matches@,
                        live,
                        words,
                        b as int,
                        k,
                    );
                    lemma_first_is_unique(vocab, chunk@, words, k - 1);
                    lemma_merge_at_tiles(
                        vocab,
                        chunk@,
                        words,
                        k - 1,
                        0,
                        chunk@.len() as int,
                    );
                }
                make_merge(
                    encoder,
                    chunk,
                    &mut states,
                    &mut matches,
                    b,
                    Ghost(live),
                    Ghost(words),
                    Ghost(k),
                );
                proof {
                    words = merge_at(vocab, chunk@, words, k - 1);
                    live = live.remove(k);
                }
            },
        }
    }
    proof {
        assert forall|k: int| 0 <= k < live.len() implies !states@[#[trigger] live[k]].is_removed
            && states@[live[k]].rank == words[k].rank by {
            assert(state_fits(states@, live, words, k));
        }
    }
    push_live_ranks(&states, output, Ghost(live), Ghost(words));
    Ok(())
}

} // verus!
