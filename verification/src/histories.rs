//! How the tokens of a chunk of text come about, merge by merge.
use vstd::prelude::*;
use vstd::utf8::{encode_scalar, encode_utf8, encode_utf8_first_scalar};

use crate::bpe::{
    chunk_ranks, comes_first, joined, lemma_merge_at_tiles, lemma_tile_bounds, lemma_words_tile,
    merge_at, mergeable, merged, precedes, priority_of, ranks_of, tile, weight_at,
};
use crate::encoder::Entry;
use crate::laws::{lemma_first_words_are_tokens, lemma_some_merge_comes_first, words_are_tokens};
use crate::tables::{holds, lemma_ranked_once, listed, paired, placed, ranked};
use crate::words::{character_len, word_at, words_from, Word, WordSplitter};
use crate::Rank;

verus! {

/// The `n` bytes at `i` have the form of a character of more than one byte: a first byte that says
/// how many there are, and others that continue it.
pub open spec fn has_form(text: Seq<u8>, i: int, n: int) -> bool {
    &&& 2 <= n <= 4
    &&& 0 <= i
    &&& i + n <= text.len()
    &&& n == 2 ==> 0xc0 <= text[i] <= 0xdf
    &&& n == 3 ==> 0xe0 <= text[i] <= 0xef
    &&& n == 4 ==> 0xf0 <= text[i] <= 0xf7
    &&& forall|j: int| i < j < i + n ==> 0x80 <= #[trigger] text[j] <= 0xbf
}

/// The word that begins at `i` has `n` bytes: it is a token, and it is a single byte unless words
/// are characters and the bytes of a whole one are a token.
pub open spec fn begins(
    words: WordSplitter,
    vocab: Seq<(Seq<u8>, Rank)>,
    text: Seq<u8>,
    i: int,
    n: int,
) -> bool {
    &&& 0 <= i
    &&& 0 < n
    &&& i + n <= text.len()
    &&& listed(vocab, text.subrange(i, i + n))
    &&& n > 1 ==> words is Unicode && has_form(text, i, n)
    &&& n == 1 && words is Unicode ==> forall|m: int| #[trigger]
        has_form(text, i, m) ==> !listed(vocab, text.subrange(i, i + m))
}

/// No word begins at `i`: the byte there is no token, nor is the character where words are
/// characters.
pub open spec fn stuck(
    words: WordSplitter,
    vocab: Seq<(Seq<u8>, Rank)>,
    text: Seq<u8>,
    i: int,
) -> bool {
    &&& 0 <= i < text.len()
    &&& !listed(vocab, text.subrange(i, i + 1))
    &&& words is Unicode ==> forall|m: int| #[trigger]
        has_form(text, i, m) ==> !listed(vocab, text.subrange(i, i + m))
}

/// A word begins at the `k`-th of the cuts and ends at the next one.
pub open spec fn word_between(
    words: WordSplitter,
    vocab: Seq<(Seq<u8>, Rank)>,
    text: Seq<u8>,
    cuts: Seq<int>,
    k: int,
) -> bool {
    begins(words, vocab, text, cuts[k], cuts[k + 1] - cuts[k])
}

/// The words from `start` to `end`, one after the other, begin and end at the cuts.
pub open spec fn walked(
    words: WordSplitter,
    vocab: Seq<(Seq<u8>, Rank)>,
    text: Seq<u8>,
    start: int,
    end: int,
    cuts: Seq<int>,
) -> bool {
    &&& cuts.len() > 0
    &&& cuts[0] == start
    &&& cuts.last() == end
    &&& forall|k: int|
        0 <= k < cuts.len() - 1 ==> #[trigger] word_between(words, vocab, text, cuts, k)
}

/// The length of a character is that of its form.
proof fn lemma_form(text: Seq<u8>, i: int, m: int)
    requires
        0 <= i < text.len(),
    ensures
        has_form(text, i, m) ==> character_len(text, i) == Some(m),
        character_len(text, i) matches Some(n) ==> n == 1 || has_form(text, i, n),
        character_len(text, i) matches Some(n) ==> 1 <= n && i + n <= text.len(),
{
    if has_form(text, i, m) {
        assert(0x80 <= text[i + 1] <= 0xbf);
        if m > 2 {
            assert(0x80 <= text[i + 2] <= 0xbf);
        }
        if m > 3 {
            assert(0x80 <= text[i + 3] <= 0xbf);
        }
    }
}

/// A character stands as it is for a walk by characters: where its bytes are a token, they are one
/// word, wherever they stand and whatever comes before and after.
pub proof fn lemma_character_is_word(
    table: Map<Seq<u8>, Entry>,
    a: Seq<u8>,
    c: char,
    b: Seq<u8>,
)
    ensures
        character_len(a + encode_utf8(seq![c]) + b, a.len() as int) == Some(
            encode_utf8(seq![c]).len() as int,
        ),
        table.contains_key(encode_utf8(seq![c])) ==> word_at(
            WordSplitter::Unicode,
            table,
            a + encode_utf8(seq![c]) + b,
            a.len() as int,
        ) == Some(
            Word {
                start: a.len() as int,
                end: (a.len() + encode_utf8(seq![c]).len()) as int,
                rank: table[encode_utf8(seq![c])].rank,
            },
        ),
{
    let one = seq![c];
    let bytes = encode_utf8(one);
    let text = a + bytes + b;
    let i = a.len() as int;
    encode_utf8_first_scalar(one);
    assert(one.drop_first() =~= Seq::empty());
    assert(encode_utf8(one.drop_first()) =~= Seq::empty());
    assert(bytes =~= encode_scalar(c as u32));
    assert forall|k: int| 0 <= k < bytes.len() implies text[i + k] == #[trigger] bytes[k] by {}
    assert(text[i] == bytes[0]);
    if bytes.len() > 1 {
        assert(text[i + 1] == bytes[1]);
    }
    if bytes.len() > 2 {
        assert(text[i + 2] == bytes[2]);
    }
    if bytes.len() > 3 {
        assert(text[i + 3] == bytes[3]);
    }
    assert(text.subrange(i, i + bytes.len()) =~= bytes);
}

/// The word of a walk is the word that begins there; where there is none, none begins.
pub proof fn lemma_word_begins(
    words: WordSplitter,
    table: Map<Seq<u8>, Entry>,
    vocab: Seq<(Seq<u8>, Rank)>,
    merges: Seq<(Seq<u8>, Seq<u8>)>,
    text: Seq<u8>,
    i: int,
)
    requires
        holds(table, vocab, merges),
        0 <= i < text.len(),
    ensures
        match word_at(words, table, text, i) {
            Some(word) => word.start == i && begins(words, vocab, text, i, word.end - i),
            None => stuck(words, vocab, text, i),
        },
{
    lemma_form(text, i, 0);
    assert(table.contains_key(text.subrange(i, i + 1)) == listed(vocab, text.subrange(i, i + 1)));
    assert forall|m: int| #[trigger] has_form(text, i, m) implies character_len(text, i) == Some(
        m,
    ) && table.contains_key(text.subrange(i, i + m)) == listed(
        vocab,
        text.subrange(i, i + m),
    ) by {
        lemma_form(text, i, m);
    }
    if let Some(n) = character_len(text, i) {
        assert(table.contains_key(text.subrange(i, i + n)) == listed(
            vocab,
            text.subrange(i, i + n),
        ));
    }
}

/// Where the words begin, and where the last of them ends.
pub open spec fn cuts_of(words: Seq<Word>, end: int) -> Seq<int> {
    Seq::new(
        (words.len() + 1) as nat,
        |k: int|
            if k < words.len() {
                words[k].start
            } else {
                end
            },
    )
}

proof fn lemma_walk(
    words: WordSplitter,
    table: Map<Seq<u8>, Entry>,
    vocab: Seq<(Seq<u8>, Rank)>,
    merges: Seq<(Seq<u8>, Seq<u8>)>,
    text: Seq<u8>,
    i: int,
)
    requires
        holds(table, vocab, merges),
        0 <= i <= text.len(),
    ensures
        match words_from(words, table, text, i) {
            Ok(list) => walked(
                words,
                vocab,
                text,
                i,
                text.len() as int,
                cuts_of(list, text.len() as int),
            ),
            Err(at) => stuck(words, vocab, text, at) && exists|cuts: Seq<int>|
                walked(words, vocab, text, i, at, cuts),
        },
    decreases text.len() - i,
{
    let end = text.len() as int;
    if i < text.len() {
        lemma_word_begins(words, table, vocab, merges, text, i);
        match word_at(words, table, text, i) {
            None => {
                assert(walked(words, vocab, text, i, i, seq![i]));
                assert(words_from(words, table, text, i) == Err::<Seq<Word>, int>(i));
            },
            Some(word) => {
                lemma_walk(words, table, vocab, merges, text, word.end);
                match words_from(words, table, text, word.end) {
                    Ok(rest) => {
                        let cuts = cuts_of(seq![word] + rest, end);
                        let tail = cuts_of(rest, end);
                        assert(cuts =~= seq![i] + tail);
                        lemma_walk_on(words, vocab, text, i, word.end, end, tail);
                        assert(words_from(words, table, text, i) == Ok::<Seq<Word>, int>(
                            seq![word] + rest,
                        ));
                    },
                    Err(at) => {
                        let tail = choose|cuts: Seq<int>|
                            walked(words, vocab, text, word.end, at, cuts);
                        lemma_walk_on(words, vocab, text, i, word.end, at, tail);
                        assert(words_from(words, table, text, i) == Err::<Seq<Word>, int>(at));
                    },
                }
            },
        }
    } else {
        let none: Seq<Word> = Seq::empty();
        assert(words_from(words, table, text, i) == Ok::<Seq<Word>, int>(none));
        assert(cuts_of(none, end) =~= seq![end]);
        assert(walked(words, vocab, text, i, end, cuts_of(none, end)));
    }
}

proof fn lemma_walk_on(
    words: WordSplitter,
    vocab: Seq<(Seq<u8>, Rank)>,
    text: Seq<u8>,
    start: int,
    middle: int,
    end: int,
    tail: Seq<int>,
)
    requires
        begins(words, vocab, text, start, middle - start),
        walked(words, vocab, text, middle, end, tail),
    ensures
        walked(words, vocab, text, start, end, seq![start] + tail),
{
    let cuts = seq![start] + tail;
    assert forall|k: int| 0 <= k < cuts.len() - 1 implies #[trigger] word_between(
        words,
        vocab,
        text,
        cuts,
        k,
    ) by {
        assert(cuts[k + 1] == tail[k]);
        if k > 0 {
            assert(cuts[k] == tail[k - 1]);
            assert(word_between(words, vocab, text, tail, k - 1));
        }
    }
}

/// The word that ends at the `k`-th cut.
pub open spec fn left_of(chunk: Seq<u8>, cuts: Seq<int>, k: int) -> Seq<u8> {
    chunk.subrange(cuts[k - 1], cuts[k])
}

/// The word that begins at the `k`-th cut.
pub open spec fn right_of(chunk: Seq<u8>, cuts: Seq<int>, k: int) -> Seq<u8> {
    chunk.subrange(cuts[k], cuts[k + 1])
}

/// The words on the two sides of the `k`-th cut make a token together.
pub open spec fn closes(
    vocab: Seq<(Seq<u8>, Rank)>,
    chunk: Seq<u8>,
    cuts: Seq<int>,
    k: int,
) -> bool {
    &&& 0 < k < cuts.len() - 1
    &&& listed(vocab, chunk.subrange(cuts[k - 1], cuts[k + 1]))
}

/// The merge of the one pair is not made after that of the other pair. A pair of the list comes
/// before one that is not there; of two in the list, the one with the lower place; of two that are
/// not there, the one whose token has the numerically lower rank. With `strictly`, it is made
/// before.
pub open spec fn not_after(
    vocab: Seq<(Seq<u8>, Rank)>,
    merges: Seq<(Seq<u8>, Seq<u8>)>,
    pair: (Seq<u8>, Seq<u8>),
    other: (Seq<u8>, Seq<u8>),
    strictly: bool,
) -> bool {
    &&& paired(merges, other.0, other.1) ==> paired(merges, pair.0, pair.1)
    &&& forall|p: int, q: int|
        #![trigger placed(merges, pair.0, pair.1, p), placed(merges, other.0, other.1, q)]
        placed(merges, pair.0, pair.1, p) && placed(merges, other.0, other.1, q) ==> p <= q && (
        strictly ==> p < q)
    &&& !paired(merges, pair.0, pair.1) ==> forall|r: Rank, s: Rank|
        #![trigger ranked(vocab, pair.0 + pair.1, r), ranked(vocab, other.0 + other.1, s)]
        ranked(vocab, pair.0 + pair.1, r) && ranked(vocab, other.0 + other.1, s) ==> r <= s && (
        strictly ==> r < s)
}

/// The `k`-th cut is the next to be closed: no other is closed before it, and it is closed before
/// those on its left.
pub open spec fn closes_next(
    vocab: Seq<(Seq<u8>, Rank)>,
    merges: Seq<(Seq<u8>, Seq<u8>)>,
    chunk: Seq<u8>,
    cuts: Seq<int>,
    k: int,
) -> bool {
    &&& closes(vocab, chunk, cuts, k)
    &&& forall|j: int| #[trigger]
        closes(vocab, chunk, cuts, j) && j != k ==> not_after(
            vocab,
            merges,
            (left_of(chunk, cuts, k), right_of(chunk, cuts, k)),
            (left_of(chunk, cuts, j), right_of(chunk, cuts, j)),
            j < k,
        )
}

/// One merge is made.
pub open spec fn merged_once(
    vocab: Seq<(Seq<u8>, Rank)>,
    merges: Seq<(Seq<u8>, Seq<u8>)>,
    chunk: Seq<u8>,
    before: Seq<int>,
    after: Seq<int>,
) -> bool {
    exists|k: int| #[trigger]
        closes_next(vocab, merges, chunk, before, k) && after == before.remove(k)
}

/// From each of the states to the next one merge is made.
pub open spec fn is_history(
    vocab: Seq<(Seq<u8>, Rank)>,
    merges: Seq<(Seq<u8>, Seq<u8>)>,
    chunk: Seq<u8>,
    states: Seq<Seq<int>>,
) -> bool {
    &&& states.len() > 0
    &&& forall|t: int, u: int|
        #![trigger states[t], states[u]]
        0 <= t && u == t + 1 && u < states.len() ==> merged_once(
            vocab,
            merges,
            chunk,
            states[t],
            states[u],
        )
}

/// The ranks are those of the words between the cuts.
pub open spec fn ranks_between(
    vocab: Seq<(Seq<u8>, Rank)>,
    chunk: Seq<u8>,
    cuts: Seq<int>,
    ranks: Seq<Rank>,
) -> bool {
    &&& cuts.len() == ranks.len() + 1
    &&& forall|i: int|
        0 <= i < ranks.len() ==> ranked(
            vocab,
            right_of(chunk, cuts, i),
            #[trigger] ranks[i],
        )
}

/// The ranks of a chunk that is cut into words and then merged, one merge after the other in the
/// order of the merges, until no two neighbours make a token.
pub open spec fn merges_into(
    words: WordSplitter,
    vocab: Seq<(Seq<u8>, Rank)>,
    merges: Seq<(Seq<u8>, Seq<u8>)>,
    chunk: Seq<u8>,
    ranks: Seq<Rank>,
) -> bool {
    exists|states: Seq<Seq<int>>|
        {
            &&& #[trigger] is_history(vocab, merges, chunk, states)
            &&& walked(words, vocab, chunk, 0, chunk.len() as int, states[0])
            &&& forall|k: int| !#[trigger] closes(vocab, chunk, states.last(), k)
            &&& ranks_between(vocab, chunk, states.last(), ranks)
        }
}

/// The pair of the words `i` and `i + 1`, seen from the cut between them.
proof fn lemma_pair(chunk: Seq<u8>, words: Seq<Word>, i: int)
    requires
        tile(words, 0, chunk.len() as int),
        0 <= i < words.len() - 1,
    ensures
        ({
            let cuts = cuts_of(words, chunk.len() as int);
            let left = left_of(chunk, cuts, i + 1);
            let right = right_of(chunk, cuts, i + 1);
            &&& left == chunk.subrange(words[i].start, words[i].end)
            &&& right == chunk.subrange(words[i + 1].start, words[i + 1].end)
            &&& left + right == joined(chunk, words, i)
            &&& left.len() == words[i].end - words[i].start
            &&& joined(chunk, words, i) == chunk.subrange(cuts[i], cuts[i + 2])
        }),
{
    let end = chunk.len() as int;
    let cuts = cuts_of(words, end);
    lemma_tile_bounds(words, 0, end);
    assert(words[i].end == words[i + 1].start);
    if i + 2 < words.len() {
        assert(words[i + 1].end == words[i + 2].start);
    } else {
        assert(words[i + 1] == words.last());
    }
    assert(cuts[i] == words[i].start && cuts[i + 1] == words[i + 1].start && cuts[i + 2]
        == words[i + 1].end);
    assert(left_of(chunk, cuts, i + 1) + right_of(chunk, cuts, i + 1) =~= joined(
        chunk,
        words,
        i,
    ));
}

/// Two neighbours can be merged where the cut between them closes.
proof fn lemma_closes(
    table: Map<Seq<u8>, Entry>,
    vocab: Seq<(Seq<u8>, Rank)>,
    merges: Seq<(Seq<u8>, Seq<u8>)>,
    chunk: Seq<u8>,
    words: Seq<Word>,
    k: int,
)
    requires
        holds(table, vocab, merges),
        tile(words, 0, chunk.len() as int),
    ensures
        closes(vocab, chunk, cuts_of(words, chunk.len() as int), k) <==> mergeable(
            table,
            chunk,
            words,
            k - 1,
        ),
{
    if 0 <= k - 1 < words.len() - 1 {
        lemma_pair(chunk, words, k - 1);
        assert(table.contains_key(joined(chunk, words, k - 1)) == listed(
            vocab,
            joined(chunk, words, k - 1),
        ));
    }
}

/// A merge that no other precedes is made after no other.
proof fn lemma_not_after(
    table: Map<Seq<u8>, Entry>,
    vocab: Seq<(Seq<u8>, Rank)>,
    merges: Seq<(Seq<u8>, Seq<u8>)>,
    chunk: Seq<u8>,
    words: Seq<Word>,
    i: int,
    j: int,
)
    requires
        holds(table, vocab, merges),
        tile(words, 0, chunk.len() as int),
        mergeable(table, chunk, words, i),
        mergeable(table, chunk, words, j),
        !precedes(weight_at(table, chunk, words, j), weight_at(table, chunk, words, i)),
        j < i ==> precedes(weight_at(table, chunk, words, i), weight_at(table, chunk, words, j)),
    ensures
        ({
            let cuts = cuts_of(words, chunk.len() as int);
            not_after(
                vocab,
                merges,
                (left_of(chunk, cuts, i + 1), right_of(chunk, cuts, i + 1)),
                (left_of(chunk, cuts, j + 1), right_of(chunk, cuts, j + 1)),
                j < i,
            )
        }),
{
    let cuts = cuts_of(words, chunk.len() as int);
    lemma_pair(chunk, words, i);
    lemma_pair(chunk, words, j);
    let (a, b) = (left_of(chunk, cuts, i + 1), right_of(chunk, cuts, i + 1));
    let (c, d) = (left_of(chunk, cuts, j + 1), right_of(chunk, cuts, j + 1));
    assert(table.contains_key(a + b) && table.contains_key(c + d));
    let x = weight_at(table, chunk, words, i);
    let y = weight_at(table, chunk, words, j);
    assert(x.priority == priority_of(table[a + b], a.len() as int));
    assert(y.priority == priority_of(table[c + d], c.len() as int));
    assert(ranked(vocab, a + b, x.rank) && ranked(vocab, c + d, y.rank));
    assert forall|p: int, q: int|
        #![trigger placed(merges, a, b, p), placed(merges, c, d, q)]
        placed(merges, a, b, p) && placed(merges, c, d, q) implies p <= q && (j < i ==> p
        < q) by {
        assert(merges[p] == (a, b) && merges[q] == (c, d));
        assert(paired(merges, a, b) && paired(merges, c, d));
        let (s, t) = (x.priority->0 as int, y.priority->0 as int);
        assert(placed(merges, a, b, s) && placed(merges, c, d, t));
        assert(merges[s] == (a, b) && merges[t] == (c, d));
        assert(s == p && t == q);
    }
    if paired(merges, c, d) {
        let t = y.priority->0 as int;
        assert(y.priority is Some);
        assert(x.priority is Some);
        assert(placed(merges, a, b, x.priority->0 as int));
        assert(merges[x.priority->0 as int] == (a, b));
    }
    if !paired(merges, a, b) {
        if x.priority is Some {
            assert(merges[x.priority->0 as int] == (a, b));
        }
        if y.priority is Some {
            assert(merges[y.priority->0 as int] == (c, d));
        }
        assert forall|r: Rank, s: Rank|
            #![trigger ranked(vocab, a + b, r), ranked(vocab, c + d, s)]
            ranked(vocab, a + b, r) && ranked(vocab, c + d, s) implies r <= s && (j < i ==> r
            < s) by {
            lemma_ranked_once(vocab, a + b, r, x.rank);
            lemma_ranked_once(vocab, c + d, s, y.rank);
        }
    }
}

/// The merge that is made next: where its pair and that of another merge that could be made are
/// both not in the list of merges, it makes the token with the numerically lower rank, or with the
/// same rank and further left; where both are in the list, its pair does not stand later there.
pub proof fn lemma_lowest_merge_comes_first(
    table: Map<Seq<u8>, Entry>,
    chunk: Seq<u8>,
    words: Seq<Word>,
    i: int,
    j: int,
)
    requires
        comes_first(table, chunk, words, i),
        0 <= j < words.len() - 1,
        table.contains_key(chunk.subrange(words[j].start, words[j + 1].end)),
    ensures
        ({
            let x = table[chunk.subrange(words[i].start, words[i + 1].end)];
            let y = table[chunk.subrange(words[j].start, words[j + 1].end)];
            let p = priority_of(x, words[i].end - words[i].start);
            let q = priority_of(y, words[j].end - words[j].start);
            &&& p is None && q is None ==> x.rank <= y.rank && (x.rank == y.rank ==> i <= j)
            &&& p is Some && q is Some ==> p->0 <= q->0 && (p->0 == q->0 ==> i <= j)
            &&& q is Some ==> p is Some
        }),
{
    assert(mergeable(table, chunk, words, j));
}

/// The merges that are made of the words.
proof fn lemma_history(
    table: Map<Seq<u8>, Entry>,
    vocab: Seq<(Seq<u8>, Rank)>,
    merges: Seq<(Seq<u8>, Seq<u8>)>,
    chunk: Seq<u8>,
    words: Seq<Word>,
) -> (states: Seq<Seq<int>>)
    requires
        holds(table, vocab, merges),
        tile(words, 0, chunk.len() as int),
        words_are_tokens(table, chunk, words),
    ensures
        is_history(vocab, merges, chunk, states),
        states[0] == cuts_of(words, chunk.len() as int),
        forall|k: int| !#[trigger] closes(vocab, chunk, states.last(), k),
        ranks_between(vocab, chunk, states.last(), ranks_of(merged(table, chunk, words))),
    decreases words.len(),
{
    let end = chunk.len() as int;
    let cuts = cuts_of(words, end);
    if exists|i: int| comes_first(table, chunk, words, i) {
        let i = choose|i: int| comes_first(table, chunk, words, i);
        let after = merge_at(table, chunk, words, i);
        assert(mergeable(table, chunk, words, i));
        lemma_merge_at_tiles(table, chunk, words, i, 0, end);
        assert(words_are_tokens(table, chunk, after)) by {
            assert forall|k: int| 0 <= k < after.len() implies {
                let bytes = chunk.subrange((#[trigger] after[k]).start, after[k].end);
                table.contains_key(bytes) && after[k].rank == table[bytes].rank
            } by {
                if k < i {
                    assert(after[k] == words[k]);
                } else if k > i {
                    assert(after[k] == words[k + 1]);
                } else {
                    assert(after[k].rank == table[joined(chunk, words, i)].rank);
                }
            }
        }
        let rest = lemma_history(table, vocab, merges, chunk, after);
        let next = cuts_of(after, end);
        assert(next =~= cuts.remove(i + 1));
        lemma_closes(table, vocab, merges, chunk, words, i + 1);
        assert(closes_next(vocab, merges, chunk, cuts, i + 1)) by {
            assert forall|j: int| #[trigger]
                closes(vocab, chunk, cuts, j) && j != i + 1 implies not_after(
                vocab,
                merges,
                (left_of(chunk, cuts, i + 1), right_of(chunk, cuts, i + 1)),
                (left_of(chunk, cuts, j), right_of(chunk, cuts, j)),
                j < i + 1,
            ) by {
                lemma_closes(table, vocab, merges, chunk, words, j);
                assert(mergeable(table, chunk, words, j - 1));
                lemma_not_after(table, vocab, merges, chunk, words, i, j - 1);
            }
        }
        assert(merged_once(vocab, merges, chunk, cuts, next));
        let states = seq![cuts] + rest;
        assert forall|t: int, u: int|
            #![trigger states[t], states[u]]
            0 <= t && u == t + 1 && u < states.len() implies merged_once(
            vocab,
            merges,
            chunk,
            states[t],
            states[u],
        ) by {
            assert(states[u] == rest[t]);
            if t > 0 {
                assert(states[t] == rest[t - 1]);
            }
        }
        assert(states.last() == rest.last());
        states
    } else {
        assert forall|k: int| !#[trigger] closes(vocab, chunk, cuts, k) by {
            lemma_closes(table, vocab, merges, chunk, words, k);
            if mergeable(table, chunk, words, k - 1) {
                lemma_some_merge_comes_first(table, chunk, words, k - 1);
            }
        }
        let ranks = ranks_of(words);
        lemma_tile_bounds(words, 0, end);
        assert forall|i: int| 0 <= i < ranks.len() implies ranked(
            vocab,
            right_of(chunk, cuts, i),
            #[trigger] ranks[i],
        ) by {
            if i + 1 < words.len() {
                assert(words[i].end == words[i + 1].start);
            } else {
                assert(words[i] == words.last());
            }
            assert(right_of(chunk, cuts, i) == chunk.subrange(words[i].start, words[i].end));
        }
        seq![cuts]
    }
}

/// The tokens of a chunk are what its words merge into, made one merge after the other: always the
/// pair of neighbours that is first in the list of merges, or, where none is in the list, whose
/// token has the numerically lowest rank; of several such pairs the leftmost. Where there are no
/// tokens, the words go up to a place where none begins.
pub proof fn lemma_chunk_merges(
    words: WordSplitter,
    table: Map<Seq<u8>, Entry>,
    vocab: Seq<(Seq<u8>, Rank)>,
    merges: Seq<(Seq<u8>, Seq<u8>)>,
    chunk: Seq<u8>,
)
    requires
        holds(table, vocab, merges),
    ensures
        match chunk_ranks(words, table, chunk) {
            Ok(ranks) => merges_into(words, vocab, merges, chunk, ranks),
            Err(at) => stuck(words, vocab, chunk, at) && exists|cuts: Seq<int>|
                walked(words, vocab, chunk, 0, at, cuts),
        },
{
    lemma_walk(words, table, vocab, merges, chunk, 0);
    if let Ok(list) = words_from(words, table, chunk, 0) {
        lemma_words_tile(words, table, chunk, 0);
        lemma_first_words_are_tokens(words, table, chunk, 0);
        let states = lemma_history(table, vocab, merges, chunk, list);
        assert(is_history(vocab, merges, chunk, states));
    }
}

} // verus!
