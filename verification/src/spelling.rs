//! Ways to write the same tokenizer.
use vstd::prelude::*;

use crate::error::{ran_out, Error};
use crate::hugging_face::{
    added_tokens, falls_back, may_load, merge_bytes, merge_parts, merges_valid, model_tokens,
    ranks_in, replacements, replacements_in, steps, steps_of, technique_of, token_bytes,
    uses_merges, HuggingFaceAddedToken, HuggingFaceMerge, HuggingFaceModel, HuggingFaceNormalizer,
    HuggingFaceNormalizerPattern, HuggingFacePattern, HuggingFacePreTokenizer,
    HuggingFaceSubNormalizer, HuggingFaceSubPreTokenizer, HuggingFaceTokenizer, Technique,
};
use crate::loaders::strings;
use crate::order::{before, lemma_rank_order_exists, rank_order};
use crate::relations::same_answer;
use crate::splitters::SplitRule;
use crate::text::parts;
use crate::tokenizer::{decoded, may_encode, rows_at, Model};
use crate::Rank;

verus! {

/// A vocabulary as it is written: texts and ranks.
pub open spec fn written_vocab(vocab: Seq<(String, Rank)>) -> Seq<(Seq<char>, Rank)> {
    vocab.map_values(|entry: (String, Rank)| (entry.0@, entry.1))
}

pub open spec fn written_added(tokens: Seq<HuggingFaceAddedToken>) -> Seq<(Seq<char>, Rank)> {
    tokens.map_values(|token: HuggingFaceAddedToken| (token.content@, token.id))
}

/// The two parts of a merge, if it has as many.
pub open spec fn first_parts(merge: HuggingFaceMerge) -> Option<(Seq<char>, Seq<char>)> {
    if merge_parts(merge).len() >= 2 {
        Some((merge_parts(merge)[0], merge_parts(merge)[1]))
    } else {
        None
    }
}

pub open spec fn distinct_ranks(vocab: Seq<(Seq<char>, Rank)>) -> bool {
    forall|i: int, j: int|
        0 <= i < j < vocab.len() ==> (#[trigger] vocab[i]).1 != (#[trigger] vocab[j]).1
}

/// The same entries, in any order.
pub open spec fn same_entries(a: Seq<(Seq<char>, Rank)>, b: Seq<(Seq<char>, Rank)>) -> bool {
    forall|entry: (Seq<char>, Rank)| a.contains(entry) <==> b.contains(entry)
}

/// The two contents say the same: the same replacements and steps, the same tokens, each with a
/// rank of its own, the same parts of each merge, and the same flags.
pub open spec fn same_content(a: HuggingFaceTokenizer, b: HuggingFaceTokenizer) -> bool {
    &&& replacements(a.normalizer) == replacements(b.normalizer)
    &&& steps(a.pre_tokenizer) == steps(b.pre_tokenizer)
    &&& written_added(a.added_tokens@) == written_added(b.added_tokens@)
    &&& falls_back(a.model) == falls_back(b.model)
    &&& uses_merges(a.model) == uses_merges(b.model)
    &&& distinct_ranks(written_vocab(a.model.vocab@))
    &&& distinct_ranks(written_vocab(b.model.vocab@))
    &&& same_entries(written_vocab(a.model.vocab@), written_vocab(b.model.vocab@))
    &&& a.model.merges@.len() == b.model.merges@.len()
    &&& forall|i: int|
        0 <= i < a.model.merges@.len() ==> first_parts(#[trigger] a.model.merges@[i])
            == first_parts(b.model.merges@[i])
}

/// A pre-tokenizer that splits is a sequence of just that step.
pub proof fn lemma_split_spelling(
    pattern: HuggingFacePattern,
    pretokenizers: Vec<HuggingFaceSubPreTokenizer>,
)
    requires
        pretokenizers@ == seq![HuggingFaceSubPreTokenizer::Split { pattern }],
    ensures
        steps(HuggingFacePreTokenizer::Split { pattern }) == steps(
            HuggingFacePreTokenizer::Sequence { pretokenizers },
        ),
{
    assert(steps_of(pretokenizers@) =~= steps(HuggingFacePreTokenizer::Split { pattern }));
}

/// A metaspace is a sequence of just that step.
pub proof fn lemma_metaspace_spelling(
    replacement: Option<String>,
    prepend_scheme: Option<String>,
    pretokenizers: Vec<HuggingFaceSubPreTokenizer>,
)
    requires
        pretokenizers@ == seq![
            HuggingFaceSubPreTokenizer::Metaspace { replacement, prepend_scheme },
        ],
    ensures
        steps(HuggingFacePreTokenizer::Metaspace { replacement, prepend_scheme }) == steps(
            HuggingFacePreTokenizer::Sequence { pretokenizers },
        ),
{
    assert(steps_of(pretokenizers@) =~= steps(
        HuggingFacePreTokenizer::Metaspace { replacement, prepend_scheme },
    ));
}

/// A byte-level pre-tokenizer is a sequence of just that step.
pub proof fn lemma_byte_level_spelling(pretokenizers: Vec<HuggingFaceSubPreTokenizer>)
    requires
        pretokenizers@ == seq![HuggingFaceSubPreTokenizer::ByteLevel],
    ensures
        steps(HuggingFacePreTokenizer::ByteLevel) == steps(
            HuggingFacePreTokenizer::Sequence { pretokenizers },
        ),
{
    assert(steps_of(pretokenizers@) =~= steps(HuggingFacePreTokenizer::ByteLevel));
}

/// Normalizers one after the other replace what the first do, then what the others do.
pub proof fn lemma_replacements_append(
    a: Seq<HuggingFaceSubNormalizer>,
    b: Seq<HuggingFaceSubNormalizer>,
)
    ensures
        replacements_in(a + b) == replacements_in(a) + replacements_in(b),
    decreases b.len(),
{
    if b.len() == 0 {
        assert(a + b =~= a);
        assert(replacements_in(a) + replacements_in(b) =~= replacements_in(a));
    } else {
        lemma_replacements_append(a, b.drop_last());
        assert((a + b).drop_last() =~= a + b.drop_last());
        assert((a + b).last() == b.last());
        assert(replacements_in(a + b) =~= replacements_in(a) + replacements_in(b));
    }
}

/// A normalizer that does not replace may stand anywhere in a sequence.
pub proof fn lemma_idle_normalizer(
    a: Seq<HuggingFaceSubNormalizer>,
    b: Seq<HuggingFaceSubNormalizer>,
)
    ensures
        replacements_in(a.push(HuggingFaceSubNormalizer::Other) + b) == replacements_in(a + b),
{
    let other = a.push(HuggingFaceSubNormalizer::Other);
    lemma_replacements_append(other, b);
    lemma_replacements_append(a, b);
    assert(other.drop_last() =~= a);
}

/// A normalizer that replaces is a sequence of just that one.
pub proof fn lemma_replace_spelling(
    pattern: HuggingFaceNormalizerPattern,
    content: String,
    normalizers: Vec<HuggingFaceSubNormalizer>,
)
    requires
        normalizers@ == seq![HuggingFaceSubNormalizer::Replace { pattern, content }],
    ensures
        replacements(Some(HuggingFaceNormalizer::Replace { pattern, content })) == replacements(
            Some(HuggingFaceNormalizer::Sequence { normalizers }),
        ),
{
    let none: Seq<HuggingFaceSubNormalizer> = Seq::empty();
    assert(normalizers@.drop_last() =~= none);
    assert(replacements_in(none) =~= Seq::empty());
    assert(replacements_in(normalizers@) =~= replacements(
        Some(HuggingFaceNormalizer::Replace { pattern, content }),
    ));
}

/// A merge that is written with a space between its parts is the list of the two parts.
pub proof fn lemma_merge_spelling(
    left: Seq<char>,
    right: Seq<char>,
    text: String,
    list: Vec<String>,
)
    requires
        !left.contains(' '),
        !right.contains(' '),
        text@ == left.push(' ') + right,
        strings(list@) == seq![left, right],
    ensures
        first_parts(HuggingFaceMerge::String(text)) == Some((left, right)),
        first_parts(HuggingFaceMerge::Array(list)) == Some((left, right)),
{
    let whole = text@;
    let at = left.len() as int;
    assert(whole[at] == ' ');
    whole.index_of_first_ensures(' ');
    let first = whole.index_of_first(' ')->0;
    if first < at {
        assert(left[first] == ' ');
    }
    assert(first == at);
    assert(whole.take(at) =~= left);
    assert(whole.skip(at + 1) =~= right);
    assert(parts(right) =~= seq![right]);
    assert(parts(whole) =~= seq![left, right]);
}

/// Entries in the order of rank are determined by what they are.
proof fn lemma_sorted_entries(
    a: Seq<(Seq<char>, Rank)>,
    b: Seq<(Seq<char>, Rank)>,
    n: nat,
)
    requires
        forall|i: int, j: int|
            0 <= i < j < a.len() ==> (#[trigger] a[i]).1 < (#[trigger] a[j]).1,
        forall|i: int, j: int|
            0 <= i < j < b.len() ==> (#[trigger] b[i]).1 < (#[trigger] b[j]).1,
        same_entries(a, b),
        n <= a.len(),
    ensures
        n <= b.len(),
        forall|i: int| 0 <= i < n ==> a[i] == b[i],
    decreases n,
{
    if n > 0 {
        lemma_sorted_entries(a, b, (n - 1) as nat);
        let at = n - 1;
        assert(a.contains(a[at]));
        assert(b.contains(a[at]));
        let k = b.index_of(a[at]);
        if k < at {
            assert(a[k] == b[k]);
            assert(a[k].1 < a[at].1);
        }
        assert(b.contains(b[at]));
        assert(a.contains(b[at]));
        let j = a.index_of(b[at]);
        if j < at {
            assert(a[j] == b[j]);
            assert(b[j].1 < b[at].1);
        }
        if k > at && j > at {
            assert(b[at].1 < b[k].1);
            assert(a[at].1 < a[j].1);
        }
        assert(a[at] == b[at]);
    }
}

/// The vocabulary in the order of rank.
spec fn in_order_of_rank(vocab: Seq<(String, Rank)>) -> Seq<(Seq<char>, Rank)> {
    rank_order(ranks_in(vocab)).map_values(|place: int| written_vocab(vocab)[place])
}

proof fn lemma_in_order_of_rank(vocab: Seq<(String, Rank)>)
    requires
        distinct_ranks(written_vocab(vocab)),
    ensures
        forall|i: int, j: int|
            0 <= i < j < in_order_of_rank(vocab).len() ==> (#[trigger] in_order_of_rank(
                vocab,
            )[i]).1 < (#[trigger] in_order_of_rank(vocab)[j]).1,
        same_entries(in_order_of_rank(vocab), written_vocab(vocab)),
{
    let ranks = ranks_in(vocab);
    let order = rank_order(ranks);
    let written = written_vocab(vocab);
    let sorted = in_order_of_rank(vocab);
    lemma_rank_order_exists(ranks);
    assert forall|i: int, j: int| 0 <= i < j < sorted.len() implies (#[trigger] sorted[i]).1 < (
    #[trigger] sorted[j]).1 by {
        assert(before(ranks, order[i], order[j]));
        assert(ranks[order[i]] == written[order[i]].1);
        assert(ranks[order[j]] == written[order[j]].1);
    }
    assert forall|entry: (Seq<char>, Rank)| sorted.contains(entry) <==> written.contains(entry) by {
        if sorted.contains(entry) {
            let i = sorted.index_of(entry);
            assert(0 <= order[i] < ranks.len());
            assert(written[order[i]] == entry);
        }
        if written.contains(entry) {
            let place = written.index_of(entry);
            assert(order.contains(place));
            assert(sorted[order.index_of(place)] == entry);
        }
    }
}

/// Vocabularies with the same entries give the same tokens.
proof fn lemma_same_tokens(technique: Technique, a: HuggingFaceModel, b: HuggingFaceModel)
    requires
        falls_back(a) == falls_back(b),
        distinct_ranks(written_vocab(a.vocab@)),
        distinct_ranks(written_vocab(b.vocab@)),
        same_entries(written_vocab(a.vocab@), written_vocab(b.vocab@)),
    ensures
        model_tokens(technique, a) == model_tokens(technique, b),
{
    let x = in_order_of_rank(a.vocab@);
    let y = in_order_of_rank(b.vocab@);
    lemma_in_order_of_rank(a.vocab@);
    lemma_in_order_of_rank(b.vocab@);
    assert(same_entries(x, y));
    assert(same_entries(y, x));
    lemma_sorted_entries(x, y, x.len());
    lemma_sorted_entries(y, x, y.len());
    let of = |entry: (Seq<char>, Rank)| (token_bytes(technique, falls_back(a), entry.0), entry.1);
    lemma_rank_order_exists(ranks_in(a.vocab@));
    lemma_rank_order_exists(ranks_in(b.vocab@));
    assert(model_tokens(technique, a) =~= x.map_values(of)) by {
        let order = rank_order(ranks_in(a.vocab@));
        assert forall|i: int| 0 <= i < order.len() implies model_tokens(technique, a)[i] == of(
            x[i],
        ) by {
            assert(0 <= order[i] < a.vocab@.len());
        }
    }
    assert(model_tokens(technique, b) =~= y.map_values(of)) by {
        let order = rank_order(ranks_in(b.vocab@));
        assert forall|i: int| 0 <= i < order.len() implies model_tokens(technique, b)[i] == of(
            y[i],
        ) by {
            assert(0 <= order[i] < b.vocab@.len());
        }
    }
    assert(x =~= y);
}

/// Contents that say the same make the same tables.
proof fn lemma_same_tables(
    technique: Technique,
    a: HuggingFaceTokenizer,
    b: HuggingFaceTokenizer,
)
    requires
        same_content(a, b),
    ensures
        model_tokens(technique, a.model) == model_tokens(technique, b.model),
        added_tokens(technique, a) == added_tokens(technique, b),
        merges_valid(a.model.merges@) == merges_valid(b.model.merges@),
        merges_valid(a.model.merges@) ==> merge_bytes(technique, a.model.merges@) == merge_bytes(
            technique,
            b.model.merges@,
        ),
{
    lemma_same_tokens(technique, a.model, b.model);
    assert(added_tokens(technique, a) =~= added_tokens(technique, b)) by {
        let (s, t) = (written_added(a.added_tokens@), written_added(b.added_tokens@));
        assert(s.len() == a.added_tokens@.len());
        assert(t.len() == b.added_tokens@.len());
        assert forall|i: int| 0 <= i < s.len() implies added_tokens(technique, a)[i]
            == added_tokens(technique, b)[i] by {
            assert(s[i] == t[i]);
        }
    }
    let (m, n) = (a.model.merges@, b.model.merges@);
    assert(merges_valid(m) == merges_valid(n)) by {
        assert forall|i: int| 0 <= i < m.len() implies (merge_parts(#[trigger] m[i]).len() >= 2)
            == (merge_parts(n[i]).len() >= 2) by {
            assert(first_parts(m[i]) == first_parts(n[i]));
        }
        if merges_valid(m) {
            assert forall|i: int| 0 <= i < n.len() implies merge_parts(#[trigger] n[i]).len()
                >= 2 by {
                assert(merge_parts(m[i]).len() >= 2);
            }
        }
    }
    if merges_valid(m) {
        assert(merge_bytes(technique, m) =~= merge_bytes(technique, n)) by {
            assert forall|i: int| 0 <= i < m.len() implies merge_bytes(technique, m)[i]
                == merge_bytes(technique, n)[i] by {
                assert(first_parts(m[i]) == first_parts(n[i]));
            }
        }
    }
}

/// Of two spellings of one content, both can be loaded or none.
pub proof fn lemma_spellings_loadable(a: HuggingFaceTokenizer, b: HuggingFaceTokenizer)
    requires
        same_content(a, b),
    ensures
        a.loadable() == b.loadable(),
{
    assert(technique_of(a) == technique_of(b));
    if let Ok(technique) = technique_of(a) {
        lemma_same_tables(technique, a, b);
    }
}

/// The errors are of the same variant.
pub open spec fn same_variant(a: Error, b: Error) -> bool {
    match (a, b) {
        (Error::RegexError(_), Error::RegexError(_)) => true,
        (Error::AhoCorasickError(_), Error::AhoCorasickError(_)) => true,
        (Error::InvalidModelFormat, Error::InvalidModelFormat) => true,
        (
            Error::UnsupportedNormalizerPretokenizer,
            Error::UnsupportedNormalizerPretokenizer,
        ) => true,
        (Error::UnexpectedNonRegexSplitter, Error::UnexpectedNonRegexSplitter) => true,
        (Error::MissingNormalizerPretokenizer, Error::MissingNormalizerPretokenizer) => true,
        _ => false,
    }
}

/// The rules are the same but for the engines on which their patterns run.
pub open spec fn same_patterns(a: Seq<SplitRule>, b: Seq<SplitRule>) -> bool {
    &&& a.len() == b.len()
    &&& forall|i: int|
        0 <= i < a.len() ==> match (#[trigger] a[i], b[i]) {
            (SplitRule::Pattern(x, _), SplitRule::Pattern(y, _)) => x == y,
            (x, y) => x == y,
        }
}

/// The patterns of the two run on the same engines.
pub open spec fn same_engines(a: Seq<SplitRule>, b: Seq<SplitRule>) -> bool {
    forall|i: int|
        0 <= i < a.len() && i < b.len() ==> match (#[trigger] a[i], b[i]) {
            (SplitRule::Pattern(_, x), SplitRule::Pattern(_, y)) => x == y,
            _ => true,
        }
}

/// Two spellings of one content load alike: with errors of the same variant, or as tokenizers that
/// differ in nothing but the engines on which the machine runs their patterns.
pub proof fn lemma_spellings_load_alike(
    a: HuggingFaceTokenizer,
    b: HuggingFaceTokenizer,
    x: Result<Model, Error>,
    y: Result<Model, Error>,
)
    requires
        same_content(a, b),
        may_load(a, x),
        may_load(b, y),
    ensures
        match (x, y) {
            (Ok(m), Ok(n)) => {
                &&& m == (Model { rules: m.rules, ..n })
                &&& same_patterns(m.rules, n.rules)
            },
            (Err(e), Err(f)) => same_variant(e, f),
            _ => false,
        },
{
    assert(technique_of(a) == technique_of(b));
    if let Ok(technique) = technique_of(a) {
        lemma_same_tables(technique, a, b);
        if let (Ok(p), Ok(q)) = (x, y) {
            let (r, s) = (p.rules.skip(1), q.rules.skip(1));
            assert(p.rules.len() == r.len() + 1 && q.rules.len() == s.len() + 1);
            assert forall|i: int| 0 <= i < p.rules.len() implies match (
                #[trigger] p.rules[i],
                q.rules[i],
            ) {
                (SplitRule::Pattern(x, _), SplitRule::Pattern(y, _)) => x == y,
                (x, y) => x == y,
            } by {
                if i > 0 {
                    assert(r[i - 1] == p.rules[i]);
                    assert(s[i - 1] == q.rules[i]);
                }
            }
        }
    }
}

/// The tokenizers of two spellings of one content give the same bytes for the same ranks. Where
/// their patterns run on the same engines they are the same tokenizer, and give the same answer for
/// the same text, unless a search runs out of memory.
pub proof fn lemma_spellings_answer_alike(
    a: HuggingFaceTokenizer,
    b: HuggingFaceTokenizer,
    m: Model,
    n: Model,
    ranks: Seq<Rank>,
    text: Seq<u8>,
    x: Result<Seq<Rank>, Error>,
    y: Result<Seq<Rank>, Error>,
)
    requires
        same_content(a, b),
        may_load(a, Ok(m)),
        may_load(b, Ok(n)),
        may_encode(m, text, x),
        may_encode(n, text, y),
    ensures
        decoded(m, ranks) == decoded(n, ranks),
        same_engines(m.rules, n.rules) ==> m == n,
        same_engines(m.rules, n.rules) && !ran_out(x) && !ran_out(y) ==> same_answer(x, y),
{
    lemma_spellings_load_alike(a, b, Ok(m), Ok(n));
    lemma_same_rows(m, n, ranks);
    if same_engines(m.rules, n.rules) {
        assert(m.rules =~= n.rules);
    }
}

/// Which bytes the ranks stand for does not depend on the rules.
proof fn lemma_same_rows(m: Model, n: Model, ranks: Seq<Rank>)
    requires
        m == (Model { rules: m.rules, ..n }),
    ensures
        rows_at(m, ranks) == rows_at(n, ranks),
    decreases ranks.len(),
{
    if ranks.len() > 0 {
        lemma_same_rows(m, n, ranks.drop_last());
    }
}

} // verus!
