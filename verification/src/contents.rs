//! What a tokenizer has of the content of the model files that it is loaded from.
use vstd::prelude::*;
use vstd::utf8::encode_utf8;

use crate::encodings::{lemma_text_is_encoded, Lists};
use crate::error::Error;
use crate::hugging_face::{
    added_tokens, falls_back, may_load, merge_bytes, merge_parts, merges_valid, model_tokens,
    part_bytes, patterns_of, ranks_in, replacements, replacements_in, splits_in, steps,
    technique_of, technique_rules, token_bytes, uses_merges, HuggingFaceMerge, HuggingFaceModel,
    HuggingFaceNormalizer, HuggingFaceNormalizerPattern, HuggingFacePattern,
    HuggingFacePreTokenizer, HuggingFaceSubNormalizer, HuggingFaceSubPreTokenizer,
    HuggingFaceTokenizer, Refusal, Step, Technique,
};
use crate::loaders::all_compile;
use crate::order::{before, lemma_rank_order_exists, rank_order};
use crate::search::{
    asserts_at, automaton_fits, calls_at, regex_compiles, resets_at, steady,
};
use crate::splitters::SplitRule;
use crate::tables::{lemma_entries_hold_tokens, listed, merges_in};
use crate::text::{parts, replaced};
use crate::tokenizer::{literals_of, may_encode, Model};
use crate::transforms::fallback_byte;
use crate::vocabulary::{ranks_fit, vocab_entries};
use crate::words::WordSplitter;
use crate::writings::{
    byte_level_means, lemma_byte_level_means, lemma_names, lemma_sentence_piece_means, names,
    sentence_piece_means,
};
use crate::Rank;

verus! {

/// How a model writes its tokens.
pub enum Writing {
    /// One character for each byte.
    ByteLevel,
    /// As they are.
    Plain,
    /// With a mark for each space.
    Marked(Seq<char>),
}

/// What is written stands for the bytes.
pub open spec fn means(writing: Writing, written: Seq<char>, bytes: Seq<u8>) -> bool {
    match writing {
        Writing::ByteLevel => byte_level_means(written, bytes),
        Writing::Plain => bytes == encode_utf8(written),
        Writing::Marked(mark) => sentence_piece_means(written, mark, bytes),
    }
}

/// The token stands for the bytes. With fallback to bytes, the name of a byte stands for that byte.
pub open spec fn token_means(
    writing: Writing,
    fallback: bool,
    token: Seq<char>,
    bytes: Seq<u8>,
) -> bool {
    if fallback && exists|byte: u8| #[trigger] names(token, byte) {
        bytes.len() == 1 && names(token, bytes[0])
    } else {
        means(writing, token, bytes)
    }
}

/// The two parts of the merge: its first two strings, or what stands before its first space and
/// what stands between that and the next one or the end.
pub open spec fn has_parts(merge: HuggingFaceMerge, left: Seq<char>, right: Seq<char>) -> bool {
    match merge {
        HuggingFaceMerge::Array(list) => {
            &&& list@.len() >= 2
            &&& list@[0]@ == left
            &&& list@[1]@ == right
        },
        HuggingFaceMerge::String(text) => {
            &&& !left.contains(' ')
            &&& !right.contains(' ')
            &&& {
                ||| text@ == left + seq![' '] + right
                ||| exists|rest: Seq<char>|
                    text@ == #[trigger] (left + seq![' '] + right + seq![' '] + rest)
            }
        },
    }
}

/// The merge has less than two parts.
pub open spec fn lacks_parts(merge: HuggingFaceMerge) -> bool {
    match merge {
        HuggingFaceMerge::Array(list) => list@.len() < 2,
        HuggingFaceMerge::String(text) => !text@.contains(' '),
    }
}

/// How many steps the pre-tokenizer has.
pub open spec fn step_count(pre_tokenizer: HuggingFacePreTokenizer) -> nat {
    match pre_tokenizer {
        HuggingFacePreTokenizer::Sequence { pretokenizers } => pretokenizers@.len(),
        HuggingFacePreTokenizer::Other => 0,
        _ => 1,
    }
}

/// The step splits at a regular expression.
pub open spec fn splits_at_regex(
    pre_tokenizer: HuggingFacePreTokenizer,
    i: int,
    pattern: Seq<char>,
) -> bool {
    match pre_tokenizer {
        HuggingFacePreTokenizer::Sequence { pretokenizers } => {
            &&& pretokenizers@[i] matches HuggingFaceSubPreTokenizer::Split {
                pattern: HuggingFacePattern::Regex(p),
            }
            &&& p@ == pattern
        },
        HuggingFacePreTokenizer::Split { pattern: HuggingFacePattern::Regex(p) } => p@ == pattern,
        _ => false,
    }
}

/// The step splits at a string.
pub open spec fn splits_at_string(
    pre_tokenizer: HuggingFacePreTokenizer,
    i: int,
    pattern: Seq<char>,
) -> bool {
    match pre_tokenizer {
        HuggingFacePreTokenizer::Sequence { pretokenizers } => {
            &&& pretokenizers@[i] matches HuggingFaceSubPreTokenizer::Split {
                pattern: HuggingFacePattern::String(p),
            }
            &&& p@ == pattern
        },
        HuggingFacePreTokenizer::Split { pattern: HuggingFacePattern::String(p) } => p@ == pattern,
        _ => false,
    }
}

/// The step goes over to byte-level characters.
pub open spec fn is_byte_level(pre_tokenizer: HuggingFacePreTokenizer, i: int) -> bool {
    match pre_tokenizer {
        HuggingFacePreTokenizer::Sequence { pretokenizers } => pretokenizers@[i] is ByteLevel,
        HuggingFacePreTokenizer::ByteLevel => true,
        _ => false,
    }
}

/// The mark that is given, or else U+2581.
pub open spec fn is_mark(replacement: Option<String>, mark: Seq<char>) -> bool {
    match replacement {
        Some(replacement) => replacement@ == mark,
        None => mark == seq!['\u{2581}'],
    }
}

/// The step is a metaspace with this mark, which puts a space before the text or not.
pub open spec fn is_metaspace(
    pre_tokenizer: HuggingFacePreTokenizer,
    i: int,
    mark: Seq<char>,
    prepends: bool,
) -> bool {
    match pre_tokenizer {
        HuggingFacePreTokenizer::Sequence { pretokenizers } => {
            &&& pretokenizers@[i] matches HuggingFaceSubPreTokenizer::Metaspace {
                replacement,
                prepend_scheme,
            }
            &&& is_mark(replacement, mark)
            &&& prepends == (prepend_scheme is Some)
        },
        HuggingFacePreTokenizer::Metaspace { replacement, prepend_scheme } => {
            &&& is_mark(replacement, mark)
            &&& prepends == (prepend_scheme is Some)
        },
        _ => false,
    }
}

/// The normalizer replaces nothing.
pub open spec fn replaces_nothing(normalizer: Option<HuggingFaceNormalizer>) -> bool {
    match normalizer {
        Some(HuggingFaceNormalizer::Sequence { normalizers }) => forall|i: int|
            0 <= i < normalizers@.len() ==> (#[trigger] normalizers@[i]) is Other,
        Some(HuggingFaceNormalizer::Replace { .. }) => false,
        _ => true,
    }
}

/// The normalizer replaces this by that, and nothing else.
pub open spec fn replaces_only(
    normalizer: Option<HuggingFaceNormalizer>,
    this: Seq<char>,
    that: Seq<char>,
) -> bool {
    match normalizer {
        Some(HuggingFaceNormalizer::Sequence { normalizers }) => exists|i: int|
            {
                &&& 0 <= i < normalizers@.len()
                &&& (#[trigger] normalizers@[i]) matches HuggingFaceSubNormalizer::Replace {
                    pattern: HuggingFaceNormalizerPattern::String(pattern),
                    content,
                }
                &&& pattern@ == this
                &&& content@ == that
                &&& forall|j: int|
                    0 <= j < normalizers@.len() && j != i ==> (#[trigger] normalizers@[j]) is Other
            },
        Some(
            HuggingFaceNormalizer::Replace {
                pattern: HuggingFaceNormalizerPattern::String(pattern),
                content,
            },
        ) => pattern@ == this && content@ == that,
        _ => false,
    }
}

/// All steps split at regular expressions, but for a last one that is byte-level; these are the
/// regular expressions, in the order of the steps.
pub open spec fn regex_steps(
    pre_tokenizer: HuggingFacePreTokenizer,
    byte_level: bool,
    patterns: Seq<Seq<char>>,
) -> bool {
    let count = step_count(pre_tokenizer);
    &&& count > 0
    &&& byte_level == is_byte_level(pre_tokenizer, count - 1)
    &&& patterns.len() == (if byte_level { count - 1 } else { count as int })
    &&& forall|i: int|
        0 <= i < patterns.len() ==> splits_at_regex(pre_tokenizer, i, #[trigger] patterns[i])
}

/// The content asks for this: tokens are written so, text is cut at the patterns if there are any
/// and else before spaces, and a space is put before the text or not.
pub open spec fn asks_for(
    hf: HuggingFaceTokenizer,
    writing: Writing,
    patterns: Option<Seq<Seq<char>>>,
    prepends: bool,
) -> bool {
    let pre_tokenizer = hf.pre_tokenizer;
    match (writing, patterns) {
        (Writing::Marked(mark), None) => {
            &&& step_count(pre_tokenizer) == 1
            &&& {
                ||| {
                    &&& replaces_only(hf.normalizer, seq![' '], mark)
                    &&& splits_at_string(pre_tokenizer, 0, seq![' '])
                    &&& !prepends
                }
                ||| {
                    &&& replaces_nothing(hf.normalizer)
                    &&& is_metaspace(pre_tokenizer, 0, mark, prepends)
                }
            }
        },
        (Writing::ByteLevel, Some(list)) => {
            &&& replaces_nothing(hf.normalizer)
            &&& regex_steps(pre_tokenizer, true, list)
            &&& !prepends
        },
        (Writing::Plain, Some(list)) => {
            &&& replaces_nothing(hf.normalizer)
            &&& regex_steps(pre_tokenizer, false, list)
            &&& !prepends
        },
        _ => false,
    }
}

/// The list holds the tokens of the vocabulary, in the order of rank, where the `i`-th stands at
/// the `i`-th of the places `order`; of equal ranks the earlier place comes first.
pub open spec fn lists_vocab(
    model: HuggingFaceModel,
    writing: Writing,
    list: Seq<(Seq<u8>, Rank)>,
    order: Seq<int>,
) -> bool {
    &&& list.len() == order.len()
    &&& order.no_duplicates()
    &&& forall|i: int| 0 <= i < order.len() ==> 0 <= #[trigger] order[i] < model.vocab@.len()
    &&& forall|place: int| 0 <= place < model.vocab@.len() ==> #[trigger] order.contains(place)
    &&& forall|i: int, j: int|
        0 <= i < j < list.len() ==> {
            ||| (#[trigger] list[i]).1 < (#[trigger] list[j]).1
            ||| list[i].1 == list[j].1 && order[i] < order[j]
        }
    &&& forall|i: int|
        0 <= i < list.len() ==> {
            &&& (#[trigger] list[i]).1 == model.vocab@[order[i]].1
            &&& token_means(
                writing,
                model.byte_fallback == Some(true),
                model.vocab@[order[i]].0@,
                list[i].0,
            )
        }
}

/// The list holds the added tokens, in their order.
pub open spec fn lists_added(
    hf: HuggingFaceTokenizer,
    writing: Writing,
    list: Seq<(Seq<u8>, Rank)>,
) -> bool {
    &&& list.len() == hf.added_tokens@.len()
    &&& forall|i: int|
        0 <= i < list.len() ==> {
            &&& (#[trigger] list[i]).1 == hf.added_tokens@[i].id
            &&& token_means(
                writing,
                hf.model.byte_fallback == Some(true),
                hf.added_tokens@[i].content@,
                list[i].0,
            )
        }
}

/// The merge of these bytes is written so.
pub open spec fn merge_means(
    writing: Writing,
    merge: HuggingFaceMerge,
    pair: (Seq<u8>, Seq<u8>),
) -> bool {
    exists|left: Seq<char>, right: Seq<char>| #[trigger]
        has_parts(merge, left, right) && means(writing, left, pair.0) && means(
            writing,
            right,
            pair.1,
        )
}

/// The list holds the merges, in their order.
pub open spec fn lists_merges(
    merges: Seq<HuggingFaceMerge>,
    writing: Writing,
    list: Seq<(Seq<u8>, Seq<u8>)>,
) -> bool {
    &&& list.len() == merges.len()
    &&& forall|i: int|
        0 <= i < list.len() ==> merge_means(writing, merges[i], #[trigger] list[i])
}

/// The rules cut as the content asks: at each of the patterns, in their order, or before spaces.
pub open spec fn cuts_so(rules: Seq<SplitRule>, patterns: Option<Seq<Seq<char>>>) -> bool {
    match patterns {
        Some(list) => {
            &&& rules.len() == list.len()
            &&& forall|i: int|
                0 <= i < rules.len() ==> {
                    &&& #[trigger] rules[i] matches SplitRule::Pattern(pattern, _)
                    &&& pattern == list[i]
                }
        },
        None => rules == seq![SplitRule::Delimiter(32)],
    }
}

/// The lists from which the tokenizer of this content is made.
pub open spec fn loaded_from(
    hf: HuggingFaceTokenizer,
    lists: Lists,
    writing: Writing,
    patterns: Option<Seq<Seq<char>>>,
    prepends: bool,
) -> bool {
    &&& asks_for(hf, writing, patterns, prepends)
    &&& exists|order: Seq<int>| lists_vocab(hf.model, writing, lists.vocab, order)
    &&& lists_added(hf, writing, lists.specials)
    &&& lists.merges is None <==> hf.model.ignore_merges == Some(true)
    &&& lists.merges matches Some(merges) ==> lists_merges(hf.model.merges@, writing, merges)
    &&& lists.prefix == (if prepends {
        Some(seq![32u8])
    } else {
        None
    })
    &&& cuts_so(lists.rules, patterns)
    &&& lists.words == (if patterns is None {
        WordSplitter::Unicode
    } else {
        WordSplitter::Bytes
    })
}

/// The way in which a technique writes tokens.
pub open spec fn writing_of(technique: Technique) -> Writing {
    match technique {
        Technique::Regex(_, true) => Writing::ByteLevel,
        Technique::Regex(_, false) => Writing::Plain,
        Technique::Metaspace(mark, _) => Writing::Marked(mark),
    }
}

proof fn lemma_means(technique: Technique, part: Seq<char>)
    ensures
        means(writing_of(technique), part, part_bytes(technique, part)),
{
    match technique {
        Technique::Metaspace(mark, _) => {
            lemma_sentence_piece_means(part, mark);
        },
        Technique::Regex(_, byte_level) => {
            if byte_level {
                lemma_byte_level_means(part);
            }
        },
    }
}

proof fn lemma_token_means(technique: Technique, fallback: bool, token: Seq<char>)
    ensures
        token_means(
            writing_of(technique),
            fallback,
            token,
            token_bytes(technique, fallback, token),
        ),
{
    let bytes = token_bytes(technique, fallback, token);
    lemma_means(technique, token);
    if fallback && exists|byte: u8| #[trigger] names(token, byte) {
        let byte = choose|byte: u8| #[trigger] names(token, byte);
        lemma_names(token, byte);
        assert(bytes == seq![byte]);
    } else if fallback && fallback_byte(token) is Some {
        lemma_names(token, fallback_byte(token)->0);
    }
}

proof fn lemma_lists_vocab(technique: Technique, model: HuggingFaceModel)
    ensures
        exists|order: Seq<int>|
            lists_vocab(
                model,
                writing_of(technique),
                model_tokens(technique, model),
                order,
            ),
{
    let ranks = ranks_in(model.vocab@);
    let order = rank_order(ranks);
    let list = model_tokens(technique, model);
    lemma_rank_order_exists(ranks);
    assert forall|i: int, j: int|
        0 <= i < order.len() && 0 <= j < order.len() && i != j implies order[i] != order[j] by {
        if i < j {
            assert(before(ranks, order[i], order[j]));
        } else {
            assert(before(ranks, order[j], order[i]));
        }
    }
    assert forall|i: int| 0 <= i < list.len() implies {
        &&& (#[trigger] list[i]).1 == model.vocab@[order[i]].1
        &&& token_means(
            writing_of(technique),
            model.byte_fallback == Some(true),
            model.vocab@[order[i]].0@,
            list[i].0,
        )
    } by {
        lemma_token_means(technique, falls_back(model), model.vocab@[order[i]].0@);
    }
    assert forall|i: int, j: int| 0 <= i < j < list.len() implies {
        ||| (#[trigger] list[i]).1 < (#[trigger] list[j]).1
        ||| list[i].1 == list[j].1 && order[i] < order[j]
    } by {
        assert(before(ranks, order[i], order[j]));
        assert(0 <= order[i] < ranks.len() && 0 <= order[j] < ranks.len());
    }
    assert(lists_vocab(model, writing_of(technique), list, order));
}

proof fn lemma_has_parts(merge: HuggingFaceMerge)
    ensures
        merge_parts(merge).len() >= 2 ==> has_parts(
            merge,
            merge_parts(merge)[0],
            merge_parts(merge)[1],
        ),
        merge_parts(merge).len() < 2 <==> lacks_parts(merge),
{
    if let HuggingFaceMerge::String(text) = merge {
        let all = text@;
        if all.contains(' ') {
            all.index_of_first_ensures(' ');
            let at = all.index_of_first(' ')->0;
            let left = all.take(at);
            let tail = all.skip(at + 1);
            lemma_no_space_before(all, at);
            if tail.contains(' ') {
                tail.index_of_first_ensures(' ');
                let next = tail.index_of_first(' ')->0;
                let right = tail.take(next);
                let rest = tail.skip(next + 1);
                lemma_no_space_before(tail, next);
                assert(all =~= left + seq![' '] + right + seq![' '] + rest);
                assert(parts(tail)[0] == right);
                assert(parts(all)[1] == right);
            } else {
                assert(all =~= left + seq![' '] + tail);
                assert(parts(tail) =~= seq![tail]);
                assert(parts(all)[1] == tail);
            }
            assert(parts(tail).len() >= 1);
        } else {
            assert(parts(all).len() == 1);
        }
    }
}

proof fn lemma_no_space_before(text: Seq<char>, at: int)
    requires
        text.contains(' '),
        text.index_of_first(' ') == Some(at),
    ensures
        !text.take(at).contains(' '),
{
    text.index_of_first_ensures(' ');
    if text.take(at).contains(' ') {
        let k = text.take(at).index_of(' ');
        assert(text[k] == ' ');
    }
}

proof fn lemma_lists_merges(technique: Technique, merges: Seq<HuggingFaceMerge>)
    requires
        merges_valid(merges),
    ensures
        lists_merges(merges, writing_of(technique), merge_bytes(technique, merges)),
{
    let list = merge_bytes(technique, merges);
    assert forall|i: int| 0 <= i < list.len() implies merge_means(
        writing_of(technique),
        merges[i],
        #[trigger] list[i],
    ) by {
        assert(merge_parts(merges[i]).len() >= 2);
        let (left, right) = (merge_parts(merges[i])[0], merge_parts(merges[i])[1]);
        lemma_has_parts(merges[i]);
        lemma_means(technique, left);
        lemma_means(technique, right);
        assert(has_parts(merges[i], left, right));
    }
}

proof fn lemma_replacements_in(normalizers: Seq<HuggingFaceSubNormalizer>)
    ensures
        replacements_in(normalizers).len() == 0 <==> forall|i: int|
            0 <= i < normalizers.len() ==> (#[trigger] normalizers[i]) is Other,
        replacements_in(normalizers).len() == 1 ==> exists|i: int|
            {
                &&& 0 <= i < normalizers.len()
                &&& (#[trigger] normalizers[i]) matches HuggingFaceSubNormalizer::Replace {
                    pattern: HuggingFaceNormalizerPattern::String(pattern),
                    content,
                }
                &&& pattern@ == replacements_in(normalizers)[0].0
                &&& content@ == replacements_in(normalizers)[0].1
                &&& forall|j: int|
                    0 <= j < normalizers.len() && j != i ==> (#[trigger] normalizers[j]) is Other
            },
        replacements_in(normalizers).len() > 1 ==> exists|i: int, j: int|
            {
                &&& 0 <= i < j < normalizers.len()
                &&& !((#[trigger] normalizers[i]) is Other)
                &&& !((#[trigger] normalizers[j]) is Other)
            },
    decreases normalizers.len(),
{
    if normalizers.len() > 0 {
        let init = normalizers.drop_last();
        let n = normalizers.len() - 1;
        let before = replacements_in(init);
        lemma_replacements_in(init);
        assert(normalizers[n] == normalizers.last());
        assert forall|i: int| 0 <= i < n implies init[i] == #[trigger] normalizers[i] by {}
        if normalizers.last() is Other {
            if before.len() == 0 {
                assert forall|i: int| 0 <= i < normalizers.len() implies (
                #[trigger] normalizers[i]) is Other by {
                    if i < n {
                        assert(init[i] is Other);
                    }
                }
            } else {
                let i = choose|i: int| 0 <= i < init.len() && !((#[trigger] init[i]) is Other);
                assert(!(normalizers[i] is Other));
                if before.len() == 1 {
                    let i = choose|i: int|
                        {
                            &&& 0 <= i < init.len()
                            &&& (#[trigger] init[i]) matches HuggingFaceSubNormalizer::Replace {
                                pattern: HuggingFaceNormalizerPattern::String(pattern),
                                content,
                            }
                            &&& pattern@ == before[0].0
                            &&& content@ == before[0].1
                            &&& forall|j: int|
                                0 <= j < init.len() && j != i ==> (#[trigger] init[j]) is Other
                        };
                    assert(normalizers[i] == init[i]);
                    assert forall|j: int|
                        0 <= j < normalizers.len() && j != i implies (
                    #[trigger] normalizers[j]) is Other by {
                        if j < n {
                            assert(init[j] is Other);
                        }
                    }
                } else {
                    let (i, j) = choose|i: int, j: int|
                        {
                            &&& 0 <= i < j < init.len()
                            &&& !((#[trigger] init[i]) is Other)
                            &&& !((#[trigger] init[j]) is Other)
                        };
                    assert(!(normalizers[i] is Other) && !(normalizers[j] is Other));
                }
            }
        } else {
            assert(!(normalizers[n] is Other));
            if before.len() == 0 {
                assert forall|j: int| 0 <= j < normalizers.len() && j != n implies (
                #[trigger] normalizers[j]) is Other by {
                    assert(init[j] is Other);
                }
            } else {
                let i = choose|i: int| 0 <= i < init.len() && !((#[trigger] init[i]) is Other);
                assert(!(normalizers[i] is Other) && !(normalizers[n] is Other));
            }
        }
    }
}

/// What the normalizer replaces, by the number of its replacements.
proof fn lemma_replacements(normalizer: Option<HuggingFaceNormalizer>)
    ensures
        replacements(normalizer).len() == 0 <==> replaces_nothing(normalizer),
        replacements(normalizer).len() == 1 ==> replaces_only(
            normalizer,
            replacements(normalizer)[0].0,
            replacements(normalizer)[0].1,
        ),
        replacements(normalizer).len() > 1 ==> forall|this: Seq<char>, that: Seq<char>|
            !#[trigger] replaces_only(normalizer, this, that),
{
    if let Some(HuggingFaceNormalizer::Sequence { normalizers }) = normalizer {
        lemma_replacements_in(normalizers@);
        if replacements(normalizer).len() > 1 {
            let (i, j) = choose|i: int, j: int|
                {
                    &&& 0 <= i < j < normalizers@.len()
                    &&& !((#[trigger] normalizers@[i]) is Other)
                    &&& !((#[trigger] normalizers@[j]) is Other)
                };
            assert(!(normalizers@[i] is Other) && !(normalizers@[j] is Other));
        }
    }
}

spec fn mark_of(replacement: Option<Seq<char>>) -> Seq<char> {
    match replacement {
        Some(mark) => mark,
        None => seq!['\u{2581}'],
    }
}

/// The steps, one by one.
proof fn lemma_steps(pre_tokenizer: HuggingFacePreTokenizer)
    ensures
        steps(pre_tokenizer).len() == step_count(pre_tokenizer),
        forall|i: int|
            #![trigger steps(pre_tokenizer)[i]]
            0 <= i < step_count(pre_tokenizer) ==> {
                let step = steps(pre_tokenizer)[i];
                &&& step is ByteLevel <==> is_byte_level(pre_tokenizer, i)
                &&& step is SplitRegex ==> splits_at_regex(
                    pre_tokenizer,
                    i,
                    step->SplitRegex_0,
                )
                &&& forall|p: Seq<char>| #[trigger]
                    splits_at_regex(pre_tokenizer, i, p) ==> step == Step::SplitRegex(p)
                &&& forall|p: Seq<char>| #[trigger]
                    splits_at_string(pre_tokenizer, i, p) <==> step == Step::SplitString(p)
                &&& forall|m: Seq<char>, p: bool| #[trigger]
                    is_metaspace(pre_tokenizer, i, m, p) <==> step is Metaspace && p
                        == step->prepends && m == mark_of(step->replacement)
            },
{
    if let HuggingFacePreTokenizer::Sequence { pretokenizers } = pre_tokenizer {
        assert forall|i: int| 0 <= i < pretokenizers@.len() implies #[trigger] steps(
            pre_tokenizer,
        )[i] == pretokenizers@[i]@ by {}
    }
}

/// The technique of a content is what the content asks for.
proof fn lemma_technique(hf: HuggingFaceTokenizer)
    ensures
        technique_of(hf) matches Ok(technique) ==> match technique {
            Technique::Regex(patterns, _) => asks_for(
                hf,
                writing_of(technique),
                Some(patterns),
                false,
            ),
            Technique::Metaspace(_, prepends) => asks_for(
                hf,
                writing_of(technique),
                None,
                prepends,
            ),
        },
{
    let replaced = replacements(hf.normalizer);
    let all = steps(hf.pre_tokenizer);
    lemma_replacements(hf.normalizer);
    lemma_steps(hf.pre_tokenizer);
    if let Ok(technique) = technique_of(hf) {
        if replaced.len() == 1 {
            assert(all[0] == Step::SplitString(seq![' ']));
        } else {
            assert(replaced.len() == 0);
            match technique {
                Technique::Metaspace(mark, prepends) => {
                    assert(all[0] is Metaspace);
                },
                Technique::Regex(patterns, byte_level) => {
                    let splits = splits_in(all);
                    let last = all[all.len() - 1];
                    assert(all.last() == last);
                    assert forall|i: int| 0 <= i < patterns.len() implies splits_at_regex(
                        hf.pre_tokenizer,
                        i,
                        #[trigger] patterns[i],
                    ) by {
                        assert(splits[i] == all[i]);
                        assert(splits[i] is SplitRegex);
                    }
                    assert(regex_steps(hf.pre_tokenizer, byte_level, patterns));
                },
            }
        }
    }
}

/// A tokenizer that is loaded has all of the content and nothing else: each token of the vocabulary
/// with the bytes that it stands for, under its rank; each added token as a special token; each
/// merge with the bytes that its two parts stand for, in the order of the merges; and the rules,
/// the words and the prefix that the content asks for.
pub proof fn lemma_content_is_loaded(hf: HuggingFaceTokenizer, model: Model)
    requires
        may_load(hf, Ok(model)),
    ensures
        exists|lists: Lists, writing: Writing, patterns: Option<Seq<Seq<char>>>, prepends: bool|
            {
                &&& model == lists.model()
                &&& #[trigger] loaded_from(hf, lists, writing, patterns, prepends)
                &&& hf.loadable() && hf.model.merges@.len() <= Rank::MAX + 1 ==> lists.valid()
            },
{
    let technique = technique_of(hf)->Ok_0;
    let writing = writing_of(technique);
    let rules = model.rules.skip(1);
    lemma_technique(hf);
    lemma_lists_vocab(technique, hf.model);
    if uses_merges(hf.model) {
        lemma_lists_merges(technique, hf.model.merges@);
    }
    let specials = added_tokens(technique, hf);
    assert forall|i: int| 0 <= i < specials.len() implies {
        &&& (#[trigger] specials[i]).1 == hf.added_tokens@[i].id
        &&& token_means(
            writing,
            hf.model.byte_fallback == Some(true),
            hf.added_tokens@[i].content@,
            specials[i].0,
        )
    } by {
        lemma_token_means(technique, falls_back(hf.model), hf.added_tokens@[i].content@);
    }
    let (patterns, prepends) = match technique {
        Technique::Regex(patterns, _) => (Some(patterns), false),
        Technique::Metaspace(_, prepends) => (None, prepends),
    };
    let lists = Lists {
        vocab: model_tokens(technique, hf.model),
        specials,
        merges: if uses_merges(hf.model) {
            Some(merge_bytes(technique, hf.model.merges@))
        } else {
            None
        },
        prefix: if prepends {
            Some(seq![32u8])
        } else {
            None
        },
        rules,
        words: if patterns is None {
            WordSplitter::Unicode
        } else {
            WordSplitter::Bytes
        },
    };
    assert(technique_rules(technique, rules));
    assert(model == lists.model());
    if hf.loadable() && hf.model.merges@.len() <= Rank::MAX + 1 {
        let merges = merges_in(lists.merges);
        assert forall|i: int|
            #![trigger merges[i]]
            0 <= i < merges.len() && listed(
                lists.vocab,
                merges[i].0 + merges[i].1,
            ) implies merges[i].1.len() > 0 by {
            lemma_entries_hold_tokens(lists.vocab, merges[i].0 + merges[i].1);
        }
        assert(lists.valid());
    }
    assert(loaded_from(hf, lists, writing, patterns, prepends));
}

/// The tokens of a text, for a tokenizer that is loaded: those that the content gives it.
pub proof fn lemma_loaded_text_is_encoded(
    hf: HuggingFaceTokenizer,
    model: Model,
    text: Seq<u8>,
    result: Result<Seq<Rank>, Error>,
)
    requires
        hf.loadable(),
        hf.model.merges@.len() <= Rank::MAX + 1,
        may_load(hf, Ok(model)),
        may_encode(model, text, result),
        !(result matches Err(Error::RegexError(_))),
    ensures
        exists|lists: Lists, writing: Writing, patterns: Option<Seq<Seq<char>>>, prepends: bool|
            {
                &&& #[trigger] loaded_from(hf, lists, writing, patterns, prepends)
                &&& match result {
                    Ok(ranks) => lists.text_has(text, ranks),
                    Err(error) => error matches Error::NoValidToken(shown) && lists.text_lacks(
                        text,
                        shown@,
                    ),
                }
            },
{
    lemma_content_is_loaded(hf, model);
    let (lists, writing, patterns, prepends) = choose|
        lists: Lists,
        writing: Writing,
        patterns: Option<Seq<Seq<char>>>,
        prepends: bool,
    |
        {
            &&& model == lists.model()
            &&& #[trigger] loaded_from(hf, lists, writing, patterns, prepends)
            &&& hf.loadable() && hf.model.merges@.len() <= Rank::MAX + 1 ==> lists.valid()
        };
    lemma_text_is_encoded(lists, text, result);
    assert(loaded_from(hf, lists, writing, patterns, prepends));
}

/// What is wrong with a content that is refused with this error.
pub open spec fn wrong_with(hf: HuggingFaceTokenizer, error: Error) -> bool {
    let pre_tokenizer = hf.pre_tokenizer;
    let count = step_count(pre_tokenizer);
    let one_replacement = exists|this: Seq<char>, that: Seq<char>| #[trigger]
        replaces_only(hf.normalizer, this, that);
    match error {
        Error::UnsupportedNormalizerPretokenizer => {
            &&& one_replacement
            &&& count == 1
            &&& forall|mark: Seq<char>| #[trigger]
                replaces_only(hf.normalizer, seq![' '], mark) ==> !splits_at_string(
                    pre_tokenizer,
                    0,
                    seq![' '],
                )
        },
        Error::MissingNormalizerPretokenizer => {
            &&& !replaces_nothing(hf.normalizer) || count == 0
            &&& !(one_replacement && count == 1)
        },
        Error::UnexpectedNonRegexSplitter => {
            &&& replaces_nothing(hf.normalizer)
            &&& exists|i: int| #[trigger] strays(pre_tokenizer, i)
            &&& count == 1 ==> forall|mark: Seq<char>, prepends: bool|
                !#[trigger] is_metaspace(pre_tokenizer, 0, mark, prepends)
        },
        Error::RegexError(_) => exists|writing: Writing, patterns: Seq<Seq<char>>, i: int|
            {
                &&& #[trigger] asks_for(hf, writing, Some(patterns), false)
                &&& 0 <= i < patterns.len()
                &&& !regex_compiles(#[trigger] patterns[i])
            },
        Error::InvalidModelFormat => {
            &&& hf.model.ignore_merges != Some(true)
            &&& exists|i: int|
                0 <= i < hf.model.merges@.len() && lacks_parts(#[trigger] hf.model.merges@[i])
        },
        Error::AhoCorasickError(_) => exists|writing: Writing, list: Seq<(Seq<u8>, Rank)>|
            {
                &&& #[trigger] lists_added(hf, writing, list)
                &&& !automaton_fits(Seq::new(list.len(), |i: int| list[i].0))
            },
        _ => false,
    }
}

/// The step is neither a split at a regular expression nor a last one that is byte-level.
pub open spec fn strays(pre_tokenizer: HuggingFacePreTokenizer, i: int) -> bool {
    &&& 0 <= i < step_count(pre_tokenizer)
    &&& forall|pattern: Seq<char>| !#[trigger] splits_at_regex(pre_tokenizer, i, pattern)
    &&& !(i == step_count(pre_tokenizer) - 1 && is_byte_level(pre_tokenizer, i))
}

/// A replacement that is the only one is the first of the list.
proof fn lemma_only_replacement(
    normalizer: Option<HuggingFaceNormalizer>,
    this: Seq<char>,
    that: Seq<char>,
)
    requires
        replaces_only(normalizer, this, that),
    ensures
        replacements(normalizer).len() == 1,
        replacements(normalizer)[0] == (this, that),
{
    lemma_replacements(normalizer);
    if let Some(HuggingFaceNormalizer::Sequence { normalizers }) = normalizer {
        let i = choose|i: int|
            {
                &&& 0 <= i < normalizers@.len()
                &&& (#[trigger] normalizers@[i]) matches HuggingFaceSubNormalizer::Replace {
                    pattern: HuggingFaceNormalizerPattern::String(pattern),
                    content,
                }
                &&& pattern@ == this
                &&& content@ == that
                &&& forall|j: int|
                    0 <= j < normalizers@.len() && j != i ==> (#[trigger] normalizers@[j]) is Other
            };
        assert(!(normalizers@[i] is Other));
        assert(replacements(normalizer).len() != 0);
        let (a, b) = replacements(normalizer)[0];
        assert(replaces_only(normalizer, a, b));
        let k = choose|k: int|
            {
                &&& 0 <= k < normalizers@.len()
                &&& (#[trigger] normalizers@[k]) matches HuggingFaceSubNormalizer::Replace {
                    pattern: HuggingFaceNormalizerPattern::String(pattern),
                    content,
                }
                &&& pattern@ == a
                &&& content@ == b
                &&& forall|j: int|
                    0 <= j < normalizers@.len() && j != k ==> (#[trigger] normalizers@[j]) is Other
            };
        assert(!(normalizers@[k] is Other));
        assert(i == k);
    }
}

/// A content that is refused has that wrong with it which the error says. Merges are read after all
/// patterns have compiled, and the special tokens come last.
pub proof fn lemma_content_is_refused(hf: HuggingFaceTokenizer, error: Error)
    requires
        may_load(hf, Err(error)),
    ensures
        wrong_with(hf, error),
        error is InvalidModelFormat || error is AhoCorasickError ==> !exists|cause: Error|
            cause is RegexError && #[trigger] wrong_with(hf, cause),
        error is AhoCorasickError ==> !wrong_with(hf, Error::InvalidModelFormat),
{
    let replaced = replacements(hf.normalizer);
    let all = steps(hf.pre_tokenizer);
    lemma_replacements(hf.normalizer);
    lemma_steps(hf.pre_tokenizer);
    lemma_technique(hf);
    assert forall|this: Seq<char>, that: Seq<char>| #[trigger]
        replaces_only(hf.normalizer, this, that) implies replaced.len() == 1 && replaced[0] == (
        this,
        that,
    ) by {
        lemma_only_replacement(hf.normalizer, this, that);
    }
    match technique_of(hf) {
        Err(refusal) => match refusal {
            Refusal::Unsupported => {
                assert(replaces_only(hf.normalizer, replaced[0].0, replaced[0].1));
                assert(splits_at_string(hf.pre_tokenizer, 0, seq![' ']) <==> all[0]
                    == Step::SplitString(seq![' ']));
            },
            Refusal::Missing => {},
            Refusal::NonRegex => {
                let splits = splits_in(all);
                let i = choose|i: int|
                    0 <= i < splits.len() && !((#[trigger] splits[i]) is SplitRegex);
                assert(splits[i] == all[i]);
                assert(all.last() == all[all.len() - 1]);
                assert(strays(hf.pre_tokenizer, i));
                if step_count(hf.pre_tokenizer) == 1 {
                    assert(!(all[0] is Metaspace));
                }
            },
        },
        Ok(technique) => {
            let writing = writing_of(technique);
            let patterns = patterns_of(technique);
            if !all_compile(patterns) {
                let i = choose|i: int|
                    0 <= i < patterns.len() && !regex_compiles(#[trigger] patterns[i]);
                assert(asks_for(hf, writing, Some(patterns), false));
                assert(!regex_compiles(patterns[i]));
            } else {
                assert forall|cause: Error|
                    cause is RegexError implies !#[trigger] wrong_with(hf, cause) by {
                    if wrong_with(hf, cause) {
                        let (w, p, i) = choose|w: Writing, p: Seq<Seq<char>>, i: int|
                            {
                                &&& #[trigger] asks_for(hf, w, Some(p), false)
                                &&& 0 <= i < p.len()
                                &&& !regex_compiles(#[trigger] p[i])
                            };
                        lemma_same_patterns(hf, technique, w, p);
                    }
                }
                if uses_merges(hf.model) && !merges_valid(hf.model.merges@) {
                    let i = choose|i: int|
                        0 <= i < hf.model.merges@.len() && !(merge_parts(
                            #[trigger] hf.model.merges@[i],
                        ).len() >= 2);
                    lemma_has_parts(hf.model.merges@[i]);
                } else {
                    if wrong_with(hf, Error::InvalidModelFormat) {
                        let i = choose|i: int|
                            0 <= i < hf.model.merges@.len() && lacks_parts(
                                #[trigger] hf.model.merges@[i],
                            );
                        lemma_has_parts(hf.model.merges@[i]);
                        assert(merge_parts(hf.model.merges@[i]).len() >= 2);
                    }
                    let list = added_tokens(technique, hf);
                    assert(literals_of(list) =~= Seq::new(list.len(), |i: int| list[i].0));
                    assert forall|i: int| 0 <= i < list.len() implies {
                        &&& (#[trigger] list[i]).1 == hf.added_tokens@[i].id
                        &&& token_means(
                            writing,
                            hf.model.byte_fallback == Some(true),
                            hf.added_tokens@[i].content@,
                            list[i].0,
                        )
                    } by {
                        lemma_token_means(
                            technique,
                            falls_back(hf.model),
                            hf.added_tokens@[i].content@,
                        );
                    }
                    assert(lists_added(hf, writing, list));
                }
            }
        },
    }
}

/// A content asks for the patterns of its technique and for no others.
proof fn lemma_same_patterns(
    hf: HuggingFaceTokenizer,
    technique: Technique,
    writing: Writing,
    patterns: Seq<Seq<char>>,
)
    requires
        technique_of(hf) == Ok::<Technique, Refusal>(technique),
        asks_for(hf, writing, Some(patterns), false),
    ensures
        patterns_of(technique) == patterns,
{
    let all = steps(hf.pre_tokenizer);
    lemma_replacements(hf.normalizer);
    lemma_steps(hf.pre_tokenizer);
    assert(all.last() == all[all.len() - 1]);
    let splits = splits_in(all);
    if technique is Metaspace {
        assert(all[0] is Metaspace);
        if patterns.len() > 0 {
            assert(splits_at_regex(hf.pre_tokenizer, 0, patterns[0]));
        }
    } else {
        assert forall|i: int| 0 <= i < patterns.len() implies patterns_of(technique)[i]
            == patterns[i] by {
            assert(splits_at_regex(hf.pre_tokenizer, i, patterns[i]));
            assert(splits[i] == all[i]);
        }
        assert(patterns_of(technique) =~= patterns);
    }
}

/// The pattern has no `\K`.
pub open spec fn never_resets(pattern: Seq<char>) -> bool {
    forall|i: int, j: int|
        #![trigger pattern[i], pattern[j]]
        0 <= i && j == i + 1 && j < pattern.len() ==> !(pattern[i] == '\\' && pattern[j] == 'K')
}

/// A pattern without `\K` is steady.
pub proof fn lemma_never_resets(pattern: Seq<char>)
    requires
        never_resets(pattern),
    ensures
        steady(pattern),
{
    assert forall|i: int| !#[trigger] resets_at(pattern, i) by {
        if resets_at(pattern, i) {
            assert(pattern[i] == '\\' && pattern[i + 1] == 'K');
        }
    }
}

/// A pattern in which no parenthesis is followed by a question mark or an asterisk is steady: it
/// has no assertion.
pub proof fn lemma_never_asserts(pattern: Seq<char>)
    requires
        forall|i: int, j: int|
            #![trigger pattern[i], pattern[j]]
            0 <= i && j == i + 1 && j < pattern.len() && pattern[i] == '(' ==> pattern[j] != '?'
                && pattern[j] != '*',
    ensures
        steady(pattern),
{
    assert forall|i: int| !#[trigger] asserts_at(pattern, i) by {
        if asserts_at(pattern, i) {
            assert(pattern[i] == '(' && (pattern[i + 1] == '?' || pattern[i + 1] == '*'));
        }
    }
}

/// A pattern that calls a group in an assertion, and has a `\K` before which no backslash stands,
/// is not steady, whatever else it has.
pub proof fn lemma_resets_in_assertion(a: Seq<char>, b: Seq<char>, c: char, d: Seq<char>)
    requires
        c != '\\',
    ensures
        !steady(
            a + seq!['(', '?', '=', '(', '?', '1', ')', ')'] + b + seq![c, '\\', 'K'] + d,
        ),
        !steady(
            a + seq!['(', '?', '!', '(', '?', '1', ')', ')'] + b + seq![c, '\\', 'K'] + d,
        ),
        !steady(
            a + seq!['(', '?', '<', '=', '(', '?', '1', ')', ')'] + b + seq![c, '\\', 'K'] + d,
        ),
{
    let n = a.len() as int;
    let ahead = seq!['(', '?', '=', '(', '?', '1', ')', ')'];
    let not_ahead = seq!['(', '?', '!', '(', '?', '1', ')', ')'];
    let behind = seq!['(', '?', '<', '=', '(', '?', '1', ')', ')'];
    let reset = seq![c, '\\', 'K'];
    let x = a + ahead + b + reset + d;
    let y = a + not_ahead + b + reset + d;
    let z = a + behind + b + reset + d;
    let at = n + 8 + b.len() + 1;
    assert(asserts_at(x, n) && calls_at(x, n + 3) && resets_at(x, at));
    assert(asserts_at(y, n) && calls_at(y, n + 3) && resets_at(y, at));
    assert(asserts_at(z, n) && calls_at(z, n + 4) && resets_at(z, at + 1));
}

/// What is written stands for some bytes, if anything is written.
proof fn lemma_part_not_empty(technique: Technique, part: Seq<char>)
    requires
        part.len() > 0,
    ensures
        part_bytes(technique, part).len() > 0,
{
    assert(encode_utf8(part).len() > 0);
    if let Technique::Metaspace(mark, _) = technique {
        let plain = replaced(part, mark, seq![' ']);
        assert(plain.len() > 0);
        assert(encode_utf8(plain).len() > 0);
    }
}

/// A content can be loaded whose patterns have no `\K`, whose ranks are below the highest number of
/// 32 bits and whose merges have something in their second part.
pub proof fn lemma_content_is_loadable(hf: HuggingFaceTokenizer)
    requires
        forall|writing: Writing, patterns: Seq<Seq<char>>, i: int|
            #![trigger asks_for(hf, writing, Some(patterns), false), patterns[i]]
            asks_for(hf, writing, Some(patterns), false) && 0 <= i < patterns.len()
                ==> never_resets(patterns[i]),
        forall|i: int|
            0 <= i < hf.model.vocab@.len() ==> (#[trigger] hf.model.vocab@[i]).1 < Rank::MAX,
        forall|i: int|
            0 <= i < hf.added_tokens@.len() ==> (#[trigger] hf.added_tokens@[i]).id < Rank::MAX,
        forall|i: int, left: Seq<char>, right: Seq<char>|
            0 <= i < hf.model.merges@.len() && #[trigger] has_parts(
                hf.model.merges@[i],
                left,
                right,
            ) ==> right.len() > 0,
    ensures
        hf.loadable(),
{
    lemma_technique(hf);
    if let Ok(technique) = technique_of(hf) {
        let patterns = patterns_of(technique);
        let vocab = model_tokens(technique, hf.model);
        let merges = merge_bytes(technique, hf.model.merges@);
        assert forall|i: int| 0 <= i < patterns.len() implies steady(#[trigger] patterns[i]) by {
            assert(asks_for(hf, writing_of(technique), Some(patterns), false));
            lemma_never_resets(patterns[i]);
        }
        lemma_rank_order_exists(ranks_in(hf.model.vocab@));
        assert(ranks_fit(vocab)) by {
            let order = rank_order(ranks_in(hf.model.vocab@));
            assert forall|i: int| 0 <= i < vocab.len() implies (#[trigger] vocab[i]).1
                < usize::MAX by {
                assert(0 <= order[i] < hf.model.vocab@.len());
                assert(vocab[i].1 == hf.model.vocab@[order[i]].1);
            }
        }
        assert(ranks_fit(added_tokens(technique, hf))) by {
            let added = added_tokens(technique, hf);
            assert forall|i: int| 0 <= i < added.len() implies (#[trigger] added[i]).1
                < usize::MAX by {
                assert(added[i].1 == hf.added_tokens@[i].id);
            }
        }
        if merges_valid(hf.model.merges@) {
            assert forall|i: int|
                #![trigger merges[i]]
                0 <= i < merges.len() && vocab_entries(vocab).contains_key(
                    merges[i].0 + merges[i].1,
                ) implies merges[i].1.len() > 0 by {
                let merge = hf.model.merges@[i];
                lemma_has_parts(merge);
                assert(merge_parts(merge).len() >= 2);
                let (left, right) = (merge_parts(merge)[0], merge_parts(merge)[1]);
                assert(has_parts(hf.model.merges@[i], left, right));
                lemma_part_not_empty(technique, merge_parts(merge)[1]);
            }
        }
    }
}

} // verus!
