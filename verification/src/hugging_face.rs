//! Tokenizers from the content of a `tokenizer.json`.
use vstd::prelude::*;
use vstd::slice::slice_to_vec;
use vstd::utf8::encode_utf8;

use crate::encoder::{encoder_get, entries};
use crate::error::Error;
use crate::loaders::{
    all_compile, all_steady, are_in_range, are_steady, compile_patterns, lemma_patterns_steady,
    rules_search, strings,
};
use crate::order::{in_rank_order, order_by_rank, places, rank_order};
use crate::search::{automaton_fits, surely_fit};
use crate::splitters::{rules_of, SplitRule, Splitter};
use crate::text::{chars_of, first_two_parts, parts};
use crate::tokenizer::{assembled, bytes_of, literals_of, special_search, Model, Tokenizer};
use crate::transforms::{
    byte_level_bytes, fallback_byte, parse_fallback_byte, reverse_byte_level,
    reverse_sentence_piece, sentence_piece_bytes,
};
use crate::vocabulary::{
    fill_encoder, merges_grow, merges_of, ranks_fit, tokens_of, vocab_entries, Token,
};
use crate::words::WordSplitter;
use crate::Rank;

verus! {

pub struct HuggingFaceTokenizer {
    pub added_tokens: Vec<HuggingFaceAddedToken>,
    pub normalizer: Option<HuggingFaceNormalizer>,
    pub pre_tokenizer: HuggingFacePreTokenizer,
    pub model: HuggingFaceModel,
}

pub enum HuggingFaceNormalizer {
    Sequence { normalizers: Vec<HuggingFaceSubNormalizer> },
    Replace { pattern: HuggingFaceNormalizerPattern, content: String },
    Other,
}

pub enum HuggingFaceSubNormalizer {
    Replace { pattern: HuggingFaceNormalizerPattern, content: String },
    Other,
}

pub enum HuggingFaceNormalizerPattern {
    String(String),
}

pub enum HuggingFacePreTokenizer {
    Sequence { pretokenizers: Vec<HuggingFaceSubPreTokenizer> },
    Split { pattern: HuggingFacePattern },
    Metaspace { replacement: Option<String>, prepend_scheme: Option<String> },
    ByteLevel,
    Other,
}

pub enum HuggingFaceSubPreTokenizer {
    Split { pattern: HuggingFacePattern },
    Metaspace { replacement: Option<String>, prepend_scheme: Option<String> },
    ByteLevel,
    Other,
}

pub enum HuggingFacePattern {
    Regex(String),
    String(String),
}

pub struct HuggingFaceAddedToken {
    pub id: Rank,
    pub content: String,
    pub special: bool,
}

pub struct HuggingFaceModel {
    pub byte_fallback: Option<bool>,
    pub ignore_merges: Option<bool>,
    /// The tokens and their ranks, in any order.
    pub vocab: Vec<(String, Rank)>,
    pub merges: Vec<HuggingFaceMerge>,
}

pub enum HuggingFaceMerge {
    /// The two parts, with a space between them.
    String(String),
    Array(Vec<String>),
}

/// What a normalizer replaces, and by what.
pub open spec fn replacements_in(normalizers: Seq<HuggingFaceSubNormalizer>) -> Seq<
    (Seq<char>, Seq<char>),
>
    decreases normalizers.len(),
{
    if normalizers.len() == 0 {
        Seq::empty()
    } else {
        let before = replacements_in(normalizers.drop_last());
        match normalizers.last() {
            HuggingFaceSubNormalizer::Replace {
                pattern: HuggingFaceNormalizerPattern::String(pattern),
                content,
            } => before.push((pattern@, content@)),
            HuggingFaceSubNormalizer::Other => before,
        }
    }
}

pub open spec fn replacements(normalizer: Option<HuggingFaceNormalizer>) -> Seq<
    (Seq<char>, Seq<char>),
> {
    match normalizer {
        Some(HuggingFaceNormalizer::Sequence { normalizers }) => replacements_in(normalizers@),
        Some(
            HuggingFaceNormalizer::Replace {
                pattern: HuggingFaceNormalizerPattern::String(pattern),
                content,
            },
        ) => seq![(pattern@, content@)],
        _ => Seq::empty(),
    }
}

/// What one pre-tokenizer does.
pub enum Step {
    SplitRegex(Seq<char>),
    SplitString(Seq<char>),
    Metaspace { replacement: Option<Seq<char>>, prepends: bool },
    ByteLevel,
    Other,
}

pub open spec fn split_step(pattern: HuggingFacePattern) -> Step {
    match pattern {
        HuggingFacePattern::Regex(pattern) => Step::SplitRegex(pattern@),
        HuggingFacePattern::String(pattern) => Step::SplitString(pattern@),
    }
}

pub open spec fn metaspace_step(
    replacement: Option<String>,
    prepend_scheme: Option<String>,
) -> Step {
    Step::Metaspace {
        replacement: match replacement {
            Some(replacement) => Some(replacement@),
            None => None,
        },
        prepends: prepend_scheme is Some,
    }
}

impl View for HuggingFaceSubPreTokenizer {
    type V = Step;

    open spec fn view(&self) -> Step {
        match *self {
            HuggingFaceSubPreTokenizer::Split { pattern } => split_step(pattern),
            HuggingFaceSubPreTokenizer::Metaspace {
                replacement,
                prepend_scheme,
            } => metaspace_step(replacement, prepend_scheme),
            HuggingFaceSubPreTokenizer::ByteLevel => Step::ByteLevel,
            HuggingFaceSubPreTokenizer::Other => Step::Other,
        }
    }
}

pub open spec fn steps_of(pretokenizers: Seq<HuggingFaceSubPreTokenizer>) -> Seq<Step> {
    pretokenizers.map_values(|step: HuggingFaceSubPreTokenizer| step@)
}

pub open spec fn steps(pre_tokenizer: HuggingFacePreTokenizer) -> Seq<Step> {
    match pre_tokenizer {
        HuggingFacePreTokenizer::Sequence { pretokenizers } => steps_of(
            pretokenizers@,
        ),
        HuggingFacePreTokenizer::Split { pattern } => seq![split_step(pattern)],
        HuggingFacePreTokenizer::Metaspace { replacement, prepend_scheme } => seq![
            metaspace_step(replacement, prepend_scheme),
        ],
        HuggingFacePreTokenizer::ByteLevel => seq![Step::ByteLevel],
        HuggingFacePreTokenizer::Other => Seq::empty(),
    }
}

/// How a model cuts text, and how it writes tokens.
pub enum SplitTechnique {
    /// Text is cut at the patterns. Tokens are written in byte-level characters, or as they are.
    Regex(Vec<String>, bool),
    /// Text is cut before spaces, for which tokens have this replacement. A space is put before
    /// the text, or not.
    Metaspace(String, bool),
}

/// The mathematical content of a [`SplitTechnique`].
#[verifier::ext_equal]
pub enum Technique {
    Regex(Seq<Seq<char>>, bool),
    Metaspace(Seq<char>, bool),
}

impl View for SplitTechnique {
    type V = Technique;

    open spec fn view(&self) -> Technique {
        match self {
            SplitTechnique::Regex(patterns, byte_level) => Technique::Regex(
                strings(patterns@),
                *byte_level,
            ),
            SplitTechnique::Metaspace(replacement, prepends) => Technique::Metaspace(
                replacement@,
                *prepends,
            ),
        }
    }
}

/// Why there is no technique.
pub enum Refusal {
    /// A replacement and a pre-tokenizer that do not go together.
    Unsupported,
    /// A pre-tokenizer that does not split at a regular expression, among several.
    NonRegex,
    /// No pre-tokenizer, or too many normalizers.
    Missing,
}

pub open spec fn is_refusal(error: Error, refusal: Refusal) -> bool {
    match refusal {
        Refusal::Unsupported => error is UnsupportedNormalizerPretokenizer,
        Refusal::NonRegex => error is UnexpectedNonRegexSplitter,
        Refusal::Missing => error is MissingNormalizerPretokenizer,
    }
}

/// The steps but for a byte-level one at the end.
pub open spec fn splits_in(steps: Seq<Step>) -> Seq<Step> {
    if steps.last() is ByteLevel {
        steps.drop_last()
    } else {
        steps
    }
}

pub open spec fn all_regex(steps: Seq<Step>) -> bool {
    forall|i: int| 0 <= i < steps.len() ==> (#[trigger] steps[i]) is SplitRegex
}

/// The technique of a model with these replacements and steps. A space that is both replaced and
/// split at is a metaspace, as is the step of that name. Else all steps split at regular
/// expressions, but for a last one that may be byte-level.
pub open spec fn technique(replacements: Seq<(Seq<char>, Seq<char>)>, steps: Seq<Step>) -> Result<
    Technique,
    Refusal,
> {
    if replacements.len() == 1 && steps.len() == 1 {
        if steps[0] == Step::SplitString(seq![' ']) && replacements[0].0 == seq![' '] {
            Ok(Technique::Metaspace(replacements[0].1, false))
        } else {
            Err(Refusal::Unsupported)
        }
    } else if replacements.len() > 0 || steps.len() == 0 {
        Err(Refusal::Missing)
    } else if steps.len() == 1 && steps[0] is Metaspace {
        Ok(
            Technique::Metaspace(
                match steps[0]->replacement {
                    Some(replacement) => replacement,
                    None => seq!['\u{2581}'],
                },
                steps[0]->prepends,
            ),
        )
    } else {
        if all_regex(splits_in(steps)) {
            Ok(
                Technique::Regex(
                    splits_in(steps).map_values(|step: Step| step->SplitRegex_0),
                    steps.last() is ByteLevel,
                ),
            )
        } else {
            Err(Refusal::NonRegex)
        }
    }
}

pub open spec fn str_pairs(pairs: Seq<(&str, &str)>) -> Seq<(Seq<char>, Seq<char>)> {
    pairs.map_values(|pair: (&str, &str)| (pair.0@, pair.1@))
}

fn list_replacements(normalizer: &Option<HuggingFaceNormalizer>) -> (list: Vec<(&str, &str)>)
    ensures
        str_pairs(list@) == replacements(*normalizer),
{
    let mut list: Vec<(&str, &str)> = Vec::new();
    match normalizer {
        Some(HuggingFaceNormalizer::Sequence { normalizers }) => {
            let mut i: usize = 0;
            assert(normalizers@.take(0) =~= Seq::empty());
            assert(str_pairs(list@) =~= Seq::empty());
            while i < normalizers.len()
                invariant
                    i <= normalizers@.len(),
                    str_pairs(list@) == replacements_in(normalizers@.take(i as int)),
                decreases normalizers@.len() - i,
            {
                let ghost before = str_pairs(list@);
                assert(normalizers@.take(i + 1).drop_last() =~= normalizers@.take(i as int));
                match &normalizers[i] {
                    HuggingFaceSubNormalizer::Replace {
                        pattern: HuggingFaceNormalizerPattern::String(pattern),
                        content,
                    } => {
                        list.push((pattern.as_str(), content.as_str()));
                        assert(str_pairs(list@) =~= before.push((pattern@, content@)));
                    },
                    HuggingFaceSubNormalizer::Other => {},
                }
                i = i + 1;
            }
            assert(normalizers@.take(normalizers@.len() as int) =~= normalizers@);
        },
        Some(
            HuggingFaceNormalizer::Replace {
                pattern: HuggingFaceNormalizerPattern::String(pattern),
                content,
            },
        ) => {
            list.push((pattern.as_str(), content.as_str()));
            assert(str_pairs(list@) =~= seq![(pattern@, content@)]);
        },
        _ => {
            assert(str_pairs(list@) =~= Seq::empty());
        },
    }
    list
}

fn is_space(text: &str) -> (answer: bool)
    ensures
        answer == (text@ == seq![' ']),
{
    let chars = chars_of(text);
    let answer: bool = chars.len() == 1 && chars[0] == ' ';
    assert(answer ==> chars@ =~= seq![' ']);
    answer
}

/// What a step splits at, if that is a regular expression.
fn regex_of(step: &HuggingFaceSubPreTokenizer) -> (pattern: Option<&String>)
    ensures
        match step@ {
            Step::SplitRegex(text) => pattern matches Some(p) && p@ == text,
            _ => pattern is None,
        },
{
    match step {
        HuggingFaceSubPreTokenizer::Split { pattern: HuggingFacePattern::Regex(pattern) } => Some(
            pattern,
        ),
        _ => None,
    }
}

fn choose_technique(
    replaced: &Vec<(&str, &str)>,
    steps: &[HuggingFaceSubPreTokenizer],
) -> (result: Result<SplitTechnique, Error>)
    ensures
        match technique(str_pairs(replaced@), steps_of(steps@)) {
            Ok(technique) => result matches Ok(t) && t@ == technique,
            Err(refusal) => result matches Err(error) && is_refusal(error, refusal),
        },
{
    let ghost pairs = str_pairs(replaced@);
    let ghost all = steps_of(steps@);
    if replaced.len() == 1 && steps.len() == 1 {
        let (pattern, content) = replaced[0];
        assert(pairs[0] == (pattern@, content@));
        assert(all[0] == steps@[0]@);
        return match &steps[0] {
            HuggingFaceSubPreTokenizer::Split {
                pattern: HuggingFacePattern::String(split_pattern),
            } if is_space(pattern) && is_space(split_pattern.as_str()) => Ok(
                SplitTechnique::Metaspace(content.to_string(), false),
            ),
            _ => Err(Error::UnsupportedNormalizerPretokenizer),
        };
    }
    if replaced.len() > 0 || steps.len() == 0 {
        return Err(Error::MissingNormalizerPretokenizer);
    }
    if steps.len() == 1 {
        assert(all[0] == steps@[0]@);
        if let HuggingFaceSubPreTokenizer::Metaspace { replacement, prepend_scheme } = &steps[0] {
            let replacement: String = match replacement {
                Some(replacement) => replacement.clone(),
                None => {
                    proof {
                        reveal_strlit("\u{2581}");
                        assert("\u{2581}"@ =~= seq!['\u{2581}']);
                    }
                    "\u{2581}".to_string()
                },
            };
            return Ok(SplitTechnique::Metaspace(replacement, prepend_scheme.is_some()));
        }
    }
    let byte_level: bool = match &steps[steps.len() - 1] {
        HuggingFaceSubPreTokenizer::ByteLevel => true,
        _ => false,
    };
    assert(all.last() == steps@[steps@.len() - 1]@);
    let count: usize = if byte_level {
        steps.len() - 1
    } else {
        steps.len()
    };
    let ghost splits = splits_in(all);
    let mut patterns: Vec<String> = Vec::with_capacity(count);
    let mut i: usize = 0;
    while i < count
        invariant
            i <= count <= steps@.len(),
            splits.len() == count,
            pairs == str_pairs(replaced@),
            all == steps_of(steps@),
            !all_regex(splits) ==> technique(pairs, all) == Err::<Technique, Refusal>(
                Refusal::NonRegex,
            ),
            patterns@.len() == i,
            forall|k: int| 0 <= k < count ==> #[trigger] splits[k] == steps@[k]@,
            forall|k: int|
                0 <= k < i ==> (#[trigger] splits[k]) is SplitRegex && patterns@[k]@
                    == splits[k]->SplitRegex_0,
        decreases count - i,
    {
        assert(splits[i as int] == steps@[i as int]@);
        match regex_of(&steps[i]) {
            Some(pattern) => patterns.push(pattern.clone()),
            None => {
                assert(!(splits[i as int] is SplitRegex));
                return Err(Error::UnexpectedNonRegexSplitter);
            },
        }
        i = i + 1;
    }
    assert(strings(patterns@) =~= splits.map_values(|step: Step| step->SplitRegex_0));
    Ok(SplitTechnique::Regex(patterns, byte_level))
}

/// What a part of a merge stands for.
pub open spec fn part_bytes(technique: Technique, part: Seq<char>) -> Seq<u8> {
    match technique {
        Technique::Metaspace(replacement, _) => sentence_piece_bytes(part, replacement),
        Technique::Regex(_, true) => byte_level_bytes(part),
        Technique::Regex(_, false) => encode_utf8(part),
    }
}

/// What a token stands for. Where single bytes have tokens of their own, the name of a byte stands
/// for that byte.
pub open spec fn token_bytes(technique: Technique, byte_fallback: bool, token: Seq<char>) -> Seq<
    u8,
> {
    match fallback_byte(token) {
        Some(byte) if byte_fallback => seq![byte],
        _ => part_bytes(technique, token),
    }
}

fn transform_merge(technique: &SplitTechnique, part: &str) -> (bytes: Vec<u8>)
    ensures
        bytes@ == part_bytes(technique@, part@),
{
    match technique {
        SplitTechnique::Metaspace(replacement, _) => reverse_sentence_piece(
            part,
            replacement.as_str(),
        ),
        SplitTechnique::Regex(_, byte_level) => if *byte_level {
            reverse_byte_level(part)
        } else {
            slice_to_vec(part.as_bytes())
        },
    }
}

fn transform_token(
    technique: &SplitTechnique,
    byte_fallback: bool,
    token: &str,
    rank: Rank,
) -> (transformed: Token)
    ensures
        transformed@ == (token_bytes(technique@, byte_fallback, token@), rank),
{
    if byte_fallback {
        if let Some(byte) = parse_fallback_byte(token) {
            let bytes: Vec<u8> = vec![byte];
            assert(bytes@ =~= seq![byte]);
            return Token { bytes, rank };
        }
    }
    Token { bytes: transform_merge(technique, token), rank }
}

pub open spec fn falls_back(model: HuggingFaceModel) -> bool {
    model.byte_fallback == Some(true)
}

pub open spec fn uses_merges(model: HuggingFaceModel) -> bool {
    model.ignore_merges != Some(true)
}

pub open spec fn ranks_in(vocab: Seq<(String, Rank)>) -> Seq<Rank> {
    vocab.map_values(|entry: (String, Rank)| entry.1)
}

/// The tokens of the vocabulary, in the order of rank.
pub open spec fn model_tokens(technique: Technique, model: HuggingFaceModel) -> Seq<
    (Seq<u8>, Rank),
> {
    rank_order(ranks_in(model.vocab@)).map_values(
        |place: int|
            (
                token_bytes(technique, falls_back(model), model.vocab@[place].0@),
                model.vocab@[place].1,
            ),
    )
}

/// The added tokens, all of which count as special.
pub open spec fn added_tokens(technique: Technique, hf: HuggingFaceTokenizer) -> Seq<
    (Seq<u8>, Rank),
> {
    hf.added_tokens@.map_values(
        |token: HuggingFaceAddedToken|
            (token_bytes(technique, falls_back(hf.model), token.content@), token.id),
    )
}

pub open spec fn merge_parts(merge: HuggingFaceMerge) -> Seq<Seq<char>> {
    match merge {
        HuggingFaceMerge::String(merge) => parts(merge@),
        HuggingFaceMerge::Array(merge) => strings(merge@),
    }
}

/// Each merge has its two parts.
pub open spec fn merges_valid(merges: Seq<HuggingFaceMerge>) -> bool {
    forall|i: int| 0 <= i < merges.len() ==> merge_parts(#[trigger] merges[i]).len() >= 2
}

pub open spec fn merge_bytes(technique: Technique, merges: Seq<HuggingFaceMerge>) -> Seq<
    (Seq<u8>, Seq<u8>),
> {
    merges.map_values(
        |merge: HuggingFaceMerge|
            (
                part_bytes(technique, merge_parts(merge)[0]),
                part_bytes(technique, merge_parts(merge)[1]),
            ),
    )
}

/// The tokens of the vocabulary, transformed and in the order of rank.
fn list_vocab(technique: &SplitTechnique, model: &HuggingFaceModel) -> (vocab: Vec<Token>)
    ensures
        tokens_of(vocab@) == model_tokens(technique@, *model),
{
    let byte_fallback: bool = match model.byte_fallback {
        Some(byte_fallback) => byte_fallback,
        None => false,
    };
    let ghost ranks_spec = ranks_in(model.vocab@);
    let mut ranks: Vec<Rank> = Vec::with_capacity(model.vocab.len());
    let mut i: usize = 0;
    while i < model.vocab.len()
        invariant
            i <= model.vocab@.len(),
            ranks@.len() == i,
            forall|k: int| 0 <= k < i ==> #[trigger] ranks@[k] == model.vocab@[k].1,
        decreases model.vocab@.len() - i,
    {
        ranks.push(model.vocab[i].1);
        i = i + 1;
    }
    assert(ranks@ =~= ranks_spec);
    let order = order_by_rank(&ranks);
    let mut vocab: Vec<Token> = Vec::with_capacity(order.len());
    let mut j: usize = 0;
    while j < order.len()
        invariant
            j <= order@.len(),
            byte_fallback == falls_back(*model),
            places(order@) == rank_order(ranks_in(model.vocab@)),
            in_rank_order(ranks@, 0, model.vocab@.len() as int, places(order@)),
            vocab@.len() == j,
            forall|k: int|
                0 <= k < j ==> (#[trigger] vocab@[k])@ == model_tokens(technique@, *model)[k],
        decreases order@.len() - j,
    {
        assert(places(order@)[j as int] == order@[j as int]);
        let entry = &model.vocab[order[j]];
        vocab.push(transform_token(technique, byte_fallback, entry.0.as_str(), entry.1));
        j = j + 1;
    }
    assert(tokens_of(vocab@) =~= model_tokens(technique@, *model));
    vocab
}

fn list_added(technique: &SplitTechnique, hf: &HuggingFaceTokenizer) -> (tokens: Vec<Token>)
    ensures
        tokens_of(tokens@) == added_tokens(technique@, *hf),
{
    let byte_fallback: bool = match hf.model.byte_fallback {
        Some(byte_fallback) => byte_fallback,
        None => false,
    };
    let mut tokens: Vec<Token> = Vec::with_capacity(hf.added_tokens.len());
    let mut i: usize = 0;
    while i < hf.added_tokens.len()
        invariant
            i <= hf.added_tokens@.len(),
            byte_fallback == falls_back(hf.model),
            tokens@.len() == i,
            forall|k: int|
                0 <= k < i ==> (#[trigger] tokens@[k])@ == added_tokens(technique@, *hf)[k],
        decreases hf.added_tokens@.len() - i,
    {
        let token = &hf.added_tokens[i];
        tokens.push(transform_token(technique, byte_fallback, token.content.as_str(), token.id));
        i = i + 1;
    }
    assert(tokens_of(tokens@) =~= added_tokens(technique@, *hf));
    tokens
}

/// The two parts of a merge, if it has as many.
fn two_parts(merge: &HuggingFaceMerge) -> (two: Option<(&str, &str)>)
    ensures
        two is Some <==> merge_parts(*merge).len() >= 2,
        two matches Some((left, right)) ==> left@ == merge_parts(*merge)[0] && right@
            == merge_parts(*merge)[1],
{
    match merge {
        HuggingFaceMerge::String(merge) => first_two_parts(merge.as_str()),
        HuggingFaceMerge::Array(merge) => if merge.len() >= 2 {
            Some((merge[0].as_str(), merge[1].as_str()))
        } else {
            None
        },
    }
}

fn list_merges(technique: &SplitTechnique, merges: &Vec<HuggingFaceMerge>) -> (result: Result<
    Vec<(Vec<u8>, Vec<u8>)>,
    Error,
>)
    ensures
        match result {
            Ok(list) => merges_valid(merges@) && merges_of(list@) == merge_bytes(
                technique@,
                merges@,
            ),
            Err(error) => !merges_valid(merges@) && error is InvalidModelFormat,
        },
{
    let mut list: Vec<(Vec<u8>, Vec<u8>)> = Vec::with_capacity(merges.len());
    let mut i: usize = 0;
    while i < merges.len()
        invariant
            i <= merges@.len(),
            list@.len() == i,
            forall|k: int| 0 <= k < i ==> merge_parts(#[trigger] merges@[k]).len() >= 2,
            forall|k: int|
                0 <= k < i ==> ((#[trigger] list@[k]).0@, list@[k].1@) == merge_bytes(
                    technique@,
                    merges@,
                )[k],
        decreases merges@.len() - i,
    {
        match two_parts(&merges[i]) {
            Some((left, right)) => list.push(
                (transform_merge(technique, left), transform_merge(technique, right)),
            ),
            None => {
                return Err(Error::InvalidModelFormat);
            },
        }
        i = i + 1;
    }
    assert(merges_of(list@) =~= merge_bytes(technique@, merges@));
    Ok(list)
}

pub open spec fn technique_of(hf: HuggingFaceTokenizer) -> Result<Technique, Refusal> {
    technique(replacements(hf.normalizer), steps(hf.pre_tokenizer))
}

/// The patterns of the technique.
pub open spec fn patterns_of(technique: Technique) -> Seq<Seq<char>> {
    match technique {
        Technique::Regex(patterns, _) => patterns,
        Technique::Metaspace(_, _) => Seq::empty(),
    }
}

/// The rules by which the technique cuts text.
pub open spec fn technique_rules(technique: Technique, rules: Seq<SplitRule>) -> bool {
    match technique {
        Technique::Regex(patterns, _) => rules_search(rules, patterns),
        Technique::Metaspace(_, _) => rules == seq![SplitRule::Delimiter(32u8)],
    }
}

/// The tokenizer of this content, by the technique that it asks for and its rules.
pub open spec fn hugging_face_model(
    hf: HuggingFaceTokenizer,
    technique: Technique,
    rules: Seq<SplitRule>,
) -> Model {
    assembled(
        model_tokens(technique, hf.model),
        added_tokens(technique, hf),
        if uses_merges(hf.model) {
            Some(merge_bytes(technique, hf.model.merges@))
        } else {
            None
        },
        if technique matches Technique::Metaspace(_, true) {
            Some(seq![32u8])
        } else {
            None
        },
        rules,
        match technique {
            Technique::Regex(_, _) => WordSplitter::Bytes,
            Technique::Metaspace(_, _) => WordSplitter::Unicode,
        },
    )
}

/// The splitters of a technique, if its patterns compile.
fn technique_splitters(technique: &SplitTechnique) -> (result: Result<Vec<Splitter>, Error>)
    ensures
        match result {
            Ok(splitters) => {
                &&& all_compile(patterns_of(technique@))
                &&& technique_rules(technique@, rules_of(splitters@))
            },
            Err(error) => !all_compile(patterns_of(technique@)) && error is RegexError,
        },
{
    match technique {
        SplitTechnique::Regex(patterns, _) => compile_patterns(patterns),
        SplitTechnique::Metaspace(_, _) => {
            let splitters: Vec<Splitter> = vec![Splitter::Delimiter(32u8)];
            assert(rules_of(splitters@) =~= seq![SplitRule::Delimiter(32u8)]);
            Ok(splitters)
        },
    }
}

/// The steps of a pre-tokenizer that is not a sequence.
fn single_step(pre_tokenizer: &HuggingFacePreTokenizer) -> (list: Vec<HuggingFaceSubPreTokenizer>)
    requires
        !(pre_tokenizer is Sequence),
    ensures
        steps_of(list@) == steps(*pre_tokenizer),
{
    let mut list: Vec<HuggingFaceSubPreTokenizer> = Vec::new();
    match pre_tokenizer {
        HuggingFacePreTokenizer::Sequence { .. } => {},
        HuggingFacePreTokenizer::Split { pattern } => {
            let pattern = match pattern {
                HuggingFacePattern::Regex(pattern) => HuggingFacePattern::Regex(pattern.clone()),
                HuggingFacePattern::String(pattern) => HuggingFacePattern::String(pattern.clone()),
            };
            list.push(HuggingFaceSubPreTokenizer::Split { pattern });
        },
        HuggingFacePreTokenizer::Metaspace { replacement, prepend_scheme } => {
            list.push(
                HuggingFaceSubPreTokenizer::Metaspace {
                    replacement: replacement.clone(),
                    prepend_scheme: prepend_scheme.clone(),
                },
            );
        },
        HuggingFacePreTokenizer::ByteLevel => {
            list.push(HuggingFaceSubPreTokenizer::ByteLevel);
        },
        HuggingFacePreTokenizer::Other => {},
    }
    assert(steps_of(list@) =~= steps(*pre_tokenizer));
    list
}

/// The technique that this content asks for.
fn find_technique(hf: &HuggingFaceTokenizer) -> (result: Result<SplitTechnique, Error>)
    ensures
        match technique_of(*hf) {
            Ok(technique) => result matches Ok(t) && t@ == technique,
            Err(refusal) => result matches Err(error) && is_refusal(error, refusal),
        },
{
    let replaced = list_replacements(&hf.normalizer);
    match &hf.pre_tokenizer {
        HuggingFacePreTokenizer::Sequence { pretokenizers } => choose_technique(
            &replaced,
            pretokenizers.as_slice(),
        ),
        other => {
            let list = single_step(other);
            choose_technique(&replaced, list.as_slice())
        },
    }
}

/// No merge makes a token of the vocabulary by adding nothing.
fn do_merges_grow(vocab: &Vec<Token>, merges: &Vec<(Vec<u8>, Vec<u8>)>) -> (answer: bool)
    ensures
        answer == merges_grow(vocab_entries(tokens_of(vocab@)), merges_of(merges@)),
{
    let ghost table = vocab_entries(tokens_of(vocab@));
    let ghost all = merges_of(merges@);
    let encoder = fill_encoder(vocab);
    let mut i: usize = 0;
    while i < merges.len()
        invariant
            i <= merges@.len(),
            all == merges_of(merges@),
            table == vocab_entries(tokens_of(vocab@)),
            table == entries(encoder),
            forall|k: int|
                #![trigger all[k]]
                0 <= k < i && table.contains_key(all[k].0 + all[k].1) ==> all[k].1.len() > 0,
        decreases merges@.len() - i,
    {
        let (left, right) = &merges[i];
        assert(all[i as int] == (left@, right@));
        if right.len() == 0 {
            assert(all[i as int].0 + all[i as int].1 =~= left@);
            if encoder_get(&encoder, left.as_slice()).is_some() {
                return false;
            }
        }
        i = i + 1;
    }
    true
}

impl HuggingFaceTokenizer {
    /// If there is a technique, its patterns compile, the merges have their parts and the special
    /// tokens fit an automaton, then the patterns can be searched for in any text, the ranks can
    /// index a table, and no merge makes a token by adding nothing.
    pub open spec fn loadable(self) -> bool {
        technique_of(self) matches Ok(technique) ==> {
            all_compile(patterns_of(technique)) && (uses_merges(self.model) ==> merges_valid(
                self.model.merges@,
            )) && automaton_fits(literals_of(added_tokens(technique, self))) ==> {
                &&& all_steady(patterns_of(technique))
                &&& ranks_fit(model_tokens(technique, self.model))
                &&& ranks_fit(added_tokens(technique, self))
                &&& uses_merges(self.model) ==> merges_grow(
                    vocab_entries(model_tokens(technique, self.model)),
                    merge_bytes(technique, self.model.merges@),
                )
            }
        }
    }

    /// The content is [`loadable`](HuggingFaceTokenizer::loadable).
    pub fn is_loadable(&self) -> (answer: bool)
        ensures
            answer == self.loadable(),
    {
        let technique = match find_technique(self) {
            Ok(technique) => technique,
            Err(_) => {
                return true;
            },
        };
        let special_vocab = list_added(&technique, self);
        match (technique_splitters(&technique), special_search(&special_vocab)) {
            (Ok(_), Ok(_)) => {},
            _ => {
                return true;
            },
        }
        let vocab = list_vocab(&technique, &self.model);
        let ignore_merges: bool = match self.model.ignore_merges {
            Some(ignore_merges) => ignore_merges,
            None => false,
        };
        if !ignore_merges {
            match list_merges(&technique, &self.model.merges) {
                Ok(merges) => {
                    if !do_merges_grow(&vocab, &merges) {
                        return false;
                    }
                },
                Err(_) => {
                    return true;
                },
            }
        }
        let steady: bool = match &technique {
            SplitTechnique::Regex(patterns, _) => are_steady(patterns),
            SplitTechnique::Metaspace(_, _) => true,
        };
        steady && are_in_range(&vocab) && are_in_range(&special_vocab)
    }
}

/// What loading this content may answer: the error of what is wrong first, else the tokenizer.
/// On which engines its patterns run is up to the machine.
pub open spec fn may_load(hf: HuggingFaceTokenizer, result: Result<Model, Error>) -> bool {
    match technique_of(hf) {
        Err(refusal) => result matches Err(error) && is_refusal(error, refusal),
        Ok(technique) => {
            if !all_compile(patterns_of(technique)) {
                result matches Err(error) && error is RegexError
            } else if uses_merges(hf.model) && !merges_valid(hf.model.merges@) {
                result matches Err(error) && error is InvalidModelFormat
            } else if !automaton_fits(literals_of(added_tokens(technique, hf))) {
                &&& !surely_fit(literals_of(added_tokens(technique, hf)))
                &&& result matches Err(error)
                &&& error is AhoCorasickError
            } else {
                &&& result matches Ok(model)
                &&& technique_rules(technique, model.rules.skip(1))
                &&& model == hugging_face_model(hf, technique, model.rules.skip(1))
            }
        },
    }
}

impl Tokenizer {
    /// The tokenizer of the content of a `tokenizer.json`, or nothing where the content is not
    /// [`loadable`](HuggingFaceTokenizer::loadable).
    pub fn load_tokenizer_json(hf: &HuggingFaceTokenizer) -> (result: Option<
        Result<Tokenizer, Error>,
    >)
        ensures
            result is None <==> !hf.loadable(),
            result matches Some(Ok(tokenizer)) ==> may_load(*hf, Ok(tokenizer@)),
            result matches Some(Err(error)) ==> may_load(*hf, Err(error)),
    {
        if hf.is_loadable() {
            Some(Tokenizer::from_tokenizer_json(hf))
        } else {
            None
        }
    }

    /// The tokenizer of the content of a `tokenizer.json`.
    pub fn from_tokenizer_json(hf: &HuggingFaceTokenizer) -> (result: Result<Tokenizer, Error>)
        requires
            hf.loadable(),
        ensures
            result matches Ok(tokenizer) ==> may_load(*hf, Ok(tokenizer@)),
            result matches Err(error) ==> may_load(*hf, Err(error)),
    {
        let technique = match find_technique(hf) {
            Ok(technique) => technique,
            Err(error) => {
                return Err(error);
            },
        };
        let splitters = match technique_splitters(&technique) {
            Ok(splitters) => splitters,
            Err(error) => {
                return Err(error);
            },
        };
        let (word_splitter, prefix): (WordSplitter, Option<Vec<u8>>) = match &technique {
            SplitTechnique::Regex(_, _) => (WordSplitter::Bytes, None),
            SplitTechnique::Metaspace(_, prepends) => (
                WordSplitter::Unicode,
                if *prepends {
                    Some(vec![32u8])
                } else {
                    None
                },
            ),
        };
        let special_vocab = list_added(&technique, hf);
        let vocab = list_vocab(&technique, &hf.model);
        let ignore_merges: bool = match hf.model.ignore_merges {
            Some(ignore_merges) => ignore_merges,
            None => false,
        };
        let merges: Option<Vec<(Vec<u8>, Vec<u8>)>> = if ignore_merges {
            None
        } else {
            match list_merges(&technique, &hf.model.merges) {
                Ok(merges) => Some(merges),
                Err(error) => {
                    return Err(error);
                },
            }
        };
        proof {
            if technique@ is Regex {
                if all_steady(patterns_of(technique@)) {
                    lemma_patterns_steady(splitters@, patterns_of(technique@));
                }
            } else {
                assert(rules_of(splitters@).len() == splitters@.len());
                assert(rules_of(splitters@)[0] == splitters@[0]@);
            }
            if technique@ matches Technique::Metaspace(_, true) {
                assert(bytes_of(prefix)->0 =~= seq![32u8]);
            }
        }
        let ghost rules = rules_of(splitters@);
        let result = Tokenizer::from_vocab_and_splitters(
            vocab,
            special_vocab,
            merges,
            prefix,
            splitters,
            word_splitter,
        );
        assert(result matches Ok(tokenizer) ==> tokenizer@.rules.skip(1) =~= rules);
        result
    }
}

} // verus!
