//! Tokenizers from what model files hold.
use vstd::prelude::*;
use vstd::slice::slice_to_vec;
use vstd::utf8::encode_utf8;

use crate::error::Error;
use crate::search::{automaton_fits, is_steady, regex_compiles, steady, surely_fit};
use crate::splitters::{rule_steady, rules_of, SplitRule, Splitter};
use crate::text::{first_two_parts, parse_rank, parts, written_rank};
use crate::tokenizer::{assembled, literals_of, special_search, Model, Tokenizer};
use crate::transforms::{base64_token_bytes, decode_base64_tokens};
use crate::vocabulary::{ranks_fit, tokens_of, Token};
use crate::words::WordSplitter;
use crate::Rank;

verus! {

pub open spec fn strings(strings: Seq<String>) -> Seq<Seq<char>> {
    strings.map_values(|string: String| string@)
}

/// The rules cut at the matches of the patterns, in their order.
pub open spec fn rules_search(rules: Seq<SplitRule>, patterns: Seq<Seq<char>>) -> bool {
    &&& rules.len() == patterns.len()
    &&& forall|i: int|
        0 <= i < rules.len() ==> {
            &&& #[trigger] rules[i] matches SplitRule::Pattern(pattern, _)
            &&& pattern == patterns[i]
        }
}

pub open spec fn all_compile(patterns: Seq<Seq<char>>) -> bool {
    forall|i: int| 0 <= i < patterns.len() ==> regex_compiles(#[trigger] patterns[i])
}

pub open spec fn all_steady(patterns: Seq<Seq<char>>) -> bool {
    forall|i: int| 0 <= i < patterns.len() ==> steady(#[trigger] patterns[i])
}

/// All of the patterns are steady.
pub fn are_steady(patterns: &Vec<String>) -> (answer: bool)
    ensures
        answer == all_steady(strings(patterns@)),
{
    let ghost all = strings(patterns@);
    let mut i: usize = 0;
    while i < patterns.len()
        invariant
            i <= patterns@.len(),
            all == strings(patterns@),
            forall|k: int| 0 <= k < i ==> steady(#[trigger] all[k]),
        decreases patterns@.len() - i,
    {
        assert(all[i as int] == patterns@[i as int]@);
        if !is_steady(patterns[i].as_str()) {
            return false;
        }
        i = i + 1;
    }
    true
}

/// The tables can be indexed by the ranks of all of the tokens.
pub(crate) fn are_in_range(tokens: &Vec<Token>) -> (answer: bool)
    ensures
        answer == ranks_fit(tokens_of(tokens@)),
{
    let ghost all = tokens_of(tokens@);
    let mut i: usize = 0;
    while i < tokens.len()
        invariant
            i <= tokens@.len(),
            all == tokens_of(tokens@),
            forall|k: int| 0 <= k < i ==> (#[trigger] all[k]).1 < usize::MAX,
        decreases tokens@.len() - i,
    {
        assert(all[i as int] == tokens@[i as int]@);
        if tokens[i].rank as usize >= usize::MAX {
            return false;
        }
        i = i + 1;
    }
    true
}

/// The splitters for the patterns, if all of them compile.
pub fn compile_patterns(patterns: &Vec<String>) -> (result: Result<Vec<Splitter>, Error>)
    ensures
        match result {
            Ok(splitters) => {
                &&& all_compile(strings(patterns@))
                &&& rules_search(rules_of(splitters@), strings(patterns@))
            },
            Err(error) => !all_compile(strings(patterns@)) && error is RegexError,
        },
{
    let ghost all = strings(patterns@);
    let mut splitters: Vec<Splitter> = Vec::with_capacity(patterns.len());
    let mut i: usize = 0;
    while i < patterns.len()
        invariant
            i <= patterns@.len(),
            all == strings(patterns@),
            splitters@.len() == i,
            forall|k: int|
                0 <= k < i ==> {
                    &&& (#[trigger] splitters@[k])@ matches SplitRule::Pattern(pattern, _)
                    &&& pattern == all[k]
                    &&& regex_compiles(all[k])
                },
        decreases patterns@.len() - i,
    {
        assert(all[i as int] == patterns@[i as int]@);
        match Splitter::from_regex_pattern(patterns[i].as_str()) {
            Ok(splitter) => splitters.push(splitter),
            Err(error) => {
                return Err(error);
            },
        }
        i = i + 1;
    }
    proof {
        assert forall|k: int| 0 <= k < all.len() implies regex_compiles(#[trigger] all[k]) by {
            assert(splitters@[k]@ is Pattern);
        }
        let rules = rules_of(splitters@);
        assert forall|k: int| 0 <= k < rules.len() implies {
            &&& #[trigger] rules[k] matches SplitRule::Pattern(pattern, _)
            &&& pattern == all[k]
        } by {
            assert(rules[k] == splitters@[k]@);
        }
    }
    Ok(splitters)
}

/// The rules of steady patterns can be applied to any text.
pub(crate) proof fn lemma_patterns_steady(splitters: Seq<Splitter>, patterns: Seq<Seq<char>>)
    requires
        rules_search(rules_of(splitters), patterns),
        all_steady(patterns),
    ensures
        forall|i: int| 0 <= i < splitters.len() ==> rule_steady((#[trigger] splitters[i])@),
{
    assert(rules_of(splitters).len() == splitters.len());
    assert forall|i: int| 0 <= i < splitters.len() implies rule_steady(
        (#[trigger] splitters[i])@,
    ) by {
        assert(rules_of(splitters)[i] == splitters[i]@);
        assert(steady(patterns[i]));
    }
}

/// A model file that is written as JSON, with patterns and tokens in one.
pub struct TekkenTokenizer {
    pub config: TekkenConfig,
    pub vocab: Vec<TekkenToken>,
    pub special_tokens: Vec<TekkenSpecialToken>,
}

pub struct TekkenConfig {
    pub pattern: String,
}

pub struct TekkenToken {
    pub rank: Rank,
    /// The bytes of the token, in base 64.
    pub token_bytes: String,
}

pub struct TekkenSpecialToken {
    pub rank: Rank,
    pub token_str: String,
}

pub open spec fn tekken_vocab(tokens: Seq<TekkenToken>) -> Seq<(Seq<u8>, Rank)> {
    tokens.map_values(
        |token: TekkenToken| (base64_token_bytes(token.token_bytes@), token.rank),
    )
}

pub open spec fn tekken_specials(tokens: Seq<TekkenSpecialToken>) -> Seq<(Seq<u8>, Rank)> {
    tokens.map_values(|token: TekkenSpecialToken| (encode_utf8(token.token_str@), token.rank))
}

/// A token with this text in base 64.
fn base64_token(text: &str, rank: Rank) -> (token: Token)
    ensures
        token@ == (base64_token_bytes(text@), rank),
{
    Token { bytes: decode_base64_tokens(text), rank }
}

fn tekken_tokens(tokens: &Vec<TekkenToken>) -> (vocab: Vec<Token>)
    ensures
        tokens_of(vocab@) == tekken_vocab(tokens@),
{
    let mut vocab: Vec<Token> = Vec::with_capacity(tokens.len());
    let mut i: usize = 0;
    while i < tokens.len()
        invariant
            i <= tokens@.len(),
            vocab@.len() == i,
            forall|k: int| 0 <= k < i ==> (#[trigger] vocab@[k])@ == tekken_vocab(tokens@)[k],
        decreases tokens@.len() - i,
    {
        let token = &tokens[i];
        vocab.push(base64_token(token.token_bytes.as_str(), token.rank));
        i = i + 1;
    }
    assert(tokens_of(vocab@) =~= tekken_vocab(tokens@));
    vocab
}

fn tekken_special_tokens(tokens: &Vec<TekkenSpecialToken>) -> (vocab: Vec<Token>)
    ensures
        tokens_of(vocab@) == tekken_specials(tokens@),
{
    let mut vocab: Vec<Token> = Vec::with_capacity(tokens.len());
    let mut i: usize = 0;
    while i < tokens.len()
        invariant
            i <= tokens@.len(),
            vocab@.len() == i,
            forall|k: int| 0 <= k < i ==> (#[trigger] vocab@[k])@ == tekken_specials(tokens@)[k],
        decreases tokens@.len() - i,
    {
        let token = &tokens[i];
        let bytes: Vec<u8> = slice_to_vec(token.token_str.as_str().as_bytes());
        vocab.push(Token { bytes, rank: token.rank });
        i = i + 1;
    }
    assert(tokens_of(vocab@) =~= tekken_specials(tokens@));
    vocab
}

impl TekkenTokenizer {
    /// If the pattern compiles and the special tokens fit an automaton, the pattern can be searched
    /// for in any text, and the ranks can index a table.
    pub open spec fn loadable(self) -> bool {
        regex_compiles(self.config.pattern@) && automaton_fits(
            literals_of(tekken_specials(self.special_tokens@)),
        ) ==> {
            &&& ranks_fit(tekken_vocab(self.vocab@))
            &&& ranks_fit(tekken_specials(self.special_tokens@))
            &&& steady(self.config.pattern@)
        }
    }

    /// The model is [`loadable`](TekkenTokenizer::loadable).
    pub fn is_loadable(&self) -> (answer: bool)
        ensures
            answer == self.loadable(),
    {
        let special_vocab = tekken_special_tokens(&self.special_tokens);
        match (
            Splitter::from_regex_pattern(self.config.pattern.as_str()),
            special_search(&special_vocab),
        ) {
            (Ok(_), Ok(_)) => are_in_range(&tekken_tokens(&self.vocab)) && are_in_range(
                &special_vocab,
            ) && is_steady(self.config.pattern.as_str()),
            _ => true,
        }
    }
}

/// What loading a Tekken model may answer: the error of what is wrong first, else the tokenizer.
/// On which engine its pattern runs is up to the machine.
pub open spec fn may_load_tekken(tekken: TekkenTokenizer, result: Result<Model, Error>) -> bool {
    let specials = tekken_specials(tekken.special_tokens@);
    if !regex_compiles(tekken.config.pattern@) {
        result matches Err(error) && error is RegexError
    } else if !automaton_fits(literals_of(specials)) {
        &&& !surely_fit(literals_of(specials))
        &&& result matches Err(error)
        &&& error is AhoCorasickError
    } else {
        &&& result matches Ok(model)
        &&& rules_search(model.rules.skip(1), seq![tekken.config.pattern@])
        &&& model == assembled(
            tekken_vocab(tekken.vocab@),
            specials,
            None,
            None,
            model.rules.skip(1),
            WordSplitter::Bytes,
        )
    }
}

impl Tokenizer {
    /// The tokenizer of a Tekken model, or nothing where the model is not
    /// [`loadable`](TekkenTokenizer::loadable).
    pub fn load_tekken(tekken: &TekkenTokenizer) -> (result: Option<Result<Tokenizer, Error>>)
        ensures
            result is None <==> !tekken.loadable(),
            result matches Some(Ok(tokenizer)) ==> may_load_tekken(*tekken, Ok(tokenizer@)),
            result matches Some(Err(error)) ==> may_load_tekken(*tekken, Err(error)),
    {
        if tekken.is_loadable() {
            Some(Tokenizer::from_tekken(tekken))
        } else {
            None
        }
    }

    /// The tokenizer of a Tekken model.
    pub fn from_tekken(tekken: &TekkenTokenizer) -> (result: Result<Tokenizer, Error>)
        requires
            tekken.loadable(),
        ensures
            result matches Ok(tokenizer) ==> may_load_tekken(*tekken, Ok(tokenizer@)),
            result matches Err(error) ==> may_load_tekken(*tekken, Err(error)),
    {
        let vocab = tekken_tokens(&tekken.vocab);
        let special_vocab = tekken_special_tokens(&tekken.special_tokens);
        let splitter = match Splitter::from_regex_pattern(tekken.config.pattern.as_str()) {
            Ok(splitter) => splitter,
            Err(error) => {
                return Err(error);
            },
        };
        let ghost rule = splitter@;
        let splitters: Vec<Splitter> = vec![splitter];
        let ghost rules = rules_of(splitters@);
        assert(rules =~= seq![rule]);
        let result = Tokenizer::from_vocab_and_splitters(
            vocab,
            special_vocab,
            None,
            None,
            splitters,
            WordSplitter::Bytes,
        );
        assert(result matches Ok(tokenizer) ==> tokenizer@.rules.skip(1) =~= rules);
        result
    }
}

/// The configuration that goes with a model file of lines.
pub struct TokenizerConfig {
    /// The added tokens, each under its rank in decimal digits.
    pub added_tokens_decoder: Option<Vec<(String, SpecialToken)>>,
}

pub struct SpecialToken {
    pub content: String,
    pub special: bool,
}

/// What is wrong with a line of a model file.
pub enum LineFault {
    /// It has no rank.
    NoRank,
    /// Its rank is not a number.
    BadRank,
}

pub open spec fn line_fault(line: Seq<char>) -> Option<LineFault> {
    if parts(line).len() < 2 {
        Some(LineFault::NoRank)
    } else if written_rank(parts(line)[1]) is None {
        Some(LineFault::BadRank)
    } else {
        None
    }
}

/// What is wrong with the first line with which something is.
pub open spec fn first_fault(lines: Seq<Seq<char>>) -> Option<LineFault>
    decreases lines.len(),
{
    if lines.len() == 0 {
        None
    } else {
        match first_fault(lines.drop_last()) {
            Some(fault) => Some(fault),
            None => line_fault(lines.last()),
        }
    }
}

pub open spec fn is_fault(error: Error, fault: LineFault) -> bool {
    match fault {
        LineFault::NoRank => error is InvalidModelFormat,
        LineFault::BadRank => error is ParseIntError,
    }
}

/// A fault in the first lines is the fault of all of them.
proof fn lemma_fault_stays(lines: Seq<Seq<char>>, n: int)
    requires
        0 <= n <= lines.len(),
        first_fault(lines.take(n)) is Some,
    ensures
        first_fault(lines) == first_fault(lines.take(n)),
    decreases lines.len() - n,
{
    if n < lines.len() {
        assert(lines.take(n + 1).drop_last() =~= lines.take(n));
        lemma_fault_stays(lines, n + 1);
    } else {
        assert(lines.take(n) =~= lines);
    }
}

/// The tokens of a model file: a token in base 64 and its rank on each line.
pub open spec fn line_tokens(lines: Seq<Seq<char>>) -> Seq<(Seq<u8>, Rank)> {
    lines.map_values(
        |line: Seq<char>|
            (base64_token_bytes(parts(line)[0]), written_rank(parts(line)[1])->0),
    )
}

/// The added tokens that are special: each with its rank in decimal digits, and its text.
pub open spec fn special_entries(added: Seq<(String, SpecialToken)>) -> Seq<(Seq<char>, Seq<char>)>
    decreases added.len(),
{
    if added.len() == 0 {
        Seq::empty()
    } else {
        let (rank, token) = added.last();
        if token.special {
            special_entries(added.drop_last()).push((rank@, token.content@))
        } else {
            special_entries(added.drop_last())
        }
    }
}

pub open spec fn config_entries(config: TokenizerConfig) -> Seq<(Seq<char>, Seq<char>)> {
    match config.added_tokens_decoder {
        Some(added) => special_entries(added@),
        None => Seq::empty(),
    }
}

/// The rank of each entry is a number.
pub open spec fn entries_valid(entries: Seq<(Seq<char>, Seq<char>)>) -> bool {
    forall|i: int| 0 <= i < entries.len() ==> written_rank((#[trigger] entries[i]).0) is Some
}

pub open spec fn entry_tokens(entries: Seq<(Seq<char>, Seq<char>)>) -> Seq<(Seq<u8>, Rank)> {
    entries.map_values(
        |entry: (Seq<char>, Seq<char>)| (base64_token_bytes(entry.1), written_rank(entry.0)->0),
    )
}

/// The tokens on the lines of a model file.
pub fn read_lines(lines: &Vec<String>) -> (result: Result<Vec<Token>, Error>)
    ensures
        match first_fault(strings(lines@)) {
            None => result matches Ok(tokens) && tokens_of(tokens@) == line_tokens(
                strings(lines@),
            ),
            Some(fault) => result matches Err(error) && is_fault(error, fault),
        },
{
    let ghost all = strings(lines@);
    let mut tokens: Vec<Token> = Vec::with_capacity(lines.len());
    let mut i: usize = 0;
    assert(all.take(0) =~= Seq::empty());
    while i < lines.len()
        invariant
            i <= lines@.len(),
            all == strings(lines@),
            first_fault(all.take(i as int)) is None,
            tokens@.len() == i,
            forall|k: int| 0 <= k < i ==> (#[trigger] tokens@[k])@ == line_tokens(all)[k],
        decreases lines@.len() - i,
    {
        proof {
            assert(all[i as int] == lines@[i as int]@);
            assert(all.take(i + 1).drop_last() =~= all.take(i as int));
            assert(all.take(i + 1).last() == all[i as int]);
            if line_fault(all[i as int]) is Some {
                lemma_fault_stays(all, i + 1);
            }
        }
        match first_two_parts(lines[i].as_str()) {
            Some((token, rank_text)) => match parse_rank(rank_text) {
                Ok(rank) => tokens.push(base64_token(token, rank)),
                Err(error) => {
                    return Err(Error::ParseIntError(error));
                },
            },
            None => {
                return Err(Error::InvalidModelFormat);
            },
        }
        i = i + 1;
    }
    assert(all.take(all.len() as int) =~= all);
    assert(tokens_of(tokens@) =~= line_tokens(all));
    Ok(tokens)
}

/// The special tokens of a configuration.
fn read_added(added: &Vec<(String, SpecialToken)>) -> (result: Result<Vec<Token>, Error>)
    ensures
        match result {
            Ok(tokens) => {
                &&& entries_valid(special_entries(added@))
                &&& tokens_of(tokens@) == entry_tokens(special_entries(added@))
            },
            Err(error) => !entries_valid(special_entries(added@)) && error is ParseIntError,
        },
{
    let mut tokens: Vec<Token> = Vec::new();
    let mut i: usize = 0;
    assert(added@.take(0) =~= Seq::empty());
    assert(tokens_of(tokens@) =~= entry_tokens(special_entries(added@.take(0))));
    while i < added.len()
        invariant
            i <= added@.len(),
            entries_valid(special_entries(added@.take(i as int))),
            tokens_of(tokens@) == entry_tokens(special_entries(added@.take(i as int))),
        decreases added@.len() - i,
    {
        let ghost before = special_entries(added@.take(i as int));
        let ghost after = special_entries(added@.take(i + 1));
        let ghost old_tokens = tokens@;
        assert(added@.take(i + 1).drop_last() =~= added@.take(i as int));
        let (rank_text, token) = &added[i];
        if token.special {
            match parse_rank(rank_text.as_str()) {
                Ok(rank) => {
                    tokens.push(base64_token(token.content.as_str(), rank));
                    proof {
                        assert(after == before.push((rank_text@, token.content@)));
                        assert forall|k: int| 0 <= k < after.len() implies written_rank(
                            (#[trigger] after[k]).0,
                        ) is Some by {
                            if k < before.len() {
                                assert(after[k] == before[k]);
                            }
                        }
                        assert(tokens_of(tokens@) =~= tokens_of(old_tokens).push(
                            (base64_token_bytes(token.content@), rank),
                        ));
                        assert(entry_tokens(after) =~= entry_tokens(before).push(
                            (base64_token_bytes(token.content@), rank),
                        ));
                    }
                },
                Err(error) => {
                    proof {
                        let last = before.len() as int;
                        assert(after[last].0 == rank_text@);
                        lemma_entries_stay(added@, i + 1);
                        assert(special_entries(added@)[last] == after[last]);
                    }
                    return Err(Error::ParseIntError(error));
                },
            }
        }
        i = i + 1;
    }
    assert(added@.take(added@.len() as int) =~= added@);
    Ok(tokens)
}

/// The special tokens of a configuration, which may have none.
fn read_config(config: &TokenizerConfig) -> (result: Result<Vec<Token>, Error>)
    ensures
        match result {
            Ok(tokens) => {
                &&& entries_valid(config_entries(*config))
                &&& tokens_of(tokens@) == entry_tokens(config_entries(*config))
            },
            Err(error) => !entries_valid(config_entries(*config)) && error is ParseIntError,
        },
{
    match &config.added_tokens_decoder {
        Some(added) => read_added(added),
        None => {
            let tokens: Vec<Token> = Vec::new();
            assert(tokens_of(tokens@) =~= entry_tokens(config_entries(*config)));
            Ok(tokens)
        },
    }
}

/// If the lines and the entries have their ranks, the patterns compile and the special tokens fit
/// an automaton, the ranks can index a table and the patterns can be searched for in any text.
pub open spec fn model_loadable(
    lines: Seq<Seq<char>>,
    entries: Seq<(Seq<char>, Seq<char>)>,
    patterns: Seq<Seq<char>>,
) -> bool {
    first_fault(lines) is None && entries_valid(entries) && all_compile(patterns)
        && automaton_fits(literals_of(entry_tokens(entries))) ==> {
        &&& ranks_fit(line_tokens(lines))
        &&& ranks_fit(entry_tokens(entries))
        &&& all_steady(patterns)
    }
}

/// The model is [`model_loadable`].
pub fn is_model_loadable(
    lines: &Vec<String>,
    config: &TokenizerConfig,
    regex_patterns: &Vec<String>,
) -> (answer: bool)
    ensures
        answer == model_loadable(
            strings(lines@),
            config_entries(*config),
            strings(regex_patterns@),
        ),
{
    match (read_lines(lines), read_config(config), compile_patterns(regex_patterns)) {
        (Ok(vocab), Ok(special_vocab), Ok(_)) => match special_search(&special_vocab) {
            Ok(_) => are_in_range(&vocab) && are_in_range(&special_vocab) && are_steady(
                regex_patterns,
            ),
            Err(_) => true,
        },
        _ => true,
    }
}

/// What loading a model file of lines may answer: the error of what is wrong first, else the
/// tokenizer. On which engines its patterns run is up to the machine.
pub open spec fn may_load_model(
    lines: Seq<Seq<char>>,
    entries: Seq<(Seq<char>, Seq<char>)>,
    patterns: Seq<Seq<char>>,
    result: Result<Model, Error>,
) -> bool {
    match first_fault(lines) {
        Some(fault) => result matches Err(error) && is_fault(error, fault),
        None => {
            if !entries_valid(entries) {
                result matches Err(error) && error is ParseIntError
            } else if !all_compile(patterns) {
                result matches Err(error) && error is RegexError
            } else if !automaton_fits(literals_of(entry_tokens(entries))) {
                &&& !surely_fit(literals_of(entry_tokens(entries)))
                &&& result matches Err(error)
                &&& error is AhoCorasickError
            } else {
                &&& result matches Ok(model)
                &&& rules_search(model.rules.skip(1), patterns)
                &&& model == assembled(
                    line_tokens(lines),
                    entry_tokens(entries),
                    None,
                    None,
                    model.rules.skip(1),
                    WordSplitter::Bytes,
                )
            }
        },
    }
}

/// The entries of the first added tokens are the first entries.
proof fn lemma_entries_stay(added: Seq<(String, SpecialToken)>, n: int)
    requires
        0 <= n <= added.len(),
    ensures
        special_entries(added.take(n)).is_prefix_of(special_entries(added)),
    decreases added.len() - n,
{
    if n < added.len() {
        lemma_entries_stay(added, n + 1);
        assert(added.take(n + 1).drop_last() =~= added.take(n));
        let short = special_entries(added.take(n));
        let long = special_entries(added.take(n + 1));
        assert(short =~= long.subrange(0, short.len() as int));
        assert(short =~= special_entries(added).subrange(0, short.len() as int)) by {
            assert forall|k: int| 0 <= k < short.len() implies short[k] == special_entries(
                added,
            )[k] by {
                assert(short[k] == long[k]);
                assert(long[k] == special_entries(added).subrange(0, long.len() as int)[k]);
            }
        }
    } else {
        assert(added.take(n) =~= added);
        let all = special_entries(added);
        assert(all =~= all.subrange(0, all.len() as int));
    }
}

impl Tokenizer {
    /// The tokenizer of a model file of lines, or nothing where the model is not
    /// [`model_loadable`].
    pub fn load_model_and_config(
        lines: &Vec<String>,
        config: &TokenizerConfig,
        regex_patterns: &Vec<String>,
    ) -> (result: Option<Result<Tokenizer, Error>>)
        ensures
            result is None <==> !model_loadable(
                strings(lines@),
                config_entries(*config),
                strings(regex_patterns@),
            ),
            result matches Some(Ok(tokenizer)) ==> may_load_model(
                strings(lines@),
                config_entries(*config),
                strings(regex_patterns@),
                Ok(tokenizer@),
            ),
            result matches Some(Err(error)) ==> may_load_model(
                strings(lines@),
                config_entries(*config),
                strings(regex_patterns@),
                Err(error),
            ),
    {
        if is_model_loadable(lines, config, regex_patterns) {
            Some(Tokenizer::from_model_and_config(lines, config, regex_patterns))
        } else {
            None
        }
    }

    /// The tokenizer of a model file of lines, with its configuration and the patterns at which
    /// text is cut.
    pub fn from_model_and_config(
        lines: &Vec<String>,
        config: &TokenizerConfig,
        regex_patterns: &Vec<String>,
    ) -> (result: Result<Tokenizer, Error>)
        requires
            model_loadable(strings(lines@), config_entries(*config), strings(regex_patterns@)),
        ensures
            result matches Ok(tokenizer) ==> may_load_model(
                strings(lines@),
                config_entries(*config),
                strings(regex_patterns@),
                Ok(tokenizer@),
            ),
            result matches Err(error) ==> may_load_model(
                strings(lines@),
                config_entries(*config),
                strings(regex_patterns@),
                Err(error),
            ),
    {
        let vocab = match read_lines(lines) {
            Ok(vocab) => vocab,
            Err(error) => {
                return Err(error);
            },
        };
        let special_vocab = match read_config(config) {
            Ok(special_vocab) => special_vocab,
            Err(error) => {
                return Err(error);
            },
        };
        let splitters = match compile_patterns(regex_patterns) {
            Ok(splitters) => splitters,
            Err(error) => {
                return Err(error);
            },
        };
        let ghost rules = rules_of(splitters@);
        proof {
            if all_steady(strings(regex_patterns@)) {
                lemma_patterns_steady(splitters@, strings(regex_patterns@));
            }
        }
        let result = Tokenizer::from_vocab_and_splitters(
            vocab,
            special_vocab,
            None,
            None,
            splitters,
            WordSplitter::Bytes,
        );
        assert(result matches Ok(tokenizer) ==> tokenizer@.rules.skip(1) =~= rules);
        result
    }
}

} // verus!
