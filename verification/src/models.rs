//! What a tokenizer has of a Tekken model, and of a model file of lines with its configuration.
use vstd::prelude::*;
use vstd::utf8::encode_utf8;

use crate::contents::{lemma_never_resets, never_resets};
use crate::encodings::Lists;
use crate::error::Error;
use crate::loaders::{
    all_compile, config_entries, entries_valid, entry_tokens, first_fault, line_fault, line_tokens,
    may_load_model, may_load_tekken, model_loadable, special_entries, tekken_specials,
    tekken_vocab, SpecialToken, TekkenTokenizer, TokenizerConfig,
};
use crate::search::{automaton_fits, regex_compiles, steady};
use crate::splitters::SplitRule;
use crate::text::{parts, written_rank};
use crate::tokenizer::{literals_of, Model};
use crate::transforms::base64_token_bytes;
use crate::words::WordSplitter;
use crate::writings::{base64_means, lemma_base64_means};
use crate::Rank;

verus! {

/// The text is cut at each of the patterns, in their order, and words are single bytes; there are
/// no merges and no prefix.
pub open spec fn plainly(lists: Lists, patterns: Seq<Seq<char>>) -> bool {
    &&& lists.merges is None
    &&& lists.prefix is None
    &&& lists.words is Bytes
    &&& lists.rules.len() == patterns.len()
    &&& forall|i: int|
        0 <= i < patterns.len() ==> {
            &&& #[trigger] lists.rules[i] matches SplitRule::Pattern(pattern, _)
            &&& pattern == patterns[i]
        }
}

/// A Tekken model that is loaded has each token with the bytes of which it holds the form in base
/// 64, and each special token with the bytes of its text, all under their ranks, and is cut at its
/// pattern.
pub proof fn lemma_tekken_is_loaded(tekken: TekkenTokenizer, model: Model)
    requires
        may_load_tekken(tekken, Ok(model)),
    ensures
        exists|lists: Lists|
            {
                &&& model == #[trigger] lists.model()
                &&& lists.valid()
                &&& plainly(lists, seq![tekken.config.pattern@])
                &&& lists.vocab.len() == tekken.vocab@.len()
                &&& forall|i: int|
                    0 <= i < lists.vocab.len() ==> {
                        &&& (#[trigger] lists.vocab[i]).1 == tekken.vocab@[i].rank
                        &&& base64_means(tekken.vocab@[i].token_bytes@, lists.vocab[i].0)
                    }
                &&& lists.specials.len() == tekken.special_tokens@.len()
                &&& forall|i: int|
                    0 <= i < lists.specials.len() ==> #[trigger] lists.specials[i] == (
                        encode_utf8(tekken.special_tokens@[i].token_str@),
                        tekken.special_tokens@[i].rank,
                    )
            },
{
    let lists = Lists {
        vocab: tekken_vocab(tekken.vocab@),
        specials: tekken_specials(tekken.special_tokens@),
        merges: None,
        prefix: None,
        rules: model.rules.skip(1),
        words: WordSplitter::Bytes,
    };
    assert(model == lists.model());
    assert forall|i: int| 0 <= i < lists.vocab.len() implies {
        &&& (#[trigger] lists.vocab[i]).1 == tekken.vocab@[i].rank
        &&& base64_means(tekken.vocab@[i].token_bytes@, lists.vocab[i].0)
    } by {
        lemma_base64_means(tekken.vocab@[i].token_bytes@, lists.vocab[i].0);
    }
    assert(plainly(lists, seq![tekken.config.pattern@]));
}

/// A Tekken model that is refused has a pattern that does not compile, or else special tokens that
/// do not fit an automaton.
pub proof fn lemma_tekken_is_refused(tekken: TekkenTokenizer, error: Error)
    requires
        may_load_tekken(tekken, Err(error)),
    ensures
        error is RegexError && !regex_compiles(tekken.config.pattern@) || error is AhoCorasickError
            && regex_compiles(tekken.config.pattern@) && !automaton_fits(
            Seq::new(
                tekken.special_tokens@.len(),
                |i: int| encode_utf8(tekken.special_tokens@[i].token_str@),
            ),
        ),
{
    assert(literals_of(tekken_specials(tekken.special_tokens@)) =~= Seq::new(
        tekken.special_tokens@.len(),
        |i: int| encode_utf8(tekken.special_tokens@[i].token_str@),
    ));
}

/// The line begins with this token, a space and this number, and ends there or goes on after
/// another space.
pub open spec fn line_has(line: Seq<char>, token: Seq<char>, number: Seq<char>) -> bool {
    &&& !token.contains(' ')
    &&& !number.contains(' ')
    &&& {
        ||| line == token + seq![' '] + number
        ||| exists|rest: Seq<char>| line == #[trigger] (token + seq![' '] + number + seq![' ']
            + rest)
    }
}

/// The line gives a token these bytes and this rank.
pub open spec fn line_means(line: Seq<char>, bytes: Seq<u8>, rank: Rank) -> bool {
    exists|token: Seq<char>, number: Seq<char>| #[trigger]
        line_has(line, token, number) && base64_means(token, bytes) && written_rank(number) == Some(
            rank,
        )
}

/// The line gives a token.
pub open spec fn line_holds(line: Seq<char>) -> bool {
    exists|bytes: Seq<u8>, rank: Rank| line_means(line, bytes, rank)
}

/// The line has no space and so no rank, or what should be its rank is no number.
pub open spec fn line_fails(line: Seq<char>, error: Error) -> bool {
    match error {
        Error::InvalidModelFormat => !line.contains(' '),
        Error::ParseIntError(_) => exists|token: Seq<char>, number: Seq<char>| #[trigger]
            line_has(line, token, number) && written_rank(number) is None,
        _ => false,
    }
}

/// The first two parts of a line are its token and its number.
proof fn lemma_line_has(line: Seq<char>)
    ensures
        parts(line).len() >= 2 ==> line_has(line, parts(line)[0], parts(line)[1]),
        parts(line).len() >= 2 <==> line.contains(' '),
{
    if line.contains(' ') {
        line.index_of_first_ensures(' ');
        let at = line.index_of_first(' ')->0;
        let token = line.take(at);
        let tail = line.skip(at + 1);
        lemma_no_space(line, at);
        if tail.contains(' ') {
            tail.index_of_first_ensures(' ');
            let next = tail.index_of_first(' ')->0;
            let number = tail.take(next);
            let rest = tail.skip(next + 1);
            lemma_no_space(tail, next);
            assert(line =~= token + seq![' '] + number + seq![' '] + rest);
            assert(parts(tail)[0] == number);
            assert(parts(line)[1] == number);
        } else {
            assert(line =~= token + seq![' '] + tail);
            assert(parts(tail) =~= seq![tail]);
            assert(parts(line)[1] == tail);
        }
        assert(parts(tail).len() >= 1);
    } else {
        assert(parts(line).len() == 1);
    }
}

proof fn lemma_no_space(text: Seq<char>, at: int)
    requires
        text.contains(' '),
        text.index_of_first(' ') == Some(at),
    ensures
        !text.take(at).contains(' '),
{
    text.index_of_first_ensures(' ');
    if text.take(at).contains(' ') {
        let k = text.take(at).index_of(' ');
        assert(text[k] == ' ');
    }
}

/// The list holds the special ones of the added tokens, in their order: the `i`-th stands at the
/// `i`-th of the places `at`.
pub open spec fn lists_special(
    added: Seq<(String, SpecialToken)>,
    list: Seq<(Seq<u8>, Rank)>,
    at: Seq<int>,
) -> bool {
    &&& list.len() == at.len()
    &&& forall|i: int| 0 <= i < at.len() ==> 0 <= #[trigger] at[i] < added.len()
    &&& forall|i: int, j: int| 0 <= i < j < at.len() ==> #[trigger] at[i] < #[trigger] at[j]
    &&& forall|k: int|
        0 <= k < added.len() ==> ((#[trigger] added[k]).1.special <==> at.contains(k))
    &&& forall|i: int|
        0 <= i < list.len() ==> {
            &&& base64_means(added[at[i]].1.content@, (#[trigger] list[i]).0)
            &&& written_rank(added[at[i]].0@) == Some(list[i].1)
        }
}

/// The added tokens of a configuration, which may have none.
pub open spec fn added_in(config: TokenizerConfig) -> Seq<(String, SpecialToken)> {
    match config.added_tokens_decoder {
        Some(added) => added@,
        None => Seq::empty(),
    }
}

/// The places of the special ones of the added tokens.
proof fn lemma_special_places(added: Seq<(String, SpecialToken)>) -> (at: Seq<int>)
    ensures
        at.len() == special_entries(added).len(),
        forall|i: int|
            0 <= i < at.len() ==> {
                &&& 0 <= #[trigger] at[i] < added.len()
                &&& special_entries(added)[i] == (added[at[i]].0@, added[at[i]].1.content@)
            },
        forall|i: int, j: int| 0 <= i < j < at.len() ==> #[trigger] at[i] < #[trigger] at[j],
        forall|k: int|
            0 <= k < added.len() ==> ((#[trigger] added[k]).1.special <==> at.contains(k)),
    decreases added.len(),
{
    if added.len() == 0 {
        Seq::empty()
    } else {
        let init = added.drop_last();
        let n = added.len() - 1;
        let before = lemma_special_places(init);
        assert(added[n] == added.last());
        let at = if added.last().1.special {
            before.push(n)
        } else {
            before
        };
        assert forall|i: int| 0 <= i < at.len() implies {
            &&& 0 <= #[trigger] at[i] < added.len()
            &&& special_entries(added)[i] == (added[at[i]].0@, added[at[i]].1.content@)
        } by {
            if i < before.len() {
                assert(at[i] == before[i]);
                assert(init[before[i]] == added[before[i]]);
            }
        }
        assert forall|i: int, j: int| 0 <= i < j < at.len() implies #[trigger] at[i]
            < #[trigger] at[j] by {
            assert(at[i] == before[i]);
            if j < before.len() {
                assert(at[j] == before[j]);
            }
        }
        assert forall|k: int| 0 <= k < added.len() implies ((#[trigger] added[k]).1.special
            <==> at.contains(k)) by {
            if k < n {
                assert(init[k] == added[k]);
                if before.contains(k) {
                    let i = before.index_of(k);
                    assert(at[i] == k);
                }
                if at.contains(k) {
                    let i = at.index_of(k);
                    assert(before[i] == k);
                }
            } else {
                if added[k].1.special {
                    assert(at[before.len() as int] == k);
                }
                if at.contains(k) && !added[k].1.special {
                    let i = at.index_of(k);
                    assert(before[i] == k);
                }
            }
        }
        at
    }
}

/// Lines before the first that has something wrong with it have nothing wrong.
proof fn lemma_no_fault(lines: Seq<Seq<char>>)
    ensures
        match first_fault(lines) {
            None => forall|i: int|
                0 <= i < lines.len() ==> line_fault(#[trigger] lines[i]) is None,
            Some(fault) => exists|i: int|
                {
                    &&& 0 <= i < lines.len()
                    &&& line_fault(#[trigger] lines[i]) == Some(fault)
                    &&& forall|j: int| 0 <= j < i ==> line_fault(#[trigger] lines[j]) is None
                },
        },
    decreases lines.len(),
{
    if lines.len() > 0 {
        let init = lines.drop_last();
        let n = lines.len() - 1;
        lemma_no_fault(init);
        assert(lines[n] == lines.last());
        match first_fault(init) {
            Some(fault) => {
                let i = choose|i: int|
                    {
                        &&& 0 <= i < init.len()
                        &&& line_fault(#[trigger] init[i]) == Some(fault)
                        &&& forall|j: int| 0 <= j < i ==> line_fault(#[trigger] init[j]) is None
                    };
                assert(line_fault(lines[i]) == Some(fault));
                assert forall|j: int| 0 <= j < i implies line_fault(
                    #[trigger] lines[j],
                ) is None by {
                    assert(init[j] == lines[j]);
                }
            },
            None => {
                assert forall|j: int| 0 <= j < n implies line_fault(
                    #[trigger] lines[j],
                ) is None by {
                    assert(init[j] == lines[j]);
                }
            },
        }
    }
}

/// A model file of lines that is loaded has for each line a token with the bytes of which the line
/// holds the form in base 64, under the rank that stands after it, and the added tokens of the
/// configuration that are special, in the same way; it is cut at the patterns in their order.
pub proof fn lemma_lines_are_loaded(
    lines: Seq<Seq<char>>,
    config: TokenizerConfig,
    patterns: Seq<Seq<char>>,
    model: Model,
)
    requires
        may_load_model(lines, config_entries(config), patterns, Ok(model)),
    ensures
        exists|lists: Lists, at: Seq<int>|
            {
                &&& model == #[trigger] lists.model()
                &&& lists.valid()
                &&& plainly(lists, patterns)
                &&& lists.vocab.len() == lines.len()
                &&& forall|i: int|
                    0 <= i < lines.len() ==> line_means(
                        lines[i],
                        (#[trigger] lists.vocab[i]).0,
                        lists.vocab[i].1,
                    )
                &&& #[trigger] lists_special(added_in(config), lists.specials, at)
            },
{
    let entries = config_entries(config);
    let added = added_in(config);
    let lists = Lists {
        vocab: line_tokens(lines),
        specials: entry_tokens(entries),
        merges: None,
        prefix: None,
        rules: model.rules.skip(1),
        words: WordSplitter::Bytes,
    };
    assert(model == lists.model());
    assert(plainly(lists, patterns));
    lemma_no_fault(lines);
    assert forall|i: int| 0 <= i < lines.len() implies line_means(
        lines[i],
        (#[trigger] lists.vocab[i]).0,
        lists.vocab[i].1,
    ) by {
        let (token, number) = (parts(lines[i])[0], parts(lines[i])[1]);
        assert(line_fault(lines[i]) is None);
        lemma_line_has(lines[i]);
        lemma_base64_means(token, lists.vocab[i].0);
        assert(line_has(lines[i], token, number));
    }
    let at = lemma_special_places(added);
    assert(entries =~= special_entries(added));
    assert forall|i: int| 0 <= i < lists.specials.len() implies {
        &&& base64_means(added[at[i]].1.content@, (#[trigger] lists.specials[i]).0)
        &&& written_rank(added[at[i]].0@) == Some(lists.specials[i].1)
    } by {
        assert(0 <= at[i] < added.len());
        assert(entries[i] == (added[at[i]].0@, added[at[i]].1.content@));
        assert(written_rank(entries[i].0) is Some);
        lemma_base64_means(added[at[i]].1.content@, lists.specials[i].0);
    }
    assert(lists_special(added, lists.specials, at));
}

/// A model file of lines that is refused has that wrong with it which the error says. The first
/// line with something wrong decides; then the ranks of the special tokens, the patterns and the
/// special tokens are looked at, in this order.
pub proof fn lemma_lines_are_refused(
    lines: Seq<Seq<char>>,
    config: TokenizerConfig,
    patterns: Seq<Seq<char>>,
    error: Error,
)
    requires
        may_load_model(lines, config_entries(config), patterns, Err(error)),
    ensures
        ({
            ||| exists|i: int|
                {
                    &&& 0 <= i < lines.len()
                    &&& line_fails(#[trigger] lines[i], error)
                    &&& forall|j: int| 0 <= j < i ==> line_holds(#[trigger] lines[j])
                }
            ||| error is ParseIntError && exists|k: int|
                {
                    &&& 0 <= k < added_in(config).len()
                    &&& (#[trigger] added_in(config)[k]).1.special
                    &&& written_rank(added_in(config)[k].0@) is None
                }
            ||| error is RegexError && exists|i: int|
                0 <= i < patterns.len() && !regex_compiles(#[trigger] patterns[i])
            ||| error is AhoCorasickError && exists|list: Seq<(Seq<u8>, Rank)>, at: Seq<int>|
                #[trigger] lists_special(added_in(config), list, at) && !automaton_fits(
                    Seq::new(list.len(), |i: int| list[i].0),
                )
        }),
{
    let entries = config_entries(config);
    let added = added_in(config);
    lemma_no_fault(lines);
    assert(entries =~= special_entries(added));
    let at = lemma_special_places(added);
    match first_fault(lines) {
        Some(fault) => {
            let i = choose|i: int|
                {
                    &&& 0 <= i < lines.len()
                    &&& line_fault(#[trigger] lines[i]) == Some(fault)
                    &&& forall|j: int| 0 <= j < i ==> line_fault(#[trigger] lines[j]) is None
                };
            lemma_line_has(lines[i]);
            if fault is BadRank {
                assert(line_has(lines[i], parts(lines[i])[0], parts(lines[i])[1]));
            }
            assert(line_fails(lines[i], error));
            assert forall|j: int| 0 <= j < i implies line_holds(#[trigger] lines[j]) by {
                assert(line_fault(lines[j]) is None);
                lemma_line_has(lines[j]);
                let (token, number) = (parts(lines[j])[0], parts(lines[j])[1]);
                let bytes = base64_token_bytes(token);
                lemma_base64_means(token, bytes);
                assert(line_has(lines[j], token, number));
                assert(line_means(lines[j], bytes, written_rank(number)->0));
            }
        },
        None => {
            if !entries_valid(entries) {
                let i = choose|i: int|
                    0 <= i < entries.len() && !(written_rank((#[trigger] entries[i]).0) is Some);
                assert(0 <= at[i] < added.len());
                assert(at.contains(at[i]));
                assert(entries[i] == (added[at[i]].0@, added[at[i]].1.content@));
                assert(added[at[i]].1.special);
                assert(error is ParseIntError);
            } else if !all_compile(patterns) {
                let i = choose|i: int|
                    0 <= i < patterns.len() && !regex_compiles(#[trigger] patterns[i]);
                assert(!regex_compiles(patterns[i]));
            } else if error is AhoCorasickError {
                let list = entry_tokens(entries);
                assert forall|i: int| 0 <= i < list.len() implies {
                    &&& base64_means(added[at[i]].1.content@, (#[trigger] list[i]).0)
                    &&& written_rank(added[at[i]].0@) == Some(list[i].1)
                } by {
                    assert(0 <= at[i] < added.len());
                    assert(entries[i] == (added[at[i]].0@, added[at[i]].1.content@));
                    assert(written_rank(entries[i].0) is Some);
                    lemma_base64_means(added[at[i]].1.content@, list[i].0);
                }
                assert(lists_special(added, list, at));
                assert(literals_of(list) =~= Seq::new(list.len(), |i: int| list[i].0));
            }
        },
    }
}

/// A Tekken model can be loaded whose pattern has no `\K` and whose ranks are below the highest
/// number of 32 bits.
pub proof fn lemma_tekken_is_loadable(tekken: TekkenTokenizer)
    requires
        never_resets(tekken.config.pattern@),
        forall|i: int|
            0 <= i < tekken.vocab@.len() ==> (#[trigger] tekken.vocab@[i]).rank < Rank::MAX,
        forall|i: int|
            0 <= i < tekken.special_tokens@.len() ==> (#[trigger] tekken.special_tokens@[i]).rank
                < Rank::MAX,
    ensures
        tekken.loadable(),
{
    lemma_never_resets(tekken.config.pattern@);
    let vocab = tekken_vocab(tekken.vocab@);
    let specials = tekken_specials(tekken.special_tokens@);
    assert forall|i: int| 0 <= i < vocab.len() implies (#[trigger] vocab[i]).1 < usize::MAX by {
        assert(vocab[i].1 == tekken.vocab@[i].rank);
    }
    assert forall|i: int| 0 <= i < specials.len() implies (#[trigger] specials[i]).1
        < usize::MAX by {
        assert(specials[i].1 == tekken.special_tokens@[i].rank);
    }
}

/// A model file of lines can be loaded where the patterns have no `\K` and no line and no special
/// token gives the highest number of 32 bits as a rank.
pub proof fn lemma_lines_are_loadable(
    lines: Seq<Seq<char>>,
    config: TokenizerConfig,
    patterns: Seq<Seq<char>>,
)
    requires
        forall|i: int| 0 <= i < patterns.len() ==> never_resets(#[trigger] patterns[i]),
        forall|i: int, bytes: Seq<u8>|
            0 <= i < lines.len() ==> !#[trigger] line_means(lines[i], bytes, Rank::MAX),
        forall|k: int|
            0 <= k < added_in(config).len() ==> written_rank((#[trigger] added_in(config)[k]).0@)
                != Some(Rank::MAX),
    ensures
        model_loadable(lines, config_entries(config), patterns),
{
    let entries = config_entries(config);
    let added = added_in(config);
    let vocab = line_tokens(lines);
    let specials = entry_tokens(entries);
    lemma_no_fault(lines);
    assert(entries =~= special_entries(added));
    let at = lemma_special_places(added);
    assert forall|i: int| 0 <= i < patterns.len() implies steady(#[trigger] patterns[i]) by {
        lemma_never_resets(patterns[i]);
    }
    if first_fault(lines) is None {
        assert forall|i: int| 0 <= i < vocab.len() implies (#[trigger] vocab[i]).1 < usize::MAX by {
            let (token, number) = (parts(lines[i])[0], parts(lines[i])[1]);
            assert(line_fault(lines[i]) is None);
            lemma_line_has(lines[i]);
            lemma_base64_means(token, vocab[i].0);
            assert(line_has(lines[i], token, number));
            assert(line_means(lines[i], vocab[i].0, vocab[i].1));
        }
    }
    if entries_valid(entries) {
        assert forall|i: int| 0 <= i < specials.len() implies (#[trigger] specials[i]).1
            < usize::MAX by {
            assert(0 <= at[i] < added.len());
            assert(entries[i] == (added[at[i]].0@, added[at[i]].1.content@));
            assert(written_rank(entries[i].0) is Some);
        }
    }
}

} // verus!
