use keep_talkin::hugging_face::{
    HuggingFaceAddedToken, HuggingFaceMerge, HuggingFaceModel, HuggingFaceNormalizer,
    HuggingFaceNormalizerPattern, HuggingFacePattern, HuggingFacePreTokenizer,
    HuggingFaceSubNormalizer, HuggingFaceSubPreTokenizer, HuggingFaceTokenizer,
};
use keep_talkin::loaders::{
    are_steady, is_model_loadable, read_lines, SpecialToken, TekkenConfig, TekkenSpecialToken,
    TekkenToken, TekkenTokenizer, TokenizerConfig,
};
use keep_talkin::{Error, Rank, Tokenizer};

fn tekken(pattern: &str) -> TekkenTokenizer {
    let vocab = [("YQ==", 0), ("Yg==", 1), ("YWI=", 2), ("/w==", 3)];
    TekkenTokenizer {
        config: TekkenConfig { pattern: pattern.to_string() },
        vocab: vocab
            .iter()
            .map(|(text, rank)| TekkenToken { rank: *rank, token_bytes: text.to_string() })
            .collect(),
        special_tokens: vec![TekkenSpecialToken { rank: 4, token_str: "YQ==".to_string() }],
    }
}

#[test]
fn tekken_tokens_are_in_base64() {
    let tokenizer = Tokenizer::from_tekken(&tekken("a+b?|b+")).unwrap();
    assert_eq!(tokenizer.encode(b"abb").unwrap(), vec![2, 1]);
    assert_eq!(tokenizer.encode(b"abYQ==").unwrap(), vec![2, 4]);
    assert_eq!(tokenizer.decode(&[2, 3, 4]).unwrap(), vec![&b"ab"[..], &[255], b"YQ=="]);
}

#[test]
fn tekken_pattern_that_does_not_compile() {
    assert!(matches!(Tokenizer::from_tekken(&tekken("[")), Err(Error::RegexError(_))));
}

fn lines(list: &[&str]) -> Vec<String> {
    list.iter().map(|line| line.to_string()).collect()
}

fn config(list: &[(&str, &str, bool)]) -> TokenizerConfig {
    let added = list
        .iter()
        .map(|(rank, content, special)| {
            let token = SpecialToken { content: content.to_string(), special: *special };
            (rank.to_string(), token)
        })
        .collect();
    TokenizerConfig { added_tokens_decoder: Some(added) }
}

#[test]
fn model_lines_have_a_token_and_a_rank() {
    let tokenizer = Tokenizer::from_model_and_config(
        &lines(&["YQ== 0", "Yg== +1", "YWI= 002 more", "not-base64 3"]),
        &config(&[("5", "<s>", true), ("x", "<t>", false), ("6", "YWI=", true)]),
        &lines(&["[ab]+"]),
    )
    .unwrap();
    assert_eq!(tokenizer.encode(b"ab<s>a").unwrap(), vec![6, 5, 0]);
    assert_eq!(tokenizer.decode(&[0, 1, 2, 3]).unwrap().concat(), b"ababnot-base64");
    assert_eq!(tokenizer.decode(&[5, 6]).unwrap(), vec![&b"<s>"[..], b"ab"]);
}

#[test]
fn a_configuration_may_have_no_added_tokens() {
    let tokenizer = Tokenizer::from_model_and_config(
        &lines(&["YQ== 0"]),
        &TokenizerConfig { added_tokens_decoder: None },
        &lines(&[]),
    )
    .unwrap();
    assert_eq!(tokenizer.encode(b"aa").unwrap(), vec![0, 0]);
}

#[test]
fn ranks_that_are_no_numbers() {
    for rank in ["x", "", "+", "-1", "4294967296", "1_0", "0x1", "++1"] {
        let result = Tokenizer::from_model_and_config(
            &lines(&["YQ== 0", &format!("Yg== {}", rank)]),
            &config(&[]),
            &lines(&["["]),
        );
        assert!(matches!(result, Err(Error::ParseIntError(_))));
        let result = Tokenizer::from_model_and_config(
            &lines(&["YQ== 0"]),
            &config(&[("7", "<s>", true), (rank, "<t>", true)]),
            &lines(&["["]),
        );
        assert!(matches!(result, Err(Error::ParseIntError(_))));
    }
}

#[test]
fn the_first_bad_line_decides() {
    let load = |list: &[&str]| {
        Tokenizer::from_model_and_config(&lines(list), &config(&[("x", "", true)]), &lines(&["["]))
    };
    assert!(matches!(load(&["YQ=="]), Err(Error::InvalidModelFormat)));
    assert!(matches!(load(&[""]), Err(Error::InvalidModelFormat)));
    assert!(matches!(load(&["YQ== 0", "Yg==", "Yw== x"]), Err(Error::InvalidModelFormat)));
    assert!(matches!(load(&["YQ== 0", "Yg== x", "Yw=="]), Err(Error::ParseIntError(_))));
    assert!(matches!(load(&["YQ== 0", "Yg== "]), Err(Error::ParseIntError(_))));
    assert!(matches!(read_lines(&lines(&["YQ=="])), Err(Error::InvalidModelFormat)));
}

#[test]
fn model_patterns_that_do_not_compile() {
    let result = Tokenizer::from_model_and_config(
        &lines(&["YQ== 0"]),
        &config(&[]),
        &lines(&["a", "[", "b"]),
    );
    assert!(matches!(result, Err(Error::RegexError(_))));
}

fn model(vocab: &[(&str, Rank)], merges: Vec<HuggingFaceMerge>) -> HuggingFaceModel {
    HuggingFaceModel {
        byte_fallback: None,
        ignore_merges: None,
        vocab: vocab.iter().map(|(token, rank)| (token.to_string(), *rank)).collect(),
        merges,
    }
}

fn pair(text: &str) -> HuggingFaceMerge {
    HuggingFaceMerge::String(text.to_string())
}

fn array(parts: &[&str]) -> HuggingFaceMerge {
    HuggingFaceMerge::Array(parts.iter().map(|part| part.to_string()).collect())
}

fn regex(pattern: &str) -> HuggingFaceSubPreTokenizer {
    HuggingFaceSubPreTokenizer::Split { pattern: HuggingFacePattern::Regex(pattern.to_string()) }
}

fn metaspace(replacement: Option<&str>, scheme: Option<&str>) -> HuggingFacePreTokenizer {
    HuggingFacePreTokenizer::Metaspace {
        replacement: replacement.map(|text| text.to_string()),
        prepend_scheme: scheme.map(|text| text.to_string()),
    }
}

fn replace(pattern: &str, content: &str) -> HuggingFaceSubNormalizer {
    HuggingFaceSubNormalizer::Replace {
        pattern: HuggingFaceNormalizerPattern::String(pattern.to_string()),
        content: content.to_string(),
    }
}

fn byte_level_model() -> HuggingFaceModel {
    let vocab = [("\u{120}ab", 5), ("a", 0), ("\u{120}", 2), ("ab", 4), ("b", 1), ("\u{120}a", 3)];
    model(&vocab, vec![pair("a b"), array(&["\u{120}", "ab"]), pair("\u{120} a")])
}

fn tokenizer(
    normalizer: Option<HuggingFaceNormalizer>,
    pre_tokenizer: HuggingFacePreTokenizer,
    model: HuggingFaceModel,
) -> Result<Tokenizer, Error> {
    Tokenizer::from_tokenizer_json(&HuggingFaceTokenizer {
        added_tokens: vec![HuggingFaceAddedToken {
            id: 9,
            content: "<s>".to_string(),
            special: false,
        }],
        normalizer,
        pre_tokenizer,
        model,
    })
}

#[test]
fn byte_level_models() {
    let pre_tokenizer = HuggingFacePreTokenizer::Sequence {
        pretokenizers: vec![regex(r" ?[a-z]+"), HuggingFaceSubPreTokenizer::ByteLevel],
    };
    let tokenizer = tokenizer(None, pre_tokenizer, byte_level_model()).unwrap();
    assert_eq!(tokenizer.encode(b"ab ab aba<s>").unwrap(), vec![4, 5, 5, 0, 9]);
    assert_eq!(tokenizer.encode(b" aab").unwrap(), vec![3, 4]);
    assert_eq!(tokenizer.decode(&[5, 2, 9]).unwrap(), vec![&b" ab"[..], b" ", b"<s>"]);
}

#[test]
fn byte_level_alone_cuts_nothing() {
    let tokenizer =
        tokenizer(None, HuggingFacePreTokenizer::ByteLevel, byte_level_model()).unwrap();
    assert_eq!(tokenizer.encode(b"aba ").unwrap(), vec![4, 0, 2]);
}

#[test]
fn merges_can_be_left_out() {
    let mut model = byte_level_model();
    model.ignore_merges = Some(true);
    model.merges = vec![pair("a")];
    let tokenizer = tokenizer(None, HuggingFacePreTokenizer::ByteLevel, model).unwrap();
    assert_eq!(tokenizer.encode(b" aab").unwrap(), vec![3, 4]);
}

#[test]
fn regex_models_keep_their_tokens() {
    let vocab = [("\u{120}", 0), ("a", 1), ("a\u{120}", 2)];
    let pre_tokenizer = HuggingFacePreTokenizer::Split {
        pattern: HuggingFacePattern::Regex(r"\s+".to_string()),
    };
    let tokenizer = tokenizer(None, pre_tokenizer, model(&vocab, vec![])).unwrap();
    assert_eq!(tokenizer.encode("a\u{120}".as_bytes()).unwrap(), vec![2]);
    assert_eq!(tokenizer.decode(&[0]).unwrap(), vec!["\u{120}".as_bytes()]);
}

fn metaspace_model() -> HuggingFaceModel {
    let vocab = [
        ("_", 0),
        ("a", 1),
        ("_a", 2),
        ("<0x0A>", 3),
        ("\u{2581}b", 4),
        ("\u{E9}", 5),
        ("<0xzz>", 6),
    ];
    let mut model = model(&vocab, vec![pair("_ a")]);
    model.byte_fallback = Some(true);
    model
}

#[test]
fn a_replaced_space_is_a_metaspace() {
    let normalizer = HuggingFaceNormalizer::Replace {
        pattern: HuggingFaceNormalizerPattern::String(" ".to_string()),
        content: "_".to_string(),
    };
    let pre_tokenizer = HuggingFacePreTokenizer::Split {
        pattern: HuggingFacePattern::String(" ".to_string()),
    };
    let tokenizer = tokenizer(Some(normalizer), pre_tokenizer, metaspace_model()).unwrap();
    assert_eq!(tokenizer.encode("a a\n\u{E9}".as_bytes()).unwrap(), vec![1, 2, 3, 5]);
    assert_eq!(tokenizer.decode(&[2, 3, 6]).unwrap(), vec![&b" a"[..], b"\n", b"<0xzz>"]);
}

#[test]
fn normalizers_in_a_sequence_count_where_they_replace() {
    let normalizer = HuggingFaceNormalizer::Sequence {
        normalizers: vec![
            HuggingFaceSubNormalizer::Other,
            replace(" ", "_"),
            HuggingFaceSubNormalizer::Other,
        ],
    };
    let pre_tokenizer = HuggingFacePreTokenizer::Sequence {
        pretokenizers: vec![HuggingFaceSubPreTokenizer::Split {
            pattern: HuggingFacePattern::String(" ".to_string()),
        }],
    };
    let tokenizer = tokenizer(Some(normalizer), pre_tokenizer, metaspace_model()).unwrap();
    assert_eq!(tokenizer.encode(b" a").unwrap(), vec![2]);
}

#[test]
fn a_metaspace_may_put_a_space_in_front() {
    let with = tokenizer(None, metaspace(Some("_"), Some("always")), metaspace_model()).unwrap();
    assert_eq!(with.encode(b"a a").unwrap(), vec![2, 2]);
    assert_eq!(with.decode(&[2, 2]).unwrap().concat(), b"a a");
    let without = tokenizer(None, metaspace(Some("_"), None), metaspace_model()).unwrap();
    assert_eq!(without.encode(b"a a").unwrap(), vec![1, 2]);
    assert_eq!(without.decode(&[2, 2]).unwrap().concat(), b" a a");
}

#[test]
fn the_usual_metaspace() {
    let tokenizer = tokenizer(None, metaspace(None, None), metaspace_model()).unwrap();
    assert_eq!(tokenizer.decode(&[4, 0]).unwrap(), vec![&b" b"[..], b"_"]);
}

#[test]
fn names_of_bytes_are_tokens_without_fallback() {
    let mut model = metaspace_model();
    model.byte_fallback = Some(false);
    let tokenizer = tokenizer(None, metaspace(Some("_"), None), model).unwrap();
    assert_eq!(tokenizer.decode(&[3]).unwrap(), vec![b"<0x0A>"]);
}

#[test]
fn merges_need_two_parts() {
    for merge in [pair("ab"), array(&["ab"]), array(&[])] {
        let model = model(&[("a", 0), ("b", 1)], vec![pair("a b"), merge]);
        let result = tokenizer(None, HuggingFacePreTokenizer::ByteLevel, model);
        assert!(matches!(result, Err(Error::InvalidModelFormat)));
    }
}

#[test]
fn combinations_that_are_not_supported() {
    let split = |text: &str| HuggingFacePreTokenizer::Split {
        pattern: HuggingFacePattern::String(text.to_string()),
    };
    let once = |pattern: &str| {
        Some(HuggingFaceNormalizer::Sequence { normalizers: vec![replace(pattern, "_")] })
    };
    let model = || model(&[("a", 0)], vec![]);
    for result in [
        tokenizer(once("x"), split("x"), model()),
        tokenizer(once(" "), split("x"), model()),
        tokenizer(once("x"), split(" "), model()),
        tokenizer(once(" "), metaspace(None, None), model()),
        tokenizer(once(" "), HuggingFacePreTokenizer::ByteLevel, model()),
    ] {
        assert!(matches!(result, Err(Error::UnsupportedNormalizerPretokenizer)));
    }
}

#[test]
fn steps_that_do_not_split_at_a_pattern() {
    let model = || model(&[("a", 0)], vec![]);
    let sequence = |pretokenizers| HuggingFacePreTokenizer::Sequence { pretokenizers };
    for result in [
        tokenizer(None, sequence(vec![HuggingFaceSubPreTokenizer::Other]), model()),
        tokenizer(
            None,
            sequence(vec![HuggingFaceSubPreTokenizer::ByteLevel, regex("a")]),
            model(),
        ),
        tokenizer(
            None,
            HuggingFacePreTokenizer::Split {
                pattern: HuggingFacePattern::String(" ".to_string()),
            },
            model(),
        ),
    ] {
        assert!(matches!(result, Err(Error::UnexpectedNonRegexSplitter)));
    }
}

#[test]
fn missing_steps() {
    let model = || model(&[("a", 0)], vec![]);
    let twice = HuggingFaceNormalizer::Sequence {
        normalizers: vec![replace(" ", "_"), replace("x", "y")],
    };
    for result in [
        tokenizer(None, HuggingFacePreTokenizer::Other, model()),
        tokenizer(
            Some(HuggingFaceNormalizer::Other),
            HuggingFacePreTokenizer::Sequence { pretokenizers: vec![] },
            model(),
        ),
        tokenizer(Some(twice), HuggingFacePreTokenizer::ByteLevel, model()),
    ] {
        assert!(matches!(result, Err(Error::MissingNormalizerPretokenizer)));
    }
}

#[test]
fn patterns_are_compiled_before_merges_are_read() {
    let model = model(&[("a", 0)], vec![pair("a")]);
    let pre_tokenizer = HuggingFacePreTokenizer::Sequence {
        pretokenizers: vec![regex("a"), regex("[")],
    };
    assert!(matches!(tokenizer(None, pre_tokenizer, model), Err(Error::RegexError(_))));
}

#[test]
fn of_equal_ranks_the_later_token_is_decoded() {
    let model = model(&[("b", 1), ("a", 1), ("c", 0)], vec![]);
    let tokenizer = tokenizer(None, HuggingFacePreTokenizer::ByteLevel, model).unwrap();
    assert_eq!(tokenizer.decode(&[0, 1]).unwrap(), vec![b"c", b"a"]);
    assert_eq!(tokenizer.encode(b"abc").unwrap(), vec![1, 1, 0]);
}

#[test]
fn models_that_cannot_be_used() {
    assert!(tekken("a").is_loadable());
    assert!(!tekken(r"(?=(?1))(a\K)").is_loadable());
    assert!(are_steady(&lines(&["a", r"\K"])));
    assert!(!are_steady(&lines(&["a", r"(?=(?1))(a\K)"])));
    assert!(is_model_loadable(&lines(&["YQ== 0"]), &config(&[]), &lines(&["a"])));
    assert!(is_model_loadable(&lines(&["YQ==="]), &config(&[]), &lines(&[r"(?=(?1))(a\K)"])));
    assert!(!is_model_loadable(&lines(&[]), &config(&[]), &lines(&[r"(?=(?1))(a\K)"])));
    assert!(is_model_loadable(&lines(&["YQ== x"]), &config(&[]), &lines(&[r"(?=(?1))(a\K)"])));
    assert!(Tokenizer::load_tekken(&tekken(r"(?=(?1))(a\K)")).is_none());
    let unsteady = lines(&["a", r"(?=(?1))(a\K)"]);
    assert!(Tokenizer::load_model_and_config(&lines(&[]), &config(&[]), &unsteady).is_none());
}

#[test]
fn a_pattern_that_does_not_compile_is_refused_whatever_else_is_wrong() {
    let pattern = r"(?=(?1))(a\K)[";
    let result = Tokenizer::load_tekken(&tekken(pattern)).unwrap();
    assert!(matches!(result, Err(Error::RegexError(_))));
    let result = Tokenizer::from_tekken(&tekken(pattern));
    assert!(matches!(result, Err(Error::RegexError(_))));
    let patterns = lines(&[r"(?=(?1))(a\K)", "["]);
    let result = Tokenizer::load_model_and_config(&lines(&[]), &config(&[]), &patterns).unwrap();
    assert!(matches!(result, Err(Error::RegexError(_))));
    let content = HuggingFaceTokenizer {
        added_tokens: vec![],
        normalizer: None,
        pre_tokenizer: HuggingFacePreTokenizer::Sequence {
            pretokenizers: vec![regex("["), HuggingFaceSubPreTokenizer::ByteLevel],
        },
        model: model(&[("a", 0)], vec![pair("a ")]),
    };
    assert!(content.is_loadable());
    let result = Tokenizer::load_tokenizer_json(&content).unwrap();
    assert!(matches!(result, Err(Error::RegexError(_))));
}

#[test]
fn models_that_can_be_used_are_loaded() {
    let tokenizer = Tokenizer::load_tekken(&tekken("a+b?|b+")).unwrap().unwrap();
    assert_eq!(tokenizer.encode(b"abb").unwrap(), vec![2, 1]);
    let tokenizer = Tokenizer::load_model_and_config(
        &lines(&["YQ== 0", "Yg== 1", "YWI= 2"]),
        &config(&[("3", "<s>", true)]),
        &lines(&["[ab]+"]),
    );
    assert_eq!(tokenizer.unwrap().unwrap().encode(b"ab<s>a").unwrap(), vec![2, 3, 0]);
    let content = HuggingFaceTokenizer {
        added_tokens: vec![],
        normalizer: None,
        pre_tokenizer: HuggingFacePreTokenizer::ByteLevel,
        model: model(&[("a", 0), ("b", 1), ("ab", 2)], vec![pair("a b")]),
    };
    let tokenizer = Tokenizer::load_tokenizer_json(&content).unwrap().unwrap();
    assert_eq!(tokenizer.encode(b"abb").unwrap(), vec![2, 1]);
    let result = Tokenizer::load_model_and_config(&lines(&["YQ=="]), &config(&[]), &lines(&[]));
    assert!(matches!(result, Some(Err(Error::InvalidModelFormat))));
}

#[test]
fn a_merge_that_adds_nothing_cannot_be_used() {
    let content = |merges| HuggingFaceTokenizer {
        added_tokens: vec![],
        normalizer: None,
        pre_tokenizer: HuggingFacePreTokenizer::ByteLevel,
        model: model(&[("a", 0), ("b", 1)], merges),
    };
    assert!(content(vec![pair("a b"), pair("c "), pair(" a")]).is_loadable());
    assert!(!content(vec![pair("a b"), pair("a ")]).is_loadable());
    assert!(Tokenizer::load_tokenizer_json(&content(vec![pair("a ")])).is_none());
    assert!(content(vec![pair("a "), pair("ab")]).is_loadable());
}

#[test]
fn tokens_on_lines() {
    let tokens = read_lines(&lines(&["YWI= 7", "< 0"])).unwrap();
    let list: Vec<(Vec<u8>, Rank)> =
        tokens.into_iter().map(|token| (token.bytes, token.rank)).collect();
    assert_eq!(list, vec![(b"ab".to_vec(), 7), (b"<".to_vec(), 0)]);
    assert!(matches!(read_lines(&lines(&["YQ== 1.0"])), Err(Error::ParseIntError(_))));
}

#[test]
fn two_spellings_load_alike() {
    let bare = tokenizer(
        Some(HuggingFaceNormalizer::Replace {
            pattern: HuggingFaceNormalizerPattern::String(" ".to_string()),
            content: "_".to_string(),
        }),
        HuggingFacePreTokenizer::Split {
            pattern: HuggingFacePattern::String(" ".to_string()),
        },
        metaspace_model(),
    )
    .unwrap();
    let mut model = metaspace_model();
    model.vocab.reverse();
    model.merges = vec![array(&["_", "a"])];
    let sequences = tokenizer(
        Some(HuggingFaceNormalizer::Sequence {
            normalizers: vec![HuggingFaceSubNormalizer::Other, replace(" ", "_")],
        }),
        HuggingFacePreTokenizer::Sequence {
            pretokenizers: vec![HuggingFaceSubPreTokenizer::Split {
                pattern: HuggingFacePattern::String(" ".to_string()),
            }],
        },
        model,
    )
    .unwrap();
    let all: Vec<Rank> = (0..10).collect();
    assert_eq!(bare.decode(&all).unwrap(), sequences.decode(&all).unwrap());
    for text in ["a a\n", " a<s>a", "\u{E9} a"] {
        let ranks = bare.encode(text.as_bytes()).unwrap();
        assert_eq!(sequences.encode(text.as_bytes()).unwrap(), ranks);
    }
    let other = HuggingFacePreTokenizer::Sequence {
        pretokenizers: vec![HuggingFaceSubPreTokenizer::ByteLevel],
    };
    let ranks = tokenizer(None, other, byte_level_model()).unwrap().encode(b" aba").unwrap();
    let alone = tokenizer(None, HuggingFacePreTokenizer::ByteLevel, byte_level_model()).unwrap();
    assert_eq!(alone.encode(b" aba").unwrap(), ranks);
}
