use keep_talkin::splitters::{cut_all, split_at, split_found, Split, Splitter};
use keep_talkin::words::WordSplitter;
use keep_talkin::{Error, Rank, Token, Tokenizer};

fn tokens(list: &[(&[u8], Rank)]) -> Vec<Token> {
    list.iter().map(|(bytes, rank)| Token { bytes: bytes.to_vec(), rank: *rank }).collect()
}

fn bytes_tokenizer(vocab: &[(&[u8], Rank)], specials: &[(&[u8], Rank)]) -> Tokenizer {
    Tokenizer::from_vocab_and_splitters(
        tokens(vocab),
        tokens(specials),
        None,
        None,
        vec![],
        WordSplitter::Bytes,
    )
    .unwrap()
}

fn with_merges(vocab: &[(&[u8], Rank)], merges: &[(&[u8], &[u8])]) -> Tokenizer {
    let merges = merges.iter().map(|(left, right)| (left.to_vec(), right.to_vec())).collect();
    Tokenizer::from_vocab_and_splitters(
        tokens(vocab),
        vec![],
        Some(merges),
        None,
        vec![],
        WordSplitter::Bytes,
    )
    .unwrap()
}

fn pattern_tokenizer(pattern: &str) -> Tokenizer {
    let mut vocab: Vec<Token> =
        (0..=255u8).map(|byte| Token { bytes: vec![byte], rank: Rank::from(byte) }).collect();
    vocab.push(Token { bytes: b"ab".to_vec(), rank: 256 });
    vocab.push(Token { bytes: b"b ".to_vec(), rank: 257 });
    Tokenizer::from_vocab_and_splitters(
        vocab,
        tokens(&[(b"<s>", 300)]),
        None,
        None,
        vec![Splitter::from_regex_pattern(pattern).unwrap()],
        WordSplitter::Bytes,
    )
    .unwrap()
}

fn ranges(splits: &[Split]) -> Vec<(bool, usize, usize)> {
    splits
        .iter()
        .map(|split| match split {
            Split::Literal(range) => (true, range.start, range.end),
            Split::Bytes(range) => (false, range.start, range.end),
        })
        .collect()
}

const LETTERS: &[(&[u8], Rank)] = &[(b"a", 0), (b"b", 1), (b"c", 2), (b"ab", 3), (b"bc", 4)];

#[test]
fn lower_ranks_are_merged_first() {
    assert_eq!(bytes_tokenizer(LETTERS, &[]).encode(b"abc").unwrap(), vec![3, 2]);
    let other: &[(&[u8], Rank)] = &[(b"a", 0), (b"b", 1), (b"c", 2), (b"ab", 4), (b"bc", 3)];
    assert_eq!(bytes_tokenizer(other, &[]).encode(b"abc").unwrap(), vec![0, 3]);
}

#[test]
fn listed_merges_come_first() {
    let tokenizer = with_merges(LETTERS, &[(b"b", b"c"), (b"a", b"b")]);
    assert_eq!(tokenizer.encode(b"abc").unwrap(), vec![0, 4]);
    let tokenizer = with_merges(LETTERS, &[(b"b", b"c")]);
    assert_eq!(tokenizer.encode(b"abc").unwrap(), vec![0, 4]);
    let tokenizer = with_merges(LETTERS, &[(b"a", b"b"), (b"b", b"c")]);
    assert_eq!(tokenizer.encode(b"abc").unwrap(), vec![3, 2]);
}

#[test]
fn priority_depends_on_the_left_part() {
    let vocab: &[(&[u8], Rank)] =
        &[(b"a", 0), (b"b", 1), (b"c", 2), (b"aa", 3), (b"bc", 4), (b"aab", 5)];
    assert_eq!(with_merges(vocab, &[]).encode(b"aabc").unwrap(), vec![3, 4]);
    assert_eq!(with_merges(vocab, &[(b"aa", b"b")]).encode(b"aabc").unwrap(), vec![5, 2]);
    assert_eq!(with_merges(vocab, &[(b"a", b"ab")]).encode(b"aabc").unwrap(), vec![3, 4]);
}

#[test]
fn merges_of_unknown_tokens_count_for_nothing() {
    let tokenizer = with_merges(LETTERS, &[(b"c", b"a"), (b"z", b""), (b"b", b"c")]);
    assert_eq!(tokenizer.encode(b"cabc").unwrap(), vec![2, 0, 4]);
}

#[test]
fn the_leftmost_of_equal_merges_is_made() {
    let tokenizer = bytes_tokenizer(&[(b"a", 0), (b"aa", 1)], &[]);
    assert_eq!(tokenizer.encode(b"aaa").unwrap(), vec![1, 0]);
    assert_eq!(tokenizer.encode(b"aaaa").unwrap(), vec![1, 1]);
    assert_eq!(tokenizer.encode(b"a").unwrap(), vec![0]);
}

#[test]
fn merges_build_on_merges() {
    let vocab: &[(&[u8], Rank)] = &[
        (b"a", 0),
        (b"b", 1),
        (b"ab", 2),
        (b"abab", 3),
        (b"ababab", 4),
        (b"c", 5),
    ];
    let tokenizer = bytes_tokenizer(vocab, &[]);
    assert_eq!(tokenizer.encode(b"ababababc").unwrap(), vec![3, 3, 5]);
    assert_eq!(tokenizer.encode(b"abababc").unwrap(), vec![4, 5]);
}

#[test]
fn a_piece_that_is_a_token_is_not_taken_apart() {
    let vocab: &[(&[u8], Rank)] = &[(b"a", 0), (b"b", 1), (b"c", 2), (b"ab", 3), (b"abc", 9)];
    let tokenizer = with_merges(vocab, &[]);
    assert_eq!(tokenizer.encode(b"abc").unwrap(), vec![9]);
    let unreachable: &[(&[u8], Rank)] = &[(b"a", 0), (b"b", 1), (b"aba", 7)];
    assert_eq!(bytes_tokenizer(unreachable, &[]).encode(b"aba").unwrap(), vec![7]);
    assert_eq!(bytes_tokenizer(unreachable, &[]).encode(b"abab").unwrap(), vec![0, 1, 0, 1]);
}

#[test]
fn the_later_of_two_tokens_with_the_same_bytes_counts() {
    let tokenizer = bytes_tokenizer(&[(b"a", 0), (b"a", 5)], &[]);
    assert_eq!(tokenizer.encode(b"a").unwrap(), vec![5]);
    assert_eq!(tokenizer.decode(&[0, 5]).unwrap(), vec![b"a", b"a"]);
}

#[test]
fn special_tokens_are_cut_out() {
    let tokenizer = bytes_tokenizer(LETTERS, &[(b"<s>", 10), (b"<s", 11), (b"b<", 12)]);
    assert_eq!(tokenizer.encode(b"a<s>ab").unwrap(), vec![0, 10, 3]);
    assert_eq!(tokenizer.encode(b"a<sc").unwrap(), vec![0, 11, 2]);
    assert_eq!(tokenizer.encode(b"<s>").unwrap(), vec![10]);
    assert_eq!(tokenizer.encode(b"<s><s>").unwrap(), vec![10, 10]);
    assert!(matches!(tokenizer.encode(b"ab<s>"), Err(Error::NoValidToken(text)) if text == "s"));
}

#[test]
fn a_literal_is_a_special_token_before_a_token() {
    let tokenizer = bytes_tokenizer(LETTERS, &[(b"ab", 10)]);
    assert_eq!(tokenizer.encode(b"abc").unwrap(), vec![10, 2]);
}

#[test]
fn an_empty_special_token_stands_between_bytes() {
    let tokenizer = bytes_tokenizer(LETTERS, &[(b"", 10)]);
    assert_eq!(tokenizer.encode(b"ab").unwrap(), vec![10, 0, 10, 1, 10]);
    assert_eq!(tokenizer.encode(b"").unwrap(), vec![10]);
}

#[test]
fn an_empty_special_token_beside_a_longer_one() {
    let tokenizer = bytes_tokenizer(LETTERS, &[(b"", 10), (b"ab", 11)]);
    assert_eq!(tokenizer.encode(b"aab").unwrap(), vec![0, 11]);
    assert_eq!(tokenizer.encode(b"ab").unwrap(), vec![11]);
    assert_eq!(tokenizer.encode(b"").unwrap(), vec![10]);
    let tokenizer = bytes_tokenizer(LETTERS, &[(b"", 10), (b"abc", 11)]);
    assert_eq!(tokenizer.encode(b"ab").unwrap(), vec![3, 10]);
    assert_eq!(tokenizer.encode(b"abc").unwrap(), vec![11]);
    for text in [&b"aab"[..], b"abcab", b"cabca", b"bcbc"] {
        let ranks = tokenizer.encode(text).unwrap();
        assert_eq!(tokenizer.decode(&ranks).unwrap().concat(), text);
    }
}

#[test]
fn the_empty_text_has_no_tokens() {
    let none: Vec<Rank> = vec![];
    assert_eq!(bytes_tokenizer(LETTERS, &[(b"<s>", 10)]).encode(b"").unwrap(), none);
    assert_eq!(pattern_tokenizer(r"\w+").encode(b"").unwrap(), none);
}

#[test]
fn bytes_without_a_token_are_named() {
    let tokenizer = bytes_tokenizer(LETTERS, &[]);
    assert!(matches!(tokenizer.encode(b"abz"), Err(Error::NoValidToken(text)) if text == "z"));
    assert!(matches!(tokenizer.encode(b"xyz"), Err(Error::NoValidToken(text)) if text == "x"));
    let error = tokenizer.encode("a\u{E9}".as_bytes());
    assert!(matches!(error, Err(Error::NoValidToken(text)) if text == "\u{FFFD}"));
}

#[test]
fn words_are_characters_where_they_are_tokens() {
    let vocab = tokens(&[
        ("\u{E9}".as_bytes(), 0),
        (&[0xC3], 1),
        (&[0xA8], 2),
        (b"a", 3),
        (&[0xE2], 4),
        ("\u{2581}a".as_bytes(), 5),
        ("\u{2581}".as_bytes(), 6),
    ]);
    let tokenizer = Tokenizer::from_vocab_and_splitters(
        vocab,
        vec![],
        None,
        None,
        vec![],
        WordSplitter::Unicode,
    )
    .unwrap();
    assert_eq!(tokenizer.encode("\u{E9}\u{E8}a".as_bytes()).unwrap(), vec![0, 1, 2, 3]);
    assert_eq!(tokenizer.encode("a\u{2581}a".as_bytes()).unwrap(), vec![3, 5]);
    assert_eq!(tokenizer.encode(&[0xE2, 0x61]).unwrap(), vec![4, 3]);
    assert_eq!(tokenizer.encode(&[0x61, 0xE2]).unwrap(), vec![3, 4]);
    let error = tokenizer.encode("\u{2580}".as_bytes());
    assert!(matches!(error, Err(Error::NoValidToken(text)) if text == "\u{FFFD}"));
}

#[test]
fn delimiters_begin_pieces() {
    let splitters = vec![Splitter::Delimiter(b' ')];
    let cut = |text: &[u8]| ranges(&cut_all(&splitters, text).unwrap());
    assert_eq!(cut(b"ab  c d"), vec![(false, 0, 2), (false, 2, 5), (false, 5, 7)]);
    assert_eq!(cut(b"  a b "), vec![(false, 0, 3), (false, 3, 5), (false, 5, 6)]);
    assert_eq!(cut(b""), vec![(false, 0, 0)]);
    assert_eq!(cut(b"   "), vec![(false, 0, 3)]);
}

#[test]
fn patterns_cut_text() {
    let splitters = vec![Splitter::from_regex_pattern(r"\d+").unwrap(), Splitter::Delimiter(b' ')];
    let text = b"ab 12 c3";
    let splits = cut_all(&splitters, text).unwrap();
    assert_eq!(
        ranges(&splits),
        vec![
            (false, 0, 2),
            (false, 2, 3),
            (false, 3, 5),
            (false, 5, 7),
            (false, 7, 8)
        ]
    );
    let splitter = Splitter::from_regex_pattern(r"\p{Lu}").unwrap();
    let mut output = vec![];
    splitter.split("a\u{C9}b".as_bytes(), 10, &mut output).unwrap();
    assert_eq!(ranges(&output), vec![(false, 10, 11), (false, 11, 13), (false, 13, 14)]);
}

#[test]
fn spans_and_what_is_between_them_are_pieces() {
    let mut output = vec![Split::Bytes(0..5)];
    split_at(&vec![(1, 3), (3, 3), (4, 6)], 7, true, 5, &mut output);
    assert_eq!(
        ranges(&output),
        vec![
            (false, 0, 5),
            (false, 5, 6),
            (true, 6, 8),
            (true, 8, 8),
            (false, 8, 9),
            (true, 9, 11),
            (false, 11, 12)
        ]
    );
}

#[test]
fn tokens_do_not_cross_pieces() {
    let tokenizer = pattern_tokenizer(r"[a-z]+|\s+");
    assert_eq!(tokenizer.encode(b"ab ab<s>b").unwrap(), vec![256, 32, 256, 300, 98]);
    assert_eq!(tokenizer.encode(b"b !").unwrap(), vec![98, 32, 33]);
    let tokenizer = pattern_tokenizer(r"[a-z ]+");
    assert_eq!(tokenizer.encode(b"b b ").unwrap(), vec![257, 257]);
}

#[test]
fn tokens_of_given_pieces() {
    let tokenizer = bytes_tokenizer(LETTERS, &[(b"c", 10)]);
    let splits = vec![Split::Bytes(0..2), Split::Literal(2..3), Split::Bytes(3..4)];
    assert_eq!(tokenizer.encode_splits(b"abcc", &splits).unwrap(), vec![3, 10, 2]);
    let splits = vec![Split::Bytes(0..1), Split::Literal(1..3)];
    assert_eq!(tokenizer.encode_splits(b"abc", &splits).unwrap(), vec![0, 4]);
    let splits = vec![Split::Literal(0..3)];
    let error = tokenizer.encode_splits(b"abc", &splits);
    assert!(matches!(error, Err(Error::NoValidToken(text)) if text == "abc"));
}

#[test]
fn a_search_can_be_given_up() {
    let tokenizer = pattern_tokenizer(r"(?:a+)+[cd]");
    let mut text = vec![b'a'; 60];
    text.push(b'b');
    assert!(matches!(tokenizer.encode(&text), Err(Error::RegexError(_))));
    let mut output = vec![];
    let splitter = Splitter::from_regex_pattern(r"(?:a+)+[cd]").unwrap();
    assert!(matches!(splitter.split(&text, 0, &mut output), Err(Error::RegexError(_))));
    assert!(output.is_empty());
    let later = [&b"bac"[..], &text].concat();
    assert!(matches!(splitter.split(&later, 5, &mut output), Err(Error::RegexError(_))));
    assert_eq!(ranges(&output), vec![(false, 5, 6), (false, 6, 8)]);
}

fn code(error: Error) -> i32 {
    assert!(!error.is_out_of_memory());
    match error {
        Error::RegexError(error) => error.code(),
        other => panic!("{other:?}"),
    }
}

#[test]
fn a_search_is_given_up_alike_each_time() {
    let pattern = r"(?:a+)+[cd]";
    let tokenizer = pattern_tokenizer(pattern);
    let text = [vec![b'a'; 60], vec![b'b']].concat();
    assert_eq!(code(tokenizer.encode(&text).unwrap_err()), -47);
    assert_eq!(code(tokenizer.encode(&text).unwrap_err()), -47);
    assert_eq!(code(tokenizer.encode_batch(&vec![b"ac", &text[..]]).unwrap_err()), -47);
    let splitter = Splitter::from_regex_pattern(pattern).unwrap();
    let later = [&b"bac"[..], &text].concat();
    let (mut alone, mut output) = (vec![], vec![Split::Literal(0..5)]);
    assert_eq!(code(splitter.split(&later, 0, &mut alone).unwrap_err()), -47);
    assert_eq!(code(splitter.split(&later, 5, &mut output).unwrap_err()), -47);
    assert_eq!(ranges(&alone), vec![(false, 0, 1), (false, 1, 3)]);
    assert_eq!(ranges(&output), vec![(true, 0, 5), (false, 5, 6), (false, 6, 8)]);
}

#[test]
fn other_errors_are_not_for_want_of_memory() {
    assert!(!Error::InvalidModelFormat.is_out_of_memory());
    assert!(!Splitter::from_regex_pattern("(").err().unwrap().is_out_of_memory());
}

#[test]
fn patterns_pass_over_bytes_that_are_no_characters() {
    let tokenizer = pattern_tokenizer(r"\w+");
    assert_eq!(tokenizer.encode(&[0xFF, 0x61, 0x62, 0xE2]).unwrap(), vec![255, 256, 226]);
}

#[test]
fn patterns_that_do_not_compile() {
    assert!(matches!(Splitter::from_regex_pattern("("), Err(Error::RegexError(_))));
    assert!(matches!(Splitter::from_regex_pattern(r"(?=a\K)"), Err(Error::RegexError(_))));
}

#[test]
fn unknown_ranks_are_passed_over() {
    let tokenizer = bytes_tokenizer(&[(b"a", 0), (b"b", 2)], &[(b"<s>", 4), (b"<t>", 1)]);
    assert_eq!(tokenizer.decode(&[0, 2, 4, 9, 0]).unwrap(), vec![&b"a"[..], b"b", b"<s>", b"a"]);
    assert_eq!(tokenizer.decode(&[1, 3]).unwrap(), vec![&b""[..], b""]);
    assert_eq!(tokenizer.decode(&[]).unwrap(), Vec::<&[u8]>::new());
}

#[test]
fn the_prefix_goes_before_and_comes_off() {
    let tokenizer = Tokenizer::from_vocab_and_splitters(
        tokens(&[(b" ", 0), (b"a", 1), (b" a", 2), (b"b", 3)]),
        vec![],
        None,
        Some(b" ".to_vec()),
        vec![Splitter::Delimiter(b' ')],
        WordSplitter::Unicode,
    )
    .unwrap();
    assert_eq!(tokenizer.encode(b"ab a").unwrap(), vec![2, 3, 2]);
    assert_eq!(tokenizer.encode(b"").unwrap(), vec![0]);
    assert_eq!(tokenizer.decode(&[2, 3, 2]).unwrap(), vec![&b"a"[..], b"b", b" a"]);
    assert_eq!(tokenizer.decode(&[0]).unwrap(), vec![&b""[..]]);
    assert_eq!(tokenizer.decode(&[1, 0]).unwrap(), vec![&b"a"[..], b" "]);
}

#[test]
fn decoding_undoes_encoding() {
    let tokenizer = pattern_tokenizer(r"\s+(?!\S)|\p{L}+|\p{N}{1,3}| ?[^\s\p{L}\p{N}]+");
    for text in ["", "ab ab", "  b \n1234 <s>!", "\u{E9}t\u{E9} \u{1F600}", "<s><s"] {
        let ranks = tokenizer.encode(text.as_bytes()).unwrap();
        assert_eq!(tokenizer.decode(&ranks).unwrap().concat(), text.as_bytes());
        assert!(ranks.len() <= text.len());
    }
}

#[test]
fn a_special_rank_inside_the_vocabulary_is_lost() {
    let tokenizer = bytes_tokenizer(&[(b"a", 0), (b"b", 5)], &[(b"<s>", 3)]);
    let ranks = tokenizer.encode(b"<s>").unwrap();
    assert_eq!(ranks, vec![3]);
    assert_eq!(tokenizer.decode(&ranks).unwrap().concat(), b"");
}

#[test]
fn batches_are_encoded_text_by_text() {
    let tokenizer = pattern_tokenizer(r"[a-z]+|\s+");
    let texts: Vec<&[u8]> = vec![b"ab ab", b"", b"<s>b", b"b "];
    let batch = tokenizer.encode_batch(&texts).unwrap();
    let each: Vec<Vec<Rank>> = texts.iter().map(|text| tokenizer.encode(text).unwrap()).collect();
    assert_eq!(batch, each);
    let ranks: Vec<&[Rank]> = batch.iter().map(|ranks| ranks.as_slice()).collect();
    let decoded = tokenizer.decode_batch(&ranks).unwrap();
    let joined: Vec<Vec<u8>> = decoded.iter().map(|rows| rows.concat()).collect();
    assert_eq!(joined, texts);
}

#[test]
fn an_error_in_a_batch_is_the_error_of_the_batch() {
    let tokenizer = bytes_tokenizer(LETTERS, &[]);
    let texts: Vec<&[u8]> = vec![b"ab", b"az", b"c"];
    let error = tokenizer.encode_batch(&texts);
    assert!(matches!(error, Err(Error::NoValidToken(text)) if text == "z"));
}

#[test]
fn decoding_goes_rank_by_rank() {
    let tokenizer = bytes_tokenizer(LETTERS, &[(b"<s>", 10)]);
    let (first, second): (&[Rank], &[Rank]) = (&[3, 99, 10], &[2, 4]);
    let both: Vec<Rank> = [first, second].concat();
    let rows = tokenizer.decode(&both).unwrap();
    let apart = [tokenizer.decode(first).unwrap(), tokenizer.decode(second).unwrap()].concat();
    assert_eq!(rows, apart);
    assert_eq!(rows, vec![&b"ab"[..], b"<s>", b"c", b"bc"]);
}

#[test]
fn no_two_neighbours_make_a_token() {
    let vocab: &[(&[u8], Rank)] =
        &[(b"a", 0), (b"b", 1), (b"ab", 2), (b"ba", 3), (b"aba", 4), (b"bab", 5), (b"bb", 6)];
    let tokenizer = bytes_tokenizer(vocab, &[]);
    for text in [&b"abababab"[..], b"bbabbbaab", b"aaaa", b"babbab"] {
        let ranks = tokenizer.encode(text).unwrap();
        let rows = tokenizer.decode(&ranks).unwrap();
        for pair in rows.windows(2) {
            assert!(vocab.iter().all(|(bytes, _)| pair.concat() != *bytes));
        }
        assert_eq!(rows.concat(), text);
    }
}

#[test]
fn each_text_has_tokens_where_each_byte_is_one() {
    let tokenizer = pattern_tokenizer(r"\s+|\S+");
    let text: Vec<u8> = (0..=255u8).rev().collect();
    let ranks: Vec<Rank> = (0..=255).rev().collect();
    assert_eq!(tokenizer.encode(&text).unwrap(), ranks);
}

#[test]
fn a_given_up_search_leaves_what_it_found() {
    let mut output = vec![];
    let failure = Some(Error::InvalidModelFormat);
    let result = split_found(&vec![(1, 3), (4, 5)], failure, 9, 2, &mut output);
    assert!(matches!(result, Err(Error::InvalidModelFormat)));
    let found = vec![(false, 2, 3), (false, 3, 5), (false, 5, 6), (false, 6, 7)];
    assert_eq!(ranges(&output), found);
    let mut output = vec![];
    assert!(split_found(&vec![(1, 3), (4, 5)], None, 9, 2, &mut output).is_ok());
    assert_eq!(ranges(&output), [found, vec![(false, 7, 11)]].concat());
}

#[test]
fn splitting_at_an_offset_is_splitting_moved() {
    for splitter in [
        Splitter::Delimiter(b' '),
        Splitter::from_regex_pattern(r"\w+|\s").unwrap(),
    ] {
        let (mut alone, mut output) = (vec![], vec![Split::Literal(0..7)]);
        splitter.split(b"ab  c d", 0, &mut alone).unwrap();
        splitter.split(b"ab  c d", 7, &mut output).unwrap();
        let moved: Vec<(bool, usize, usize)> = ranges(&alone)
            .iter()
            .map(|(literal, start, end)| (*literal, start + 7, end + 7))
            .collect();
        assert_eq!(ranges(&output), [vec![(true, 0, 7)], moved].concat());
    }
}

#[test]
fn a_special_token_separates_its_sides() {
    let tokenizer = pattern_tokenizer(r"[a-z]+|\s+");
    for (a, b) in [("ab a", "b ab"), ("", "x<s>y"), ("a<", ""), (" b ", "s>")] {
        let whole = [a, "<s>", b].concat();
        let mut expected = tokenizer.encode(a.as_bytes()).unwrap();
        expected.push(300);
        expected.extend(tokenizer.encode(b.as_bytes()).unwrap());
        assert_eq!(tokenizer.encode(whole.as_bytes()).unwrap(), expected);
    }
}

#[test]
fn a_prefix_is_text_in_front() {
    let build = |prefix: Option<Vec<u8>>| {
        Tokenizer::from_vocab_and_splitters(
            tokens(LETTERS),
            tokens(&[(b"ca", 9)]),
            None,
            prefix,
            vec![],
            WordSplitter::Bytes,
        )
        .unwrap()
    };
    let (with, without) = (build(Some(b"bc".to_vec())), build(None));
    for text in ["", "a", "bca", "cab"] {
        let whole = ["bc", text].concat();
        let expected = without.encode(whole.as_bytes()).unwrap();
        assert_eq!(with.encode(text.as_bytes()).unwrap(), expected);
    }
    let error = with.encode(b"z");
    assert!(matches!(error, Err(Error::NoValidToken(text)) if text == "z"));
}

#[test]
fn merges_that_make_no_token_can_be_left_out() {
    let idle = with_merges(
        LETTERS,
        &[(b"c", b"c"), (b"b", b"c"), (b"ab", b"c"), (b"a", b"b"), (b"z", b"z")],
    );
    let useful = with_merges(LETTERS, &[(b"b", b"c"), (b"a", b"b")]);
    let (empty, none) = (with_merges(LETTERS, &[]), bytes_tokenizer(LETTERS, &[]));
    for text in [&b"abc"[..], b"aabcc", b"cabcab", b"bcbcab"] {
        assert_eq!(idle.encode(text).unwrap(), useful.encode(text).unwrap());
        assert_eq!(empty.encode(text).unwrap(), none.encode(text).unwrap());
    }
}
