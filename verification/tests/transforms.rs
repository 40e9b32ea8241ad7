use keep_talkin::order::order_by_rank;
use keep_talkin::search::is_steady;
use keep_talkin::text::{chars_of, first_two_parts, replace_by_space};
use keep_talkin::transforms::{
    decode_base64_tokens, parse_fallback_byte, reverse_byte_level, reverse_sentence_piece,
};

#[test]
fn byte_level_characters_stand_for_bytes() {
    assert_eq!(reverse_byte_level("\u{120}hello"), b" hello".to_vec());
    assert_eq!(reverse_byte_level("\u{100}\u{10A}"), vec![0, 10]);
    assert_eq!(reverse_byte_level("\u{121}\u{142}\u{143}"), vec![127, 160, 173]);
    assert_eq!(reverse_byte_level("!~\u{A1}\u{AC}\u{AE}\u{FF}"), vec![33, 126, 161, 172, 174, 255]);
    assert_eq!(reverse_byte_level(""), Vec::<u8>::new());
}

#[test]
fn other_characters_stand_for_their_lowest_byte() {
    assert_eq!(reverse_byte_level("\u{144}\u{17F}"), vec![0x44, 0x7F]);
    assert_eq!(reverse_byte_level(" \u{7F}\u{AD}"), vec![0x20, 0x7F, 0xAD]);
    assert_eq!(reverse_byte_level("\u{2581}\u{1F600}"), vec![0x81, 0x00]);
}

#[test]
fn each_byte_has_a_byte_level_character() {
    for byte in 0..=255u8 {
        let number = match byte {
            33..=126 | 161..=172 | 174..=255 => u32::from(byte),
            0..=32 => 0x100 + u32::from(byte),
            127..=160 => 0x121 + u32::from(byte) - 127,
            173 => 0x143,
        };
        let token = char::from_u32(number).unwrap().to_string();
        assert_eq!(reverse_byte_level(&token), vec![byte]);
    }
}

#[test]
fn tokens_in_brackets_are_kept() {
    assert_eq!(reverse_byte_level("<\u{120}>"), "<\u{120}>".as_bytes().to_vec());
    assert_eq!(reverse_sentence_piece("<\u{2581}>", "\u{2581}"), "<\u{2581}>".as_bytes().to_vec());
    assert_eq!(decode_base64_tokens("<QQ==>"), b"<QQ==>".to_vec());
    assert_eq!(reverse_byte_level("<\u{120}"), b"< ".to_vec());
    assert_eq!(reverse_byte_level("\u{120}>"), b" >".to_vec());
}

#[test]
fn sentence_pieces_have_marks_for_spaces() {
    assert_eq!(reverse_sentence_piece("\u{2581}the\u{2581}cat", "\u{2581}"), b" the cat".to_vec());
    assert_eq!(reverse_sentence_piece("caf\u{E9}", "\u{2581}"), "caf\u{E9}".as_bytes().to_vec());
    assert_eq!(reverse_sentence_piece("", "\u{2581}"), Vec::<u8>::new());
}

#[test]
fn occurrences_are_replaced_from_the_left() {
    assert_eq!(replace_by_space("aaa", "aa"), b" a".to_vec());
    assert_eq!(replace_by_space("ababa", "aba"), b" ba".to_vec());
    assert_eq!(replace_by_space("ab", ""), b" a b ".to_vec());
    assert_eq!(replace_by_space("", ""), b" ".to_vec());
    assert_eq!(replace_by_space("abc", "abcd"), b"abc".to_vec());
}

#[test]
fn base64_tokens_are_decoded() {
    assert_eq!(decode_base64_tokens("aGVsbG8="), b"hello".to_vec());
    assert_eq!(decode_base64_tokens("QQ=="), b"A".to_vec());
    assert_eq!(decode_base64_tokens("AP8+"), vec![0, 255, 62]);
    assert_eq!(decode_base64_tokens("////"), vec![255, 255, 255]);
    assert_eq!(decode_base64_tokens(""), Vec::<u8>::new());
}

#[test]
fn text_that_is_not_base64_is_kept() {
    for text in ["QR==", "QQ", "QQ=", "QQ===", "Q", "Q Q=", "QQ==\n", "-_-_", "caf\u{E9}", "===="] {
        assert_eq!(decode_base64_tokens(text), text.as_bytes().to_vec());
    }
}

#[test]
fn names_of_bytes() {
    assert_eq!(parse_fallback_byte("<0x0A>"), Some(10));
    assert_eq!(parse_fallback_byte("<0xff>"), Some(255));
    assert_eq!(parse_fallback_byte("<0xFf>"), Some(255));
    assert_eq!(parse_fallback_byte("<0x+f>"), Some(15));
    for text in ["<0xg0>", "<0x0>", "0x0A", "<0x-1>", "<0x0+>", "<0x00A>", "<0X0A>", "<0x0A", ""] {
        assert_eq!(parse_fallback_byte(text), None);
    }
}

#[test]
fn each_byte_has_a_name() {
    for byte in 0..=255u8 {
        assert_eq!(parse_fallback_byte(&format!("<0x{:02X}>", byte)), Some(byte));
    }
}

#[test]
fn parts_stand_between_spaces() {
    assert_eq!(first_two_parts("a b c"), Some(("a", "b")));
    assert_eq!(first_two_parts("a b"), Some(("a", "b")));
    assert_eq!(first_two_parts(" b"), Some(("", "b")));
    assert_eq!(first_two_parts("a  b"), Some(("a", "")));
    assert_eq!(first_two_parts("\u{E9}\u{120} \u{2581}"), Some(("\u{E9}\u{120}", "\u{2581}")));
    assert_eq!(first_two_parts("ab"), None);
    assert_eq!(first_two_parts(""), None);
}

#[test]
fn characters_of_a_string() {
    assert_eq!(chars_of("a\u{E9}\u{1F600}"), vec!['a', '\u{E9}', '\u{1F600}']);
}

#[test]
fn equal_ranks_stay_in_order() {
    assert_eq!(order_by_rank(&vec![5, 3, 5, 0, 3]), vec![3, 1, 4, 0, 2]);
    assert_eq!(order_by_rank(&vec![]), Vec::<usize>::new());
    assert_eq!(order_by_rank(&vec![7]), vec![0]);
}

#[test]
fn steady_patterns() {
    assert!(is_steady(r"\s+(?!\S)|\p{L}+"));
    assert!(is_steady(r"(?i)foo\Kbar"));
    assert!(is_steady(r"(?1)(a)"));
    assert!(!is_steady(r"(?=(?1))(a\K)"));
    assert!(!is_steady(r"(?=(?&n))(?<n>a\K)"));
    assert!(!is_steady(r"(?=(?P>n))(?<n>a\K)"));
    assert!(!is_steady(r"(?=(?+1))(a\K)"));
    assert!(!is_steady(r"(?=\g<1>)(a\K)"));
    assert!(is_steady(r"\K(?R)"));
    assert!(is_steady(r"(?<w>a)\K(?&w)"));
    assert!(is_steady(r"(?=(?1))(a\\K)"));
    assert!(!is_steady(r"(?=(?1))(a\\\K)"));
    assert!(!is_steady(r"(?=(?1))(\c\\K)"));
    assert!(!is_steady(r"(?<!(?1))(a\K)"));
    assert!(!is_steady(r"(?*(?1))(a\K)"));
    assert!(!is_steady(r"(*pla:(?1))(a\K)"));
    assert!(is_steady(r"a\K(?-i)"));
    assert!(is_steady(""));
}
