use gguf_infer::pieces::{split_pieces, split_words};
use gguf_infer::text::{
    chars_of, contains_text, is_space_char, parse_number, push_decimal, push_hex, text_eq, text_of,
    NumberError,
};
use gguf_infer::utf8::{decode_lossy, decode_streamed, decode_text, head_at, scalar, Head};

#[test]
fn texts_are_compared_and_searched() {
    assert!(text_eq("abc", "abc"));
    assert!(!text_eq("abc", "abd"));
    assert!(!text_eq("abc", "abcd"));
    assert!(text_eq("", ""));
    assert!(contains_text("hello world", "o w"));
    assert!(contains_text("hello", ""));
    assert!(!contains_text("hello", "hello!"));
    assert!(!contains_text("aab", "ba"));
}

#[test]
fn characters_make_up_a_text() {
    let chars = chars_of("aé\u{1F600}");
    assert_eq!(chars, vec!['a', 'é', '\u{1F600}']);
    assert_eq!(text_of(&chars), "aé\u{1F600}");
    assert_eq!(text_of(&[]), "");
}

#[test]
fn numbers_are_written_behind_a_text() {
    let mut s = String::from("n=");
    push_decimal(&mut s, 0);
    push_decimal(&mut s, 907);
    push_decimal(&mut s, u64::MAX);
    assert_eq!(s, "n=090718446744073709551615");
    let mut h = String::from("0x");
    push_hex(&mut h, 0x4655_4747, 8);
    push_hex(&mut h, 0xAB, 4);
    assert_eq!(h, "0x4655474700AB");
}

#[test]
fn different_numbers_look_different_in_decimal() {
    let mut seen: Vec<String> = Vec::new();
    for n in 0..1200u64 {
        let mut s = String::new();
        push_decimal(&mut s, n);
        assert_eq!(s, format!("{}", n));
        assert!(!seen.contains(&s));
        seen.push(s);
    }
}

#[test]
fn numbers_are_read() {
    assert_eq!(parse_number("512", u64::MAX), Ok(512));
    assert_eq!(parse_number("+7", u64::MAX), Ok(7));
    assert_eq!(parse_number("007", u64::MAX), Ok(7));
    assert_eq!(parse_number("255", 255), Ok(255));
    assert_eq!(parse_number("18446744073709551615", u64::MAX), Ok(u64::MAX));
}

#[test]
fn each_number_error_has_its_cause() {
    assert_eq!(parse_number("", u64::MAX), Err(NumberError::Empty));
    assert_eq!(parse_number("12a", u64::MAX), Err(NumberError::InvalidDigit));
    assert_eq!(parse_number("-1", u64::MAX), Err(NumberError::InvalidDigit));
    assert_eq!(parse_number("+", u64::MAX), Err(NumberError::InvalidDigit));
    assert_eq!(parse_number("256", 255), Err(NumberError::TooLarge));
    assert_eq!(parse_number("18446744073709551616", u64::MAX), Err(NumberError::TooLarge));
    assert_eq!(NumberError::Empty.message(), "cannot parse integer from empty string");
    assert_eq!(NumberError::InvalidDigit.message(), "invalid digit found in string");
    assert_eq!(NumberError::TooLarge.message(), "number too large to fit in target type");
}

#[test]
fn number_errors_read_as_those_of_the_standard_library() {
    for s in ["", "12a", "-1", "+", "18446744073709551616", "4x", "99999999999999999999"] {
        let ours = parse_number(s, u64::MAX).unwrap_err();
        let std_error = s.parse::<u64>().unwrap_err();
        assert_eq!(ours.message(), format!("{}", std_error));
    }
}

#[test]
fn white_space_is_that_of_unicode() {
    for u in 0..0x3100u32 {
        if let Some(c) = char::from_u32(u) {
            assert_eq!(is_space_char(c), c.is_whitespace());
        }
    }
}

#[test]
fn scalars_come_from_their_codes() {
    assert_eq!(scalar(0x41), 'A');
    assert_eq!(scalar(0x1F600), '\u{1F600}');
}

#[test]
fn well_formed_bytes_decode() {
    let text = "aé\u{20AC}\u{1F600}";
    assert_eq!(decode_text(text.as_bytes()), Ok(String::from(text)));
    assert_eq!(decode_text(&[]), Ok(String::new()));
}

#[test]
fn faults_are_those_of_the_standard_library() {
    let mut cases: Vec<Vec<u8>> = vec![
        vec![0x61, 0xFF],
        vec![0xE2, 0x82],
        vec![0xC0, 0x80],
        vec![0xED, 0xA0, 0x80],
        vec![0x61, 0xC3, 0xA9, 0xE2, 0x82, 0x61],
        vec![0xF0, 0x9F, 0x98],
        vec![0xF0, 0x9F, 0x98, 0x41],
        vec![0x80],
    ];
    for a in [0x00u8, 0x41, 0x80, 0xC2, 0xE0, 0xE2, 0xED, 0xF0, 0xF4, 0xF5, 0xFF] {
        for b in [0x41u8, 0x80, 0x8F, 0x90, 0x9F, 0xA0, 0xBF, 0xC0] {
            for c in [0x41u8, 0x80, 0xFF] {
                cases.push(vec![a, b]);
                cases.push(vec![0x7A, a, b, c]);
                cases.push(vec![a, b, c, 0x80]);
            }
        }
    }
    for bytes in cases {
        match (decode_text(&bytes), String::from_utf8(bytes.clone())) {
            (Ok(a), Ok(b)) => assert_eq!(a, b),
            (Err(f), Err(e)) => {
                assert_eq!(f.valid_up_to, e.utf8_error().valid_up_to());
                assert_eq!(f.error_len, e.utf8_error().error_len());
                assert_eq!(f.message(), e.to_string());
            }
            _ => panic!("{:?}", bytes),
        }
    }
}

#[test]
fn decoders_agree_on_well_formed_bytes() {
    for text in ["", "plain", "aé\u{20AC}\u{1F600}z"] {
        assert_eq!(decode_text(text.as_bytes()), Ok(String::from(text)));
        assert_eq!(decode_lossy(text.as_bytes()), text);
        assert_eq!(decode_streamed(text.as_bytes()), text);
    }
}

#[test]
fn lossy_decoding_is_that_of_the_standard_library() {
    let samples: Vec<Vec<u8>> = vec![
        vec![0x61, 0xFF, 0x62],
        vec![0xE2, 0x82],
        vec![0xE2, 0x82, 0x41],
        vec![0xF0, 0x9F, 0x98],
        vec![0xF0, 0x9F, 0x41, 0x80],
        vec![0xC0, 0x80, 0xED, 0xA0, 0x80],
        vec![0xF5, 0x80, 0x80, 0x80, 0x7A],
        vec![0x80, 0x80],
    ];
    for bytes in samples {
        let expected = String::from_utf8_lossy(&bytes).to_string();
        assert_eq!(decode_lossy(&bytes), expected);
    }
}

#[test]
fn a_cut_encoding_is_put_out_byte_by_byte() {
    assert_eq!(decode_streamed(&[0xE2, 0x82]), "\u{FFFD}\u{FFFD}");
    assert_eq!(decode_lossy(&[0xE2, 0x82]), "\u{FFFD}");
    assert_eq!(decode_streamed(&[0x61, 0xFF]), "a\u{FFFD}");
}

#[test]
fn heads_tell_characters_from_malformed_bytes() {
    assert!(matches!(head_at(&[0x61, 0xC3, 0xA9], 1), Head::Scalar('é', 2)));
    assert!(matches!(head_at(&[0xFF, 0x61], 0), Head::Invalid(1)));
    assert!(matches!(head_at(&[0xE2, 0x82, 0x41], 0), Head::Invalid(2)));
    assert!(matches!(head_at(&[0xE2, 0x82], 0), Head::Cut));
}

#[test]
fn words_are_cut_at_white_space() {
    assert_eq!(split_words("  a bc\n d\u{A0}e "), vec!["a", "bc", "d", "e"]);
    assert!(split_words(" \t ").is_empty());
}

#[test]
fn pieces_keep_a_space_in_front_of_a_word() {
    assert_eq!(split_pieces("Hello, how are you"), vec!["Hello", ",", " how", " are", " you"]);
    assert_eq!(split_pieces("a  b"), vec!["a", " b"]);
    assert_eq!(split_pieces("a !"), vec!["a", " ", "!"]);
    assert_eq!(split_pieces("x "), vec!["x", " "]);
    assert!(split_pieces("").is_empty());
}

#[test]
fn a_space_in_front_of_another_script_stands_alone() {
    assert_eq!(split_pieces("a é"), vec!["a", " ", "é"]);
    assert_eq!(split_pieces("aé"), vec!["a", "é"]);
}

#[test]
fn pieces_make_up_a_text_with_single_blanks() {
    for text in ["one two, three", "x = y+1", "tail ", "é1 2"] {
        assert_eq!(split_pieces(text).concat(), text);
        for piece in split_pieces(text) {
            assert!(!piece.is_empty());
        }
    }
}
