use gguf_infer::byte_table::{byte_decoder, bytes_to_unicode, lookup};
use gguf_infer::generation::Generation;
use gguf_infer::gguf::{Metadata, MetadataValue};
use gguf_infer::tokenizer::{MergeTable, TokenType, Tokenizer};

fn texts(items: &[&str]) -> MetadataValue {
    MetadataValue::Array(items.iter().map(|s| MetadataValue::String(String::from(*s))).collect())
}

fn metadata(tokens: &[&str], merges: &[&str]) -> Metadata {
    let mut m = Metadata::new();
    m.insert(String::from("tokenizer.ggml.tokens"), texts(tokens));
    m.insert(String::from("tokenizer.ggml.merges"), texts(merges));
    m
}

fn byte_vocab(extra: &[&str], merges: &[&str]) -> Tokenizer {
    let (_, chars) = bytes_to_unicode();
    let mut tokens: Vec<String> = chars.iter().map(|c| c.to_string()).collect();
    for e in extra {
        tokens.push(String::from(*e));
    }
    let items: Vec<&str> = tokens.iter().map(|s| s.as_str()).collect();
    Tokenizer::from_gguf_metadata(&metadata(&items, merges))
}

#[test]
fn bytes_stand_for_characters() {
    let (bytes, chars) = bytes_to_unicode();
    assert_eq!(bytes.len(), 256);
    assert_eq!(chars.len(), 256);
    assert_eq!((bytes[0], chars[0]), (b'!', '!'));
    assert_eq!((bytes[93], chars[93]), (b'~', '~'));
    assert_eq!((bytes[94], chars[94]), (0xA1, '\u{A1}'));
    assert_eq!((bytes[187], chars[187]), (0xFF, '\u{FF}'));
    assert_eq!((bytes[188], chars[188]), (0, '\u{100}'));
    assert_eq!((bytes[220], chars[220]), (32, '\u{120}'));
    assert_eq!((bytes[221], chars[221]), (127, '\u{121}'));
    assert_eq!((bytes[255], chars[255]), (173, '\u{143}'));
}

#[test]
fn the_table_holds_every_byte_once() {
    let (bytes, chars) = bytes_to_unicode();
    let mut sorted = bytes.clone();
    sorted.sort();
    assert_eq!(sorted, (0..=255).collect::<Vec<u8>>());
    let table = byte_decoder();
    for (b, c) in bytes.iter().zip(chars.iter()) {
        assert_eq!(lookup(&table, *c), Some(*b));
    }
    assert_eq!(lookup(&table, ' '), None);
    assert_eq!(lookup(&table, '\u{144}'), None);
    assert_eq!(lookup(&table, '\u{10FFFF}'), None);
}

#[test]
fn token_types_have_their_numbers() {
    assert_eq!(TokenType::from_i32(1), TokenType::Normal);
    assert_eq!(TokenType::from_i32(2), TokenType::Unknown);
    assert_eq!(TokenType::from_i32(3), TokenType::Control);
    assert_eq!(TokenType::from_i32(4), TokenType::Byte);
    assert_eq!(TokenType::from_i32(0), TokenType::Undefined);
    assert_eq!(TokenType::from_i32(-1), TokenType::Undefined);
    assert_eq!(TokenType::from_i32(5), TokenType::Undefined);
}

#[test]
fn merge_rules_are_cut_at_the_first_space() {
    let mut t = MergeTable::new();
    assert!(t.insert("a b", 3));
    assert!(t.insert("c d e", 4));
    assert!(!t.insert("ab", 5));
    assert_eq!(t.get("a", "b"), Some(3));
    assert_eq!(t.get("c", "d e"), Some(4));
    assert_eq!(t.get("b", "a"), None);
    assert!(t.insert("a b", 1));
    assert_eq!(t.get("a", "b"), Some(1));
}

#[test]
fn a_tokenizer_is_read_from_metadata() {
    let mut m = metadata(&["<unk>", "a", "b", "ab", "a"], &["a b"]);
    m.insert(
        String::from("tokenizer.ggml.scores"),
        MetadataValue::Array(vec![MetadataValue::Float32(0), MetadataValue::Float32(0x3F80_0000)]),
    );
    m.insert(
        String::from("tokenizer.ggml.token_type"),
        MetadataValue::Array(vec![MetadataValue::Int32(2), MetadataValue::UInt8(1)]),
    );
    m.insert(String::from("tokenizer.ggml.eos_id"), MetadataValue::UInt32(2));
    m.insert(String::from("tokenizer.ggml.bos_token_id"), MetadataValue::Int32(1));
    m.insert(String::from("tokenizer.ggml.bos_id"), MetadataValue::Int32(4));
    let t = Tokenizer::from_gguf_metadata(&m);
    assert_eq!(t.vocab_size(), 5);
    assert_eq!(t.id_to_token(3), Some("ab"));
    assert_eq!(t.id_to_token(5), None);
    assert_eq!(t.vocab[1].score, 0x3F80_0000);
    assert_eq!(t.vocab[2].score, 0);
    assert_eq!(t.vocab[0].token_type, TokenType::Unknown);
    assert_eq!(t.vocab[4].token_type, TokenType::Undefined);
    assert_eq!(t.eos_token_id, Some(2));
    assert_eq!(t.bos_token_id, Some(1));
    assert_eq!(t.pre_type, "unknown");
    assert_eq!(t.im_end_token_id, None);
    assert_eq!(t.encode("a"), vec![4]);
}

#[test]
fn stop_tokens_are_found_by_their_text() {
    let t = byte_vocab(&["<|im_start|>", "<|im_end|>"], &[]);
    assert_eq!(t.im_start_token_id, Some(256));
    assert_eq!(t.im_end_token_id, Some(257));
}

#[test]
fn merges_go_by_priority() {
    let t = byte_vocab(&["ab", "bc", "abc"], &["b c", "a b", "a bc"]);
    assert_eq!(t.encode("abc"), vec![258]);
    let u = byte_vocab(&["ab", "bc", "abc"], &["a b", "b c", "ab c"]);
    assert_eq!(u.encode("abc"), vec![258]);
    let w = byte_vocab(&["ab", "bc"], &["a b", "b c"]);
    let c = w.encode("c")[0];
    assert_eq!(w.encode("abc"), vec![256, c]);
}

#[test]
fn equal_pairs_are_merged_from_the_left() {
    let t = byte_vocab(&["aa"], &["a a"]);
    let a = t.encode("a")[0];
    assert_eq!(t.encode("aaa"), vec![256, a]);
}

#[test]
fn unknown_pieces_become_the_unknown_token() {
    let t = Tokenizer::from_gguf_metadata(&metadata(&["a", "<unk>"], &[]));
    assert_eq!(t.encode("ab"), vec![0, 1]);
    let u = Tokenizer::from_gguf_metadata(&metadata(&["x", "a"], &[]));
    assert_eq!(u.encode("ab"), vec![1, 0]);
    assert!(u.encode("").is_empty());
}

#[test]
fn the_default_pre_tokenizer_drops_white_space() {
    let mut m = metadata(&["a", "b"], &[]);
    m.insert(String::from("tokenizer.ggml.pre"), MetadataValue::String(String::from("default")));
    let t = Tokenizer::from_gguf_metadata(&m);
    assert_eq!(t.encode(" a  b "), vec![0, 1]);
}

#[test]
fn spaces_are_encoded_as_their_character() {
    let t = byte_vocab(&["\u{120}b"], &["\u{120} b"]);
    assert_eq!(t.encode("a b"), vec![t.encode("a")[0], 256]);
    assert_eq!(t.decode(&t.encode("a b")), "a b");
}

#[test]
fn decoding_undoes_encoding() {
    let t = byte_vocab(&["\u{120}b", "he"], &["h e", "\u{120} b"]);
    for text in ["hello", "a b, c!", "x=1\n y", "0123456789", "hehe b"] {
        let expected: String = gguf_infer::pieces::split_pieces(text).concat();
        assert_eq!(t.decode(&t.encode(text)), expected);
    }
}

#[test]
fn some_bytes_do_not_read_back() {
    let t = byte_vocab(&[], &[]);
    assert_eq!(t.encode("\u{7F}"), vec![0]);
    assert_eq!(t.decode(&t.encode("\u{7F}")), "!");
}

#[test]
fn decoding_passes_over_control_and_unknown_ids() {
    let mut m = metadata(&["a", "<s>", "b"], &[]);
    m.insert(
        String::from("tokenizer.ggml.token_type"),
        MetadataValue::Array(vec![MetadataValue::Int32(1), MetadataValue::Int32(3)]),
    );
    let t = Tokenizer::from_gguf_metadata(&m);
    assert_eq!(t.decode(&[0, 1, 2, 9]), "ab");
    assert_eq!(t.decode_token_bytes(1), Vec::<u8>::new());
    assert_eq!(t.decode_token_bytes(9), Vec::<u8>::new());
    assert_eq!(t.decode_token_bytes(2), vec![b'b']);
    assert_eq!(t.decode_token(0), Some(String::from("a")));
}

#[test]
fn bytes_can_be_streamed_token_by_token() {
    let t = byte_vocab(&["he"], &["h e"]);
    let ids = t.encode("hey é!");
    let mut streamed: Vec<u8> = Vec::new();
    for id in &ids {
        streamed.extend(t.decode_token_bytes(*id));
    }
    assert_eq!(String::from_utf8_lossy(&streamed).to_string(), t.decode(&ids));
}

#[test]
fn split_characters_are_replaced() {
    let t = byte_vocab(&[], &[]);
    let ids: Vec<usize> = t.encode("\u{e9}");
    assert_eq!(ids.len(), 2);
    assert_eq!(t.decode(&ids), "\u{e9}");
    assert_eq!(t.decode(&ids[..1]), "\u{FFFD}");
}

#[test]
fn a_generation_extends_its_prompt() {
    let mut m = metadata(&["a", "b", "</s>"], &[]);
    m.insert(String::from("tokenizer.ggml.eos_token_id"), MetadataValue::UInt32(2));
    let t = Tokenizer::from_gguf_metadata(&m);
    let mut g = Generation::start(&t, "ab", 3);
    assert_eq!(g.tokens(), &[0, 1]);
    assert_eq!(g.position(), 2);
    assert!(!g.finished());
    assert_eq!(g.accept(&t, 1), Some(String::from("b")));
    assert_eq!(g.accept(&t, 0), Some(String::from("a")));
    assert_eq!(g.tokens(), &[0, 1, 1, 0]);
    assert_eq!(g.text(), "ba");
    assert!(!g.finished());
    assert_eq!(g.accept(&t, 2), None);
    assert!(g.finished());
    assert_eq!(g.tokens(), &[0, 1, 1, 0]);
    assert_eq!(g.text(), "ba");
}

#[test]
fn a_generation_ends_after_its_last_token() {
    let t = Tokenizer::from_gguf_metadata(&metadata(&["a"], &[]));
    let mut g = Generation::start(&t, "", 2);
    assert_eq!(g.position(), 0);
    g.accept(&t, 0);
    g.accept(&t, 0);
    assert!(g.finished());
    assert_eq!(g.text(), "aa");
    assert!(Generation::start(&t, "a", 0).finished());
}

#[test]
fn the_sampler_looks_back_on_sixty_four_tokens() {
    let t = Tokenizer::from_gguf_metadata(&metadata(&["a", "b"], &[]));
    let mut g = Generation::start(&t, "b", 100);
    assert_eq!(g.recent(), &[1]);
    for _ in 0..63 {
        g.accept(&t, 0);
    }
    assert_eq!(g.recent().len(), 64);
    assert_eq!(g.recent()[0], 1);
    g.accept(&t, 0);
    assert_eq!(g.recent(), &[0; 64]);
}

#[test]
fn cut_encodings_are_put_out_at_once() {
    let t = byte_vocab(&[], &[]);
    let ids = t.encode("\u{e9}");
    let mut g = Generation::start(&t, "", 5);
    assert_eq!(g.accept(&t, ids[0]), Some(String::from("\u{FFFD}")));
    assert_eq!(g.accept(&t, ids[1]), Some(String::from("\u{FFFD}")));
}
