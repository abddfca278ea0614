use freetoken::gguf::{Gguf, Value};
use freetoken::tokenizer::{Tokenizer, TokenizerError};
use vstd::hash_map::StringHashMap;

fn list(items: &[&str]) -> Value {
    Value::Arr(items.iter().map(|s| Value::Str(s.to_string())).collect())
}

fn file(meta: Vec<(&str, Value)>) -> Gguf<'static> {
    let mut map = StringHashMap::new();
    for (k, v) in meta {
        map.insert(k.to_string(), v);
    }
    Gguf { bytes: &[], meta: map, tensors: StringHashMap::new(), data_start: 0 }
}

fn tokenizer(tokens: &[&str], merges: &[&str]) -> Tokenizer {
    let g = file(vec![
        ("tokenizer.ggml.tokens", list(tokens)),
        ("tokenizer.ggml.merges", list(merges)),
        ("tokenizer.ggml.bos_token_id", Value::U32(2)),
        ("tokenizer.ggml.eos_token_id", Value::U32(1)),
    ]);
    Tokenizer::from_gguf(&g).unwrap()
}

#[test]
fn lowest_rank_merges_first() {
    let t = tokenizer(&["a", "b", "c", "ab", "bc"], &["b c", "a b"]);
    assert_eq!(t.encode("abc"), vec![0, 4]);
    let t = tokenizer(&["a", "b", "c", "ab", "bc"], &["a b", "b c"]);
    assert_eq!(t.encode("abc"), vec![3, 2]);
}

#[test]
fn leftmost_of_equal_rank_merges_first() {
    let t = tokenizer(&["a", "aa"], &["a a"]);
    assert_eq!(t.encode("aaa"), vec![1, 0]);
}

#[test]
fn spaces_become_blocks_and_come_back() {
    let t = tokenizer(&["a", "\u{2581}", "\u{2581}a"], &["\u{2581} a"]);
    assert_eq!(t.encode("a a"), vec![0, 2]);
    assert_eq!(t.decode(&[0, 2]), "a a");
}

#[test]
fn unknown_characters_fall_back_to_bytes() {
    let t = tokenizer(&["<0xC3>", "<0xA9>", "a"], &[]);
    assert_eq!(t.encode("\u{e9}a"), vec![0, 1, 2]);
    assert_eq!(t.encode("b"), Vec::<u32>::new());
    assert_eq!(t.decode(&[0, 1, 2]), "\u{e9}a");
    assert_eq!(t.decode_bytes(&[0, 2]), vec![0xC3, b'a']);
    assert_eq!(t.decode(&[0, 2]), "\u{fffd}a");
}

#[test]
fn byte_tokens_are_read_loosely() {
    let t = tokenizer(&["<0x+f>", "<0x0g>", "<0xfF>", "<0x\u{e9}>"], &[]);
    assert_eq!(t.decode_bytes(&[0]), vec![15]);
    assert_eq!(t.decode_bytes(&[1]), b"<0x0g>".to_vec());
    assert_eq!(t.decode_bytes(&[2]), vec![255]);
    assert_eq!(t.decode_bytes(&[3]), "<0x\u{e9}>".as_bytes().to_vec());
}

#[test]
fn special_tokens_are_found() {
    let t = tokenizer(&["a", "<turn|>", "<bos>", "<", "t", "u", "r", "n", ">", "|"], &[]);
    assert_eq!(t.eot, Some(1));
    assert_eq!(t.encode_with_specials("a<turn|><bos>a"), vec![0, 1, 2, 0]);
    assert_eq!(t.encode_with_specials("<|turn>a"), vec![3, 9, 4, 5, 6, 7, 8, 0]);
    assert_eq!(t.encode_with_specials(""), Vec::<u32>::new());
    assert_eq!(t.decode(&t.encode_with_specials("a<turn|>a")), "a<turn|>a");
}

#[test]
fn chat_prompt_frames_the_user() {
    let t = tokenizer(&["a"], &[]);
    assert_eq!(
        t.chat_prompt("hi"),
        "<|turn>user\nhi<turn|>\n<|turn>model\n<|channel>thought\n<channel|>"
    );
    assert_eq!(t.eot, None);
}

#[test]
fn later_duplicates_count() {
    let t = tokenizer(&["a", "b", "a"], &["a b", "b a", "a b"]);
    assert_eq!(t.encode("a"), vec![2]);
    assert_eq!(t.merge_rank.get("a b"), Some(&2));
    assert_eq!(t.vocab, vec!["a", "b", "a"]);
}

#[test]
fn missing_metadata_is_reported() {
    let e = |g: Gguf| match Tokenizer::from_gguf(&g) {
        Ok(_) => panic!("a tokenizer came out"),
        Err(e) => e,
    };
    assert_eq!(e(file(vec![])), TokenizerError::MissingTokens);
    assert_eq!(
        e(file(vec![("tokenizer.ggml.tokens", Value::U8(1))])),
        TokenizerError::MissingTokens
    );
    let tokens = || ("tokenizer.ggml.tokens", list(&["a"]));
    assert_eq!(e(file(vec![tokens()])), TokenizerError::MissingBos);
    let bos = ("tokenizer.ggml.bos_token_id", Value::U32(2));
    assert_eq!(e(file(vec![tokens(), bos])), TokenizerError::MissingEos);
}

#[test]
fn token_numbers_are_read_from_metadata() {
    let t = tokenizer(&["a"], &[]);
    assert_eq!((t.bos, t.eos), (2, 1));
}

#[test]
fn texts_come_back() {
    let mut tokens: Vec<String> = (0..=255u8).map(|b| format!("<0x{b:02X}>")).collect();
    for piece in ["\u{2581}", "h", "e", "\u{2581}h", "he", "\u{2581}he", "<turn|>", "<|turn>"] {
        tokens.push(piece.to_string());
    }
    let tokens: Vec<&str> = tokens.iter().map(|s| s.as_str()).collect();
    let t = tokenizer(&tokens, &["\u{2581} h", "h e", "\u{2581}h e"]);
    for text in ["", "he he", " the \u{e9}t\u{e9}", "a<turn|>\n<|turn>he", "\u{1F600}<bos>"] {
        assert_eq!(t.decode(&t.encode(text)), text);
        assert_eq!(t.decode(&t.encode_with_specials(text)), text);
    }
    // a byte's name is spelt out, a block in the text comes back as a space
    assert_eq!(t.decode(&t.encode("<0x41>")), "<0x41>");
    assert_eq!(t.decode(&t.encode("h\u{2581}e")), "h e");
    assert_eq!(t.encode("he he"), vec![260, 261]);
    assert_eq!(t.encode_with_specials("<turn|>he"), vec![262, 260]);
}

#[test]
fn merges_that_spell_a_byte_give_the_byte() {
    let tokens = ["<", "0", "x", "4", "1", ">", "<0", "<0x", "<0x4", "<0x41", "<0x41>"];
    let t = tokenizer(&tokens, &["< 0", "<0 x", "<0x 4", "<0x4 1", "<0x41 >"]);
    assert_eq!(t.encode("<0x41>"), vec![10]);
    assert_eq!(t.decode(&[10]), "A");
    assert_eq!(t.encode("<0x4"), vec![8]);
    assert_eq!(t.decode(&[8]), "<0x4");
}

#[test]
fn turns_are_special() {
    let t = tokenizer(&["<start_of_turn>", "<end_of_turn>", "a"], &[]);
    assert_eq!(t.eot, Some(1));
    assert_eq!(t.encode_with_specials("<start_of_turn>"), vec![0]);
    assert_eq!(t.encode_with_specials("a<end_of_turn>a"), vec![2, 1, 2]);
    // the newer name goes first, wherever it stands
    assert_eq!(tokenizer(&["<end_of_turn>", "<turn|>"], &[]).eot, Some(1));
    assert_eq!(tokenizer(&["<turn|>", "<end_of_turn>"], &[]).eot, Some(0));
    assert_eq!(tokenizer(&["<end_of_turn>"], &[]).eot, Some(0));
    assert_eq!(tokenizer(&["a"], &[]).eot, None);
}
