use vi::engine::tokenizer_json::{tokenizer_from_json, tokenizer_parts, TokenizerJsonError};
use vi::engine::bpe::BpeTokenizer;
use vi::engine::llm::{bytes_to_unicode, regex_split};

/// A byte-level vocabulary: every byte's character is a token whose id is
/// the byte, plus the chat markers as added tokens.
fn byte_level_tokenizer(merges: Vec<String>, extra: Vec<(String, u64)>, byte_fallback: bool) -> BpeTokenizer {
    let table = bytes_to_unicode();
    let mut vocab: Vec<(String, u64)> = Vec::new();
    for (b, bytes) in table.iter().enumerate() {
        vocab.push((String::from_utf8(bytes.clone()).unwrap(), b as u64));
    }
    for e in extra {
        vocab.push(e);
    }
    let added = vec![(151644u64, "<|im_start|>".to_string()), (151645u64, "<|im_end|>".to_string())];
    BpeTokenizer::from_parts(&vocab, &merges, &added, byte_fallback)
}

#[test]
fn test_tokenizer_encode_decode_roundtrip() {
    let tok = byte_level_tokenizer(Vec::new(), Vec::new(), false);
    let text = "恩我的那个恩肚子有点疼";
    let ids = tok.encode(text);
    assert!(!ids.is_empty(), "encode should produce tokens");
    let decoded = tok.decode(&ids);
    assert_eq!(decoded, text, "encode-decode roundtrip should be lossless");
}

#[test]
fn test_encode_with_special_tokens() {
    let tok = byte_level_tokenizer(Vec::new(), Vec::new(), false);
    assert!(tok.has_only_nonempty_specials());
    let text = "<|im_start|>system\nhello<|im_end|>";
    let ids = tok.encode_with_special(text);
    assert!(ids.contains(&151644u32), "should contain <|im_start|> id=151644");
    assert!(ids.contains(&151645u32), "should contain <|im_end|> id=151645");
    let decoded = tok.decode(&ids);
    assert_eq!(decoded, text);
}

#[test]
fn special_tokens_split_the_text() {
    let tok = byte_level_tokenizer(Vec::new(), Vec::new(), false);
    let ids = tok.encode_with_special("a<|im_end|>b");
    assert_eq!(ids, vec![97, 151645, 98]);
    let plain = tok.encode("a<|im_end|>b");
    assert!(!plain.contains(&151645u32));
    // without special tokens in the text both encodings agree
    assert_eq!(tok.encode_with_special("hello 123"), tok.encode("hello 123"));
}

#[test]
fn bytes_to_unicode_table() {
    let table = bytes_to_unicode();
    assert_eq!(table.len(), 256);
    assert_eq!(table[b'A' as usize], b"A".to_vec());
    // byte 0 is the first byte that is not printable: U+0100
    assert_eq!(String::from_utf8(table[0].clone()).unwrap(), "\u{100}");
    // space is written as U+0120
    assert_eq!(String::from_utf8(table[b' ' as usize].clone()).unwrap(), "\u{120}");
    assert_eq!(String::from_utf8(table[255].clone()).unwrap(), "\u{ff}");
}

#[test]
fn merges_apply_by_rank() {
    let tok = byte_level_tokenizer(
        vec!["a b".to_string(), "ab c".to_string()],
        vec![("ab".to_string(), 1000), ("abc".to_string(), 1001)],
        false,
    );
    assert_eq!(tok.encode("abc"), vec![1001]);
    assert_eq!(tok.encode("abd"), vec![1000, 100]);
    assert_eq!(tok.decode(&[1001]), "abc");
}

#[test]
fn space_is_its_own_word() {
    let tok = byte_level_tokenizer(vec!["a b".to_string()], vec![("ab".to_string(), 1000)], false);
    assert_eq!(tok.encode("ab ab"), vec![1000, 32, 1000]);
}

#[test]
fn byte_fallback_tokens_decode_to_their_byte() {
    let tok = byte_level_tokenizer(Vec::new(), vec![("<0x0A>".to_string(), 2000), ("<0x+a>".to_string(), 2001)], true);
    assert_eq!(tok.decode(&[104, 2000, 105]), "h\ni");
    assert_eq!(tok.decode(&[2001]), "\n");
    let no_fallback = byte_level_tokenizer(Vec::new(), vec![("<0x0A>".to_string(), 2000)], false);
    assert_eq!(no_fallback.decode(&[2000]), "<0x0A>");
}

#[test]
fn unknown_ids_are_skipped_in_decoding() {
    let tok = byte_level_tokenizer(Vec::new(), Vec::new(), false);
    assert_eq!(tok.decode(&[104, 999_999, 105]), "hi");
    assert_eq!(tok.decode(&[151644, 104]), "<|im_start|>h");
}

#[test]
fn decoding_broken_utf8_replaces_it() {
    let tok = byte_level_tokenizer(Vec::new(), Vec::new(), false);
    // 0xE6 alone is not UTF-8
    assert_eq!(tok.decode(&[0xE6, 104]), "\u{FFFD}h");
}

#[test]
fn byte_level_roundtrip_on_mixed_text() {
    let tok = byte_level_tokenizer(Vec::new(), Vec::new(), false);
    for text in ["héllo wörld 123!", "tab\tand\nnewline", "emoji 😀 ok", ""] {
        assert_eq!(tok.decode(&tok.encode(text)), text);
    }
}

#[test]
fn regex_split_pieces() {
    assert_eq!(regex_split("Hello world 123!"), vec!["Hello", " ", "world", " ", "123", "!"]);
    assert_eq!(regex_split("恩我的12ab"), vec!["恩我的", "12", "ab"]);
    assert_eq!(regex_split(""), Vec::<String>::new());
    for text in ["Hello world 123!", "恩我的12ab", " a\tb  c99d "] {
        assert_eq!(regex_split(text).concat(), text);
    }
}

#[test]
fn lossless_vocabulary_roundtrip_with_merges() {
    // every merge result is a token: decoding gives the text back
    let tok = byte_level_tokenizer(
        vec!["a b".to_string(), "ab c".to_string()],
        vec![("ab".to_string(), 1000), ("abc".to_string(), 1001)],
        false,
    );
    for text in ["abcabc ab", "cab", "a1b2"] {
        assert_eq!(tok.decode(&tok.encode(text)), text);
    }
}

#[test]
fn encode_is_concatenation_of_pieces() {
    let tok = byte_level_tokenizer(Vec::new(), Vec::new(), false);
    let text = "ab12 c,d";
    let mut joined: Vec<u32> = Vec::new();
    for w in regex_split(text) {
        joined.extend(tok.encode(&w));
    }
    assert_eq!(tok.encode(text), joined);
    assert!(tok.encode("").is_empty());
    assert!(tok.encode(text).iter().all(|&id| id < 256));
}

fn byte_level_parts(extra: Vec<(String, u64)>) -> (Vec<(String, u64)>, Vec<(u64, String)>) {
    let table = bytes_to_unicode();
    let mut vocab: Vec<(String, u64)> = Vec::new();
    for (b, bytes) in table.iter().enumerate() {
        vocab.push((String::from_utf8(bytes.clone()).unwrap(), b as u64));
    }
    for e in extra {
        vocab.push(e);
    }
    let added = vec![(151644u64, "<|im_start|>".to_string()), (151645u64, "<|im_end|>".to_string())];
    (vocab, added)
}

#[test]
fn checked_building_tells_lossless_vocabularies() {
    let (vocab, added) = byte_level_parts(vec![("ab".to_string(), 1000), ("abc".to_string(), 1001)]);
    let merges = vec!["a b".to_string(), "ab c".to_string(), "nospace".to_string()];
    let (tok, ok) = BpeTokenizer::from_parts_checked(&vocab, &merges, &added, false);
    assert!(ok);
    assert_eq!(tok.decode(&tok.encode("abcab")), "abcab");

    // a merge whose result is no token
    let bad_merges = vec!["a b".to_string(), "b c".to_string()];
    let (_, ok2) = BpeTokenizer::from_parts_checked(&vocab, &bad_merges, &added, false);
    assert!(!ok2);

    // a byte's character missing from the vocabulary
    let (mut short, added2) = byte_level_parts(Vec::new());
    short.remove(0);
    let (_, ok3) = BpeTokenizer::from_parts_checked(&short, &Vec::new(), &added2, false);
    assert!(!ok3);

    // two tokens sharing one id: one of them decodes to the other
    let (shared, added3) = byte_level_parts(vec![("xy".to_string(), 97)]);
    let (_, ok4) = BpeTokenizer::from_parts_checked(&shared, &Vec::new(), &added3, false);
    assert!(!ok4);

    // under byte fallback a `<0xNN>` token that is not added is read as a byte
    let (fb, added4) = byte_level_parts(vec![("<0x41>".to_string(), 3000)]);
    assert!(BpeTokenizer::from_parts_checked(&fb, &Vec::new(), &added4, false).1);
    assert!(!BpeTokenizer::from_parts_checked(&fb, &Vec::new(), &added4, true).1);
}

#[test]
fn special_encoding_splits_at_first_special() {
    let tok = byte_level_tokenizer(Vec::new(), Vec::new(), false);
    let text = "hi 1<|im_end|>yo<|im_start|>z";
    let mut expected = tok.encode("hi 1");
    expected.push(151645);
    expected.extend(tok.encode_with_special("yo<|im_start|>z"));
    assert_eq!(tok.encode_with_special(text), expected);
    assert_eq!(tok.encode_with_special("yo<|im_start|>z"), vec![121, 111, 151644, 122]);
}

#[test]
fn tokenizer_json_parts_and_errors() {
    let text = r#"{"added_tokens":[{"id":7,"content":"<|x|>"},{"id":"no","content":"y"},{"content":"z"}],
        "model":{"vocab":{"b":1,"a":0,"ab":2},"merges":["a b","bad"],"byte_fallback":true}}"#;
    let p = tokenizer_parts(text).ok().unwrap();
    assert_eq!(p.vocab, vec![("a".to_string(), 0), ("ab".to_string(), 2), ("b".to_string(), 1)]);
    assert_eq!(p.merges, vec!["a b".to_string(), "bad".to_string()]);
    assert_eq!(p.added, vec![(7, "<|x|>".to_string())]);
    assert!(p.byte_fallback);

    let no_fb = r#"{"model":{"vocab":{},"merges":[],"byte_fallback":"yes"}}"#;
    let q = tokenizer_parts(no_fb).ok().unwrap();
    assert!(!q.byte_fallback);
    assert!(q.added.is_empty() && q.vocab.is_empty() && q.merges.is_empty());

    assert_eq!(tokenizer_parts("{not json").err(), Some(TokenizerJsonError::Parse));
    assert_eq!(tokenizer_parts(r#"{"model":{}}"#).err(), Some(TokenizerJsonError::MissingVocab));
    assert_eq!(tokenizer_parts(r#"[1,2]"#).err(), Some(TokenizerJsonError::MissingVocab));
    assert_eq!(
        tokenizer_parts(r#"{"model":{"vocab":{"a":-1},"merges":[]}}"#).err(),
        Some(TokenizerJsonError::InvalidVocabId)
    );
    assert_eq!(
        tokenizer_parts(r#"{"model":{"vocab":{"a":1.5}}}"#).err(),
        Some(TokenizerJsonError::InvalidVocabId)
    );
    assert_eq!(tokenizer_parts(r#"{"model":{"vocab":{"a":1}}}"#).err(), Some(TokenizerJsonError::MissingMerges));
    assert_eq!(
        tokenizer_parts(r#"{"model":{"vocab":{"a":1},"merges":["a b",["a","b"]]}}"#).err(),
        Some(TokenizerJsonError::InvalidMerge)
    );
    assert_eq!(TokenizerJsonError::MissingVocab.message(), "Missing vocab in tokenizer.json");

    let (tok, lossless) = tokenizer_from_json(text).ok().unwrap();
    assert!(!lossless);
    assert_eq!(tok.encode_with_special("<|x|>"), vec![7]);
}

#[test]
fn tokenizer_json_byte_level_is_lossless() {
    let table = bytes_to_unicode();
    let mut entries: Vec<String> = Vec::new();
    for (b, bytes) in table.iter().enumerate() {
        let s = String::from_utf8(bytes.clone()).unwrap();
        let key = s.replace('\\', "\\\\").replace('"', "\\\"");
        entries.push(format!("\"{}\":{}", key, b));
    }
    entries.push("\"ab\":1000".to_string());
    let text = format!(
        "{{\"added_tokens\":[{{\"id\":151645,\"content\":\"<|im_end|>\"}}],\"model\":{{\"vocab\":{{{}}},\"merges\":[\"a b\"]}}}}",
        entries.join(",")
    );
    let (tok, lossless) = tokenizer_from_json(&text).ok().unwrap();
    assert!(lossless);
    let s = "恩我的那个恩肚子有点疼 ab";
    let ids = tok.encode(s);
    assert!(!ids.is_empty());
    assert_eq!(tok.decode(&ids), s);
    assert!(tok.encode("ab").contains(&1000));
}
