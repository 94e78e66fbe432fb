use wordchipper::types::{TokenWidth, VocabError};
use wordchipper::vocab::byte_vocab::ByteMapVocab;
use wordchipper::vocab::span_map::{hash_span, span_eq, span_to_vec, SpanTokenMap};
use wordchipper::vocab::special_vocab::SpecialVocab;
use wordchipper::vocab::unified_vocab::UnifiedTokenVocab;

fn identity() -> Vec<u32> {
    (0u32..256).collect()
}

fn fresh(width: TokenWidth) -> UnifiedTokenVocab {
    UnifiedTokenVocab::from_byte_tokens(r"\w+", identity(), width).unwrap()
}

fn fault(r: Result<UnifiedTokenVocab, VocabError>) -> Option<VocabError> {
    r.err()
}

#[test]
fn byte_table_must_be_total_distinct_and_fit() {
    assert_eq!(
        fault(UnifiedTokenVocab::from_byte_tokens("x", vec![1, 2, 3], TokenWidth::U32)),
        Some(VocabError::MissingByteFallback)
    );
    assert_eq!(
        fault(UnifiedTokenVocab::from_byte_tokens("x", (0u32..257).collect(), TokenWidth::U32)),
        Some(VocabError::MissingByteFallback)
    );
    let mut table = identity();
    table[5] = 0xFFFF;
    assert_eq!(
        fault(UnifiedTokenVocab::from_byte_tokens("x", table.clone(), TokenWidth::U16)),
        Some(VocabError::Capacity)
    );
    assert!(UnifiedTokenVocab::from_byte_tokens("x", table, TokenWidth::U32).is_ok());
    let mut table = identity();
    table[5] = 0xFFFF_FFFF;
    assert_eq!(
        fault(UnifiedTokenVocab::from_byte_tokens("x", table, TokenWidth::U32)),
        Some(VocabError::Capacity)
    );
    let mut table = identity();
    table[200] = 3;
    assert_eq!(
        fault(UnifiedTokenVocab::from_byte_tokens("x", table, TokenWidth::U32)),
        Some(VocabError::DuplicateToken)
    );
    // Capacity comes before duplicates.
    let mut table = identity();
    table[200] = 3;
    table[201] = 0xFFFF;
    assert_eq!(
        fault(UnifiedTokenVocab::from_byte_tokens("x", table, TokenWidth::U16)),
        Some(VocabError::Capacity)
    );
    assert_eq!(TokenWidth::U16.sentinel(), 0xFFFF);
    assert_eq!(TokenWidth::U32.sentinel(), u32::MAX);
}

#[test]
fn lookups_on_a_fresh_vocabulary() {
    let vocab = fresh(TokenWidth::U32);
    assert_eq!(vocab.token_width(), TokenWidth::U32);
    assert_eq!(vocab.segmentation().pattern(), r"\w+");
    assert_eq!(vocab.special_vocab().len(), 0);
    assert_eq!(vocab.lookup_token(b"a"), Some(97));
    assert_eq!(vocab.lookup_token(b"ab"), None);
    assert_eq!(vocab.lookup_token(b""), None);
    assert_eq!(vocab.lookup_span(97).unwrap(), b"a");
    assert_eq!(vocab.lookup_span(256), None);
    assert_eq!(vocab.lookup_pair(&(97, 98)), None);
    assert_eq!(vocab.lookup_special(b"<|x|>"), None);
    assert_eq!(vocab.byte_vocab().get_token(255), 255);
    let mut tokens = vec![1];
    vocab.byte_vocab().append_tokens(b"hi", &mut tokens);
    assert_eq!(tokens, vec![1, 104, 105]);
}

#[test]
fn merges_are_checked() {
    let mut vocab = fresh(TokenWidth::U16);
    assert_eq!(vocab.add_merge(97, 300, 301), Err(VocabError::UnknownToken));
    assert_eq!(vocab.add_merge(300, 97, 301), Err(VocabError::UnknownToken));
    assert_eq!(vocab.add_merge(97, 98, 0xFFFF), Err(VocabError::Capacity));
    assert_eq!(vocab.add_merge(97, 98, 70000), Err(VocabError::Capacity));
    assert_eq!(vocab.add_merge(97, 98, 300), Ok(()));
    assert_eq!(vocab.lookup_pair(&(97, 98)), Some(300));
    assert_eq!(vocab.lookup_pair(&(98, 97)), None);
    assert_eq!(vocab.lookup_token(b"ab"), Some(300));
    assert_eq!(vocab.lookup_span(300).unwrap(), b"ab");
    // The pair has a rank already.
    assert_eq!(vocab.add_merge(97, 98, 301), Err(VocabError::DuplicateToken));
    // The result ranks below both parts.
    assert_eq!(vocab.add_merge(300, 300, 250), Err(VocabError::MalformedMerge));
    // The id is taken by a token with another span.
    assert_eq!(vocab.add_merge(98, 97, 300), Err(VocabError::MalformedMerge));
    // The span is taken by a token with another id.
    assert_eq!(vocab.add_merge(97, 99, 301), Ok(()));
    assert_eq!(vocab.add_merge(301, 98, 400), Ok(()));
    assert_eq!(vocab.add_merge(98, 97, 401), Ok(()));
    assert_eq!(vocab.add_merge(97, 401, 402), Ok(()));
    // "acb" is 400; "a" + "cb" spells it too, under the same id only.
    assert_eq!(vocab.add_merge(99, 98, 403), Ok(()));
    assert_eq!(vocab.add_merge(97, 403, 404), Err(VocabError::DuplicateToken));
    assert_eq!(vocab.add_merge(97, 403, 400), Ok(()));
    assert_eq!(vocab.lookup_pair(&(97, 403)), Some(400));
    assert_eq!(vocab.lookup_pair(&(301, 98)), Some(400));
    // A result that does not rank below both parts may rank below one.
    assert_eq!(vocab.add_merge(400, 97, 350), Ok(()));
    // A failed merge changes nothing.
    assert_eq!(vocab.lookup_token(b"ba"), Some(401));
    assert_eq!(vocab.lookup_span(404), None);
}

#[test]
fn special_words_are_checked() {
    let mut vocab = fresh(TokenWidth::U16);
    vocab.add_merge(97, 98, 300).unwrap();
    assert_eq!(vocab.add_special("<|a|>", 0xFFFF), Err(VocabError::Capacity));
    assert_eq!(vocab.add_special("", 500), Err(VocabError::MalformedSpecial));
    assert_eq!(vocab.add_special("<|a|>", 300), Err(VocabError::MalformedSpecial));
    assert_eq!(vocab.add_special("ab", 500), Err(VocabError::MalformedSpecial));
    assert_eq!(vocab.add_special("a", 500), Err(VocabError::MalformedSpecial));
    assert_eq!(vocab.add_special("<|a|>", 500), Ok(()));
    assert_eq!(vocab.add_special("<|a|>", 501), Err(VocabError::DuplicateToken));
    assert_eq!(vocab.add_special("<|b|>", 500), Err(VocabError::DuplicateToken));
    assert_eq!(vocab.add_special("<|b|>", 501), Ok(()));
    assert_eq!(vocab.lookup_special(b"<|a|>"), Some(500));
    assert_eq!(vocab.lookup_special(b"<|b|>"), Some(501));
    assert_eq!(vocab.lookup_special(b"<|c|>"), None);
    assert_eq!(vocab.lookup_token(b"<|a|>"), None);
    assert_eq!(vocab.special_vocab().word(1), "<|b|>");
    // A merge may not take a special word's id or span.
    assert_eq!(vocab.add_merge(97, 99, 500), Err(VocabError::DuplicateToken));
    vocab.add_special("ac", 502).unwrap();
    assert_eq!(vocab.add_merge(97, 99, 600), Err(VocabError::DuplicateToken));
}

#[test]
fn decoding_spells_the_tokens() {
    let mut vocab = fresh(TokenWidth::U32);
    vocab.add_merge(104, 105, 300).unwrap();
    vocab.add_special("<|x|>", 9000).unwrap();
    assert_eq!(vocab.try_decode(&[300, 33, 9000, 104]).unwrap(), b"hi!<|x|>h");
    assert_eq!(vocab.try_decode(&[]).unwrap(), b"");
    assert_eq!(vocab.try_decode(&[300, 301]), None);
    assert_eq!(vocab.try_decode(&[9001]), None);
}

#[test]
fn byte_vocab_needs_all_256() {
    assert!(ByteMapVocab::from_table(vec![0; 255]).is_none());
    let table = ByteMapVocab::from_table((10u32..266).collect()).unwrap();
    assert_eq!(table.get_token(0), 10);
    assert_eq!(table.get_token(255), 265);
}

#[test]
fn span_map_is_one_to_one() {
    let mut map = SpanTokenMap::new();
    assert!(map.insert(b"ab", 1));
    assert!(map.insert(b"ba", 2));
    assert!(!map.insert(b"ab", 3));
    assert!(!map.insert(b"cd", 1));
    assert!(map.insert(b"", 4));
    assert_eq!(map.lookup_token(b"ab"), Some(1));
    assert_eq!(map.lookup_token(b"ba"), Some(2));
    assert_eq!(map.lookup_token(b""), Some(4));
    assert_eq!(map.lookup_token(b"cd"), None);
    assert_eq!(map.lookup_span(2).unwrap(), b"ba");
    assert_eq!(map.lookup_span(3), None);
    for i in 0..2000u32 {
        assert!(map.insert(format!("w{}", i).as_bytes(), 100 + i));
    }
    for i in 0..2000u32 {
        assert_eq!(map.lookup_token(format!("w{}", i).as_bytes()), Some(100 + i));
    }
}

#[test]
fn span_helpers() {
    // FNV-1a, 64 bits.
    assert_eq!(hash_span(b""), 0xcbf29ce484222325);
    assert_eq!(hash_span(b"a"), 0xaf63dc4c8601ec8c);
    assert_eq!(hash_span(b"foobar"), 0x85944171f73967e8);
    assert!(span_eq(b"abc", b"abc"));
    assert!(!span_eq(b"abc", b"abd"));
    assert!(!span_eq(b"abc", b"ab"));
    assert!(span_eq(b"", b""));
    assert_eq!(span_to_vec(b"xyz"), b"xyz".to_vec());
}

#[test]
fn special_vocab_alone() {
    let mut vocab = SpecialVocab::new();
    assert_eq!(vocab.len(), 0);
    assert!(vocab.add_str_word("<|a|>", 5));
    assert!(!vocab.add_str_word("<|a|>", 6));
    assert!(!vocab.add_str_word("<|b|>", 5));
    assert!(vocab.add_str_word("<|b|>", 6));
    assert_eq!(vocab.len(), 2);
    assert_eq!(vocab.word(0), "<|a|>");
    assert_eq!(vocab.word_token(0), 5);
    assert_eq!(vocab.lookup_token(b"<|b|>"), Some(6));
    assert!(!vocab.contains_token(7));
}
