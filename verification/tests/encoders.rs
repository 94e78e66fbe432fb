use wordchipper::encoders::merge_encoder::{
    HeapMergeContextBuilder, MergeContext, MergeContextBuilder, MergeEncoder,
};
use wordchipper::segmentation::text_segmentor::SpanRef;
use wordchipper::spanning::text_spanner::SpanRef as Span;
use wordchipper::encoders::pool_encoder::{build_pool_encoder, PoolEncoder};
use wordchipper::encoders::span_encoders::hybrid_span_encoder::{
    HybridSpanEncoder, GENERATION_SPAN, SWEEP_THRESHOLD,
};
use wordchipper::encoders::span_encoders::incremental_sweep_span_encoder::IncrementalSweepSpanEncoder;
use wordchipper::encoders::span_encoders::merge_heap_span_encoder::MergeHeapSpanEncoder;
use wordchipper::encoders::span_encoders::span_encoder::SpanEncoder;
use wordchipper::encoders::span_encoders::token_span_encoder::{
    build_encoder, EncoderStrategy, TokenSpanEncoder,
};
use wordchipper::encoders::token_encoder::{try_encode, try_encode_batch, TokenEncoder};
use wordchipper::pretrained::openai::OA_CL100K_BASE_PATTERN;
use wordchipper::regex::regex_wrapper::RegexWrapper;
use wordchipper::spanning::lexer_spanner::LexerTextSpanner;
use wordchipper::types::{EncodeError, TokenWidth};
use wordchipper::vocab::unified_vocab::UnifiedTokenVocab;

/// A byte table that gives byte `b` the token `b + shift`.
fn shift_byte_tokens(shift: u32) -> Vec<u32> {
    (0u32..256).map(|b| b + shift).collect()
}

/// The token of the span `word` in `vocab`, which must hold it.
fn token(vocab: &UnifiedTokenVocab, word: &str) -> u32 {
    vocab.lookup_token(word.as_bytes()).unwrap()
}

/// Adds the merge of the spans `left` and `right` into the token `id`.
fn merge(vocab: &mut UnifiedTokenVocab, left: &str, right: &str, id: u32) {
    let a = token(vocab, left);
    let b = token(vocab, right);
    vocab.add_merge(a, b, id).unwrap();
}

/// A small vocabulary over shifted byte tokens, with a few merges and one
/// special word.
fn common_encoder_test_vocab(width: TokenWidth) -> UnifiedTokenVocab {
    let mut vocab =
        UnifiedTokenVocab::from_byte_tokens(OA_CL100K_BASE_PATTERN, shift_byte_tokens(10), width)
            .unwrap();
    let merges: [(&str, &str, u32); 14] = [
        ("h", "e", 300),
        ("l", "l", 301),
        ("he", "ll", 302),
        ("hell", "o", 303),
        (" ", "w", 304),
        ("o", "r", 305),
        (" w", "or", 306),
        ("l", "d", 307),
        (" wor", "ld", 308),
        ("t", "h", 309),
        ("th", "e", 310),
        (" ", "s", 311),
        ("a", "n", 312),
        ("i", "t", 313),
    ];
    for (left, right, id) in merges {
        merge(&mut vocab, left, right, id);
    }
    vocab.add_special("<|HI|>", 3000).unwrap();
    vocab
}

fn decode_to_string(vocab: &UnifiedTokenVocab, tokens: &[u32]) -> String {
    String::from_utf8(vocab.try_decode(tokens).unwrap()).unwrap()
}

/// What every encoder over the test vocabulary must do: `encode` is one
/// text's encoding, `encode_batch` a batch's.
fn common_encoder_tests(
    vocab: &UnifiedTokenVocab,
    encode: &dyn Fn(&str) -> Vec<u32>,
    encode_batch: &dyn Fn(&[&str]) -> Vec<Vec<u32>>,
) {
    let samples = vec![
        "hello world",
        "hello san francisco",
        "it's not the heat, it's the salt",
    ];

    let token_batch = encode_batch(&samples);
    let decoded: Vec<String> = token_batch
        .iter()
        .map(|tokens| decode_to_string(vocab, tokens))
        .collect();
    assert_eq!(decoded, samples);

    let special_sample = "hello <|HI|> world";
    let tokens = encode(special_sample);
    assert_eq!(decode_to_string(vocab, &tokens), special_sample);
    assert!(tokens.contains(&3000));
}

fn merge_encoder_case(width: TokenWidth) {
    let vocab = common_encoder_test_vocab(width);
    let encoder = MergeEncoder::<HeapMergeContextBuilder>::init(common_encoder_test_vocab(width))
        .unwrap();
    common_encoder_tests(
        &vocab,
        &|text| try_encode(&encoder, text).unwrap(),
        &|texts| try_encode_batch(&encoder, texts).unwrap(),
    );
}

#[test]
fn merge_encoder_test_encoder_u16() {
    merge_encoder_case(TokenWidth::U16);
}

#[test]
fn merge_encoder_test_encoder_u32() {
    merge_encoder_case(TokenWidth::U32);
}

fn pool_encoder_case(width: TokenWidth) {
    let vocab = common_encoder_test_vocab(width);
    let inner = MergeEncoder::<HeapMergeContextBuilder>::init(common_encoder_test_vocab(width))
        .unwrap();
    let encoder = PoolEncoder::new(inner, None, 4);

    assert_eq!(
        encoder.get(0).segmentor().span_re().as_str(),
        vocab.segmentation().pattern()
    );
    assert_eq!(
        encoder.get(1).special_vocab().lookup_token(b"<|HI|>"),
        vocab.special_vocab().lookup_token(b"<|HI|>")
    );

    common_encoder_tests(
        &vocab,
        &|text| {
            let mut tokens = Vec::new();
            encoder.try_encode_append(7, text, &mut tokens).unwrap();
            tokens
        },
        &|texts| {
            texts
                .iter()
                .enumerate()
                .map(|(i, text)| {
                    let mut tokens = Vec::new();
                    encoder.try_encode_append(i, text, &mut tokens).unwrap();
                    tokens
                })
                .collect()
        },
    );
}

#[test]
fn pool_encoder_test_encoder_u16() {
    pool_encoder_case(TokenWidth::U16);
}

#[test]
fn pool_encoder_test_encoder_u32() {
    pool_encoder_case(TokenWidth::U32);
}

fn hybrid_span_encoder_case(width: TokenWidth) {
    let vocab = common_encoder_test_vocab(width);
    let encoder = build_encoder(common_encoder_test_vocab(width), EncoderStrategy::Hybrid).unwrap();
    common_encoder_tests(
        &vocab,
        &|text| try_encode(&encoder, text).unwrap(),
        &|texts| try_encode_batch(&encoder, texts).unwrap(),
    );
}

#[test]
fn hybrid_span_encoder_test_encoder_u16() {
    hybrid_span_encoder_case(TokenWidth::U16);
}

#[test]
fn hybrid_span_encoder_test_encoder_u32() {
    hybrid_span_encoder_case(TokenWidth::U32);
}

/// A vocabulary with the ids that `cl100k_base` gives the tokens of the
/// scenarios below, over a byte table that is the identity but for the two
/// bytes that the scenarios pin down.
fn scenario_vocab() -> UnifiedTokenVocab {
    let mut bytes: Vec<u32> = (0u32..256).collect();
    // Byte 0x9E is token 252.
    bytes.swap(0x9E, 252);
    let mut vocab =
        UnifiedTokenVocab::from_byte_tokens(OA_CL100K_BASE_PATTERN, bytes, TokenWidth::U32)
            .unwrap();
    let merges: [(&str, &str, u32); 13] = [
        ("h", "e", 300),
        ("l", "l", 301),
        ("he", "ll", 302),
        ("hell", "o", 15339),
        (" ", "w", 303),
        ("o", "r", 304),
        ("l", "d", 305),
        ("or", "ld", 306),
        (" w", "orld", 1917),
        ("w", "or", 307),
        ("wor", "ld", 14957),
        (" ", " ", 308),
        ("  ", " ", 256),
    ];
    for (left, right, id) in merges {
        merge(&mut vocab, left, right, id);
    }
    let byte_merges: [(&[u8], &[u8], u32); 5] = [
        (&[0xE6], &[0x97], 400),
        (&[0xE6, 0x97], &[0xA5], 9080),
        (&[0xE6], &[0x9C], 401),
        (&[0xE6, 0x9C], &[0xAC], 42960),
        (&[0xE8], &[0xAA], 45918),
    ];
    for (left, right, id) in byte_merges {
        let a = vocab.lookup_token(left).unwrap();
        let b = vocab.lookup_token(right).unwrap();
        vocab.add_merge(a, b, id).unwrap();
    }
    vocab.add_special("<|endoftext|>", 100257).unwrap();
    vocab
}

const STRATEGIES: [EncoderStrategy; 3] = [
    EncoderStrategy::IncrementalSweep,
    EncoderStrategy::MergeHeap,
    EncoderStrategy::Hybrid,
];

fn encode_all_ways(make: &dyn Fn() -> UnifiedTokenVocab, text: &str) -> Vec<u32> {
    let merged = try_encode(
        &MergeEncoder::<HeapMergeContextBuilder>::init(make()).unwrap(),
        text,
    )
    .unwrap();
    for strategy in STRATEGIES {
        let encoder = build_encoder(make(), strategy).unwrap();
        assert_eq!(try_encode(&encoder, text).unwrap(), merged, "{:?}", strategy);
    }
    merged
}

#[test]
fn scenario_empty_text() {
    assert_eq!(encode_all_ways(&scenario_vocab, ""), Vec::<u32>::new());
}

#[test]
fn scenario_hello_world() {
    assert_eq!(encode_all_ways(&scenario_vocab, "hello world"), vec![15339, 1917]);
}

#[test]
fn scenario_special_alone() {
    assert_eq!(encode_all_ways(&scenario_vocab, "<|endoftext|>"), vec![100257]);
}

#[test]
fn scenario_special_between_words() {
    assert_eq!(
        encode_all_ways(&scenario_vocab, "hello<|endoftext|>world"),
        vec![15339, 100257, 14957]
    );
}

#[test]
fn scenario_multi_byte_fallback() {
    assert_eq!(
        encode_all_ways(&scenario_vocab, "日本語"),
        vec![9080, 42960, 45918, 252]
    );
}

#[test]
fn scenario_three_spaces() {
    assert_eq!(encode_all_ways(&scenario_vocab, "   "), vec![256]);
}

#[test]
fn boundary_single_byte_and_single_codepoint() {
    assert_eq!(encode_all_ways(&scenario_vocab, "h"), vec![b'h' as u32]);
    // "é" is one codepoint of two bytes without a merge.
    assert_eq!(encode_all_ways(&scenario_vocab, "é"), vec![0xC3, 0xA9]);
    // A codepoint between a word and a special word.
    assert_eq!(
        encode_all_ways(&scenario_vocab, "hello日<|endoftext|>"),
        vec![15339, 9080, 100257]
    );
}

#[test]
fn boundary_special_as_prefix_suffix_and_sole_content() {
    assert_eq!(
        encode_all_ways(&scenario_vocab, "<|endoftext|>hello"),
        vec![100257, 15339]
    );
    assert_eq!(
        encode_all_ways(&scenario_vocab, "hello<|endoftext|>"),
        vec![15339, 100257]
    );
    assert_eq!(encode_all_ways(&scenario_vocab, "<|endoftext|>"), vec![100257]);
    assert_eq!(
        encode_all_ways(&scenario_vocab, "<|endoftext|><|endoftext|>"),
        vec![100257, 100257]
    );
}

/// A span encoder that must never be asked: it fails the test if it is.
struct NeverAsked;

impl SpanEncoder for NeverAsked {
    fn encode_append_compound_span(
        &mut self,
        _vocab: &UnifiedTokenVocab,
        _span: &[u8],
        _tokens: &mut Vec<u32>,
    ) {
        panic!("the span encoder was entered for a word of the vocabulary");
    }
}

#[test]
fn boundary_whole_word_skips_the_span_encoder() {
    let encoder = build_encoder(scenario_vocab(), EncoderStrategy::Hybrid).unwrap();
    let mut tokens = Vec::new();
    encoder
        .encode_append_with(&mut NeverAsked, "hello world", &mut tokens)
        .unwrap();
    assert_eq!(tokens, vec![15339, 1917]);
}

#[test]
fn boundary_word_without_merges_stays_byte_level() {
    assert_eq!(
        encode_all_ways(&scenario_vocab, "xyz"),
        vec![b'x' as u32, b'y' as u32, b'z' as u32]
    );
}

/// A vocabulary over the letters whose merges make a long run collapse.
fn run_vocab() -> UnifiedTokenVocab {
    let mut vocab =
        UnifiedTokenVocab::from_byte_tokens("\\w+", (0u32..256).collect(), TokenWidth::U32)
            .unwrap();
    let merges: [(&str, &str, u32); 6] = [
        ("a", "b", 1000),
        ("ab", "ab", 1001),
        ("c", "d", 1002),
        ("abab", "cd", 1003),
        ("b", "c", 999),
        ("d", "a", 1004),
    ];
    for (left, right, id) in merges {
        merge(&mut vocab, left, right, id);
    }
    vocab
}

fn span_encoders_agree(vocab: &UnifiedTokenVocab, span: &[u8]) -> Vec<u32> {
    let mut swept = vec![7u32];
    IncrementalSweepSpanEncoder::new().encode_append_compound_span(vocab, span, &mut swept);
    let mut heaped = vec![7u32];
    MergeHeapSpanEncoder::new().encode_append_compound_span(vocab, span, &mut heaped);
    let mut mixed = vec![7u32];
    HybridSpanEncoder::new().encode_append_compound_span(vocab, span, &mut mixed);
    assert_eq!(swept, heaped);
    assert_eq!(swept, mixed);
    for threshold in [0usize, 1, 2, 3, 1000] {
        let mut tuned = vec![7u32];
        HybridSpanEncoder::with_threshold(threshold)
            .encode_append_compound_span(vocab, span, &mut tuned);
        assert_eq!(swept, tuned, "threshold {}", threshold);
    }
    assert_eq!(swept[0], 7);
    swept[1..].to_vec()
}

#[test]
fn boundary_sweep_threshold() {
    let vocab = run_vocab();
    let at = "abcdabcdabcdabcd";
    assert_eq!(at.len(), SWEEP_THRESHOLD);
    // (b, c) has the least rank, so it merges first everywhere; then (d, a).
    assert_eq!(
        span_encoders_agree(&vocab, at.as_bytes()),
        vec![97, 999, 1004, 999, 1004, 999, 1004, 999, 100]
    );
    let over = "abcdabcdabcdabcda";
    assert_eq!(over.len(), SWEEP_THRESHOLD + 1);
    assert_eq!(
        span_encoders_agree(&vocab, over.as_bytes()),
        vec![97, 999, 1004, 999, 1004, 999, 1004, 999, 1004]
    );
}

#[test]
fn exact_merges_leftmost_first() {
    let vocab = run_vocab();
    // (a, b) at both places before (ab, ab).
    assert_eq!(span_encoders_agree(&vocab, b"abab"), vec![1001]);
    // In "aba" only the first pair can merge.
    assert_eq!(span_encoders_agree(&vocab, b"aba"), vec![1000, 97]);
    assert_eq!(span_encoders_agree(&vocab, b""), Vec::<u32>::new());
    assert_eq!(span_encoders_agree(&vocab, b"a"), vec![97]);
}

#[test]
fn sweep_and_heap_merge_in_place() {
    let vocab = run_vocab();
    let mut tokens: Vec<u32> = vec![5, 97, 98, 97, 98, 99, 100];
    HybridSpanEncoder::sweep(&vocab, &mut tokens, 1);
    // (b, c) first, then (a, b), then nothing more.
    assert_eq!(tokens, vec![5, 1000, 97, 999, 100]);
    let mut tokens: Vec<u32> = vec![5, 97, 98, 97, 98, 99, 100];
    HybridSpanEncoder::new().heap_merge(&vocab, &mut tokens, 1);
    assert_eq!(tokens, vec![5, 1000, 97, 999, 100]);
    // An empty tail and a tail of one token stay as they are.
    for start in [6usize, 7] {
        let mut swept: Vec<u32> = vec![5, 97, 98, 97, 98, 99, 100];
        HybridSpanEncoder::sweep(&vocab, &mut swept, start);
        let mut heaped: Vec<u32> = vec![5, 97, 98, 97, 98, 99, 100];
        HybridSpanEncoder::new().heap_merge(&vocab, &mut heaped, start);
        assert_eq!(swept, vec![5, 97, 98, 97, 98, 99, 100]);
        assert_eq!(heaped, swept);
    }
    // One encoder, many spans: the buffers of the last span do not tell.
    let mut merger = HybridSpanEncoder::new();
    for start in [0usize, 1, 2, 3, 4, 5] {
        let mut swept: Vec<u32> = vec![97, 98, 97, 98, 99, 100, 97, 98, 99];
        HybridSpanEncoder::sweep(&vocab, &mut swept, start);
        let mut heaped: Vec<u32> = vec![97, 98, 97, 98, 99, 100, 97, 98, 99];
        merger.heap_merge(&vocab, &mut heaped, start);
        assert_eq!(heaped, swept, "start {}", start);
    }
}

/// A vocabulary in which one position's neighbour merges 256 times with
/// ranks below the rank of the pair that waits at that position.
fn wrap_vocab() -> UnifiedTokenVocab {
    let mut vocab =
        UnifiedTokenVocab::from_byte_tokens("\\w+", (0u32..256).collect(), TokenWidth::U32)
            .unwrap();
    let a = b'a' as u32;
    let b = b'b' as u32;
    let c = b'c' as u32;
    vocab.add_merge(a, b, 5000).unwrap();
    let mut left = b;
    for k in 1..=256u32 {
        vocab.add_merge(left, c, 1000 + k).unwrap();
        left = 1000 + k;
    }
    vocab
}

#[test]
fn long_span_with_wrapping_generations() {
    let vocab = wrap_vocab();
    let text = format!("ab{}", "c".repeat(256));
    assert!(text.len() > GENERATION_SPAN);
    // (b, c) and its successors all rank below (a, b), so `b` is gone before
    // (a, b) comes up, and `a` stays alone.
    assert_eq!(span_encoders_agree(&vocab, text.as_bytes()), vec![97, 1256]);
    assert_eq!(encode_all_ways(&wrap_vocab, &text), vec![97, 1256]);
}

#[test]
fn batch_is_each_text_in_order() {
    let encoder = build_encoder(scenario_vocab(), EncoderStrategy::Hybrid).unwrap();
    let texts = ["hello world", "", "   ", "hello<|endoftext|>world"];
    let batch = try_encode_batch(&encoder, &texts).unwrap();
    assert_eq!(batch.len(), texts.len());
    for (i, text) in texts.iter().enumerate() {
        assert_eq!(batch[i], try_encode(&encoder, text).unwrap());
    }
    assert_eq!(batch[0], vec![15339, 1917]);
    assert_eq!(batch[1], Vec::<u32>::new());
}

#[test]
fn repeated_calls_agree() {
    let encoder = build_encoder(scenario_vocab(), EncoderStrategy::MergeHeap).unwrap();
    let first = try_encode(&encoder, "hello world 日本語").unwrap();
    let second = try_encode(&encoder, "hello world 日本語").unwrap();
    assert_eq!(first, second);
}

#[test]
fn pool_size_and_slot_do_not_matter() {
    let text = "hello<|endoftext|>world   日本語";
    let plain = try_encode(
        &build_encoder(scenario_vocab(), EncoderStrategy::Hybrid).unwrap(),
        text,
    )
    .unwrap();
    for size in [1usize, 2, 5] {
        let inner = build_encoder(scenario_vocab(), EncoderStrategy::Hybrid).unwrap();
        let pool = PoolEncoder::new(inner, Some(size), 8);
        for hash in [0usize, 1, 2, 17, usize::MAX] {
            let mut tokens = vec![1u32];
            pool.try_encode_append(hash, text, &mut tokens).unwrap();
            assert_eq!(tokens[0], 1);
            assert_eq!(tokens[1..], plain[..]);
        }
    }
}

#[test]
fn round_trip_drops_nothing_of_words_and_specials() {
    let vocab = scenario_vocab();
    let encoder = build_encoder(scenario_vocab(), EncoderStrategy::Hybrid).unwrap();
    for text in ["hello world", "   hello<|endoftext|>日本語  xyz!", ""] {
        let tokens = try_encode(&encoder, text).unwrap();
        assert_eq!(decode_to_string(&vocab, &tokens), text);
    }
}

#[test]
fn append_keeps_what_was_there() {
    let encoder = build_encoder(scenario_vocab(), EncoderStrategy::IncrementalSweep).unwrap();
    let mut tokens = vec![1u32, 2, 3];
    encoder.try_encode_append("hello world", &mut tokens).unwrap();
    assert_eq!(tokens, vec![1, 2, 3, 15339, 1917]);
}

#[test]
fn unknown_special_fails_and_leaves_the_buffer() {
    // The lexer knows a special word that the vocabulary does not.
    let spanner = LexerTextSpanner::new(
        RegexWrapper::compile("\\w+").unwrap(),
        Some(RegexWrapper::compile("<\\|X\\|>").unwrap()),
    );
    let encoder = TokenSpanEncoder::new(
        spanner,
        std::sync::Arc::new(scenario_vocab()),
        EncoderStrategy::Hybrid,
    );
    let mut tokens = vec![9u32];
    assert_eq!(
        encoder.try_encode_append("hello<|X|>", &mut tokens),
        Err(EncodeError::UnknownSpecial)
    );
    assert_eq!(tokens, vec![9]);
    assert_eq!(try_encode(&encoder, "hello<|X|>"), Err(EncodeError::UnknownSpecial));
    assert_eq!(
        try_encode_batch(&encoder, &["hello", "<|X|>"]),
        Err(EncodeError::UnknownSpecial)
    );
    assert_eq!(try_encode(&encoder, "hello"), Ok(vec![15339]));
}

#[test]
fn invalid_pattern_is_refused_at_construction() {
    let vocab = UnifiedTokenVocab::from_byte_tokens("(", (0u32..256).collect(), TokenWidth::U32)
        .unwrap();
    assert!(build_encoder(vocab, EncoderStrategy::Hybrid).is_err());
    let vocab = UnifiedTokenVocab::from_byte_tokens("(", (0u32..256).collect(), TokenWidth::U32)
        .unwrap();
    assert!(MergeEncoder::<HeapMergeContextBuilder>::init(vocab).is_err());
}

#[test]
fn merge_encoder_encodes_one_span_at_a_time() {
    let vocab = scenario_vocab();
    let encoder = MergeEncoder::<HeapMergeContextBuilder>::init(scenario_vocab()).unwrap();
    let mut context = HeapMergeContextBuilder::build_merge_context(&vocab);
    let text = "hello<|endoftext|>日本語x";
    let mut tokens = vec![4u32];
    assert!(encoder.can_encode_span_ref(text, &SpanRef::Normal(0..5)));
    encoder.encode_append_span_ref(text, SpanRef::Normal(0..5), &mut tokens, &mut context);
    assert!(encoder.can_encode_span_ref(text, &SpanRef::Special(5..18)));
    encoder.encode_append_span_ref(text, SpanRef::Special(5..18), &mut tokens, &mut context);
    encoder.encode_append_span_ref(text, SpanRef::Normal(18..27), &mut tokens, &mut context);
    assert_eq!(tokens, vec![4, 15339, 100257, 9080, 42960, 45918, 252]);
    // A special span that is no special word cannot be encoded.
    assert!(!encoder.can_encode_span_ref(text, &SpanRef::Special(0..5)));
    assert!(!encoder.can_encode_span_ref(text, &SpanRef::Special(5..17)));
    // An empty word has no tokens.
    encoder.encode_append_span_ref(text, SpanRef::Normal(5..5), &mut tokens, &mut context);
    assert_eq!(tokens.len(), 7);
    let mut word = Vec::new();
    context.encode_append_word("helloworld".as_bytes(), &mut word);
    // (or, ld) ranks before (w, or), so "w" stays alone.
    assert_eq!(word, vec![15339, 119, 306]);
    assert_eq!(encoder.data().lookup_token(b"hello"), Some(15339));
    assert_eq!(encoder.segmentor().next_special_span(text), Some(5..18));
    assert_eq!(encoder.special_vocab().len(), 1);
}

#[test]
fn a_word_has_the_same_tokens_wherever_it_stands() {
    let encoder = build_encoder(scenario_vocab(), EncoderStrategy::Hybrid).unwrap();
    let alone = try_encode(&encoder, "日本語").unwrap();
    let after = try_encode(&encoder, "hello<|endoftext|>日本語").unwrap();
    let before = try_encode(&encoder, "日本語<|endoftext|>hello").unwrap();
    assert_eq!(after[2..], alone[..]);
    assert_eq!(before[..alone.len()], alone[..]);
    // A special word stands as its one token at its place.
    assert_eq!(after[1], 100257);
    assert_eq!(before[alone.len()], 100257);
}

#[test]
fn pooled_encoder_is_built_in_one_step() {
    let text = "hello world<|endoftext|>";
    for strategy in STRATEGIES {
        let pool = build_pool_encoder(scenario_vocab(), strategy, Some(3), 2).unwrap();
        let mut tokens = Vec::new();
        pool.try_encode_append(11, text, &mut tokens).unwrap();
        assert_eq!(tokens, vec![15339, 1917, 100257]);
    }
    let vocab = UnifiedTokenVocab::from_byte_tokens("(", (0u32..256).collect(), TokenWidth::U32)
        .unwrap();
    assert!(build_pool_encoder(vocab, EncoderStrategy::Hybrid, None, 2).is_err());
}

#[test]
fn span_encoder_driver_encodes_one_span_at_a_time() {
    let encoder = build_encoder(scenario_vocab(), EncoderStrategy::Hybrid).unwrap();
    let mut merger = HybridSpanEncoder::new();
    let text = "hello <|endoftext|>日本語";
    let mut tokens = vec![4u32];
    for span in [Span::Word(0..5), Span::Gap(5..6), Span::Special(6..19), Span::Word(19..28)] {
        assert!(encoder.can_encode_span(text, &span));
        encoder.encode_append_span(text, &span, &mut tokens, &mut merger);
    }
    assert_eq!(tokens, vec![4, 15339, 100257, 9080, 42960, 45918, 252]);
    assert!(!encoder.can_encode_span(text, &Span::Special(0..5)));
    assert!(encoder.can_encode_span(text, &Span::Gap(0..5)));
}

#[test]
fn special_word_splits_the_encoding() {
    let encoder = MergeEncoder::<HeapMergeContextBuilder>::init(scenario_vocab()).unwrap();
    for (before, after) in [
        ("hello", "world"),
        ("", "hello world"),
        ("hello world", ""),
        ("", ""),
        ("日本語 ", "<|endoftext|>x"),
    ] {
        let text = format!("{}<|endoftext|>{}", before, after);
        let mut expected = try_encode(&encoder, before).unwrap();
        expected.push(100257);
        expected.extend(try_encode(&encoder, after).unwrap());
        assert_eq!(try_encode(&encoder, &text).unwrap(), expected, "{:?}", text);
        for strategy in STRATEGIES {
            let driver = build_encoder(scenario_vocab(), strategy).unwrap();
            let mut expected = try_encode(&driver, before).unwrap();
            expected.push(100257);
            expected.extend(try_encode(&driver, after).unwrap());
            assert_eq!(try_encode(&driver, &text).unwrap(), expected, "{:?}", text);
        }
    }
}
