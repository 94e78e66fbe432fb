use wordchipper::compat::ranges::offset_range;
use wordchipper::compat::strings::substring;
use wordchipper::pretrained::openai::{OA_CL100K_BASE_PATTERN, OA_O200K_BASE_PATTERN};
use wordchipper::regex::regex_wrapper::RegexWrapper;
use wordchipper::segmentation::segmentation_config::SegmentationConfig;
use wordchipper::segmentation::text_segmentor::{append_normal_words, SpanRef, TextSegmentor};
use wordchipper::types::VocabError;

#[test]
fn text_segmentor_test_split_words() {
    let config = SegmentationConfig::from_pattern(OA_CL100K_BASE_PATTERN)
        .with_special_words(&[("<|FNORD|>", 4000), ("<|NORP|>", 4001)])
        .unwrap();

    let segmentor = TextSegmentor::from_config(&config).unwrap();

    let buf = "hello<|FNORD|> wor<|NORP|>ld!";

    assert_eq!(
        &segmentor.split_spans(buf),
        &vec![
            SpanRef::Normal(0..5),
            SpanRef::Special(5..14),
            SpanRef::Normal(14..18),
            SpanRef::Special(18..26),
            SpanRef::Normal(26..28),
            SpanRef::Normal(28..buf.len()),
        ]
    );
}

#[test]
fn text_segmentor_test_rewrite() {
    let config = SegmentationConfig::from_pattern(r"\w+");

    let segmentor = TextSegmentor::from_config(&config).unwrap();

    let buf = "hello world!";
    assert_eq!(segmentor.rewrite(buf), "helloworld");
}

#[test]
fn segmentor_parts() {
    let segmentor = TextSegmentor::init(r"\w+", &["<|A|>", "<|AB|>"]).unwrap();
    assert_eq!(segmentor.span_re().as_str(), r"\w+");
    assert_eq!(segmentor.special_re().unwrap().as_str(), r"(<\|A\|>|<\|AB\|>)");
    assert_eq!(segmentor.next_special_span("xx<|AB|>"), Some(2..8));
    assert_eq!(segmentor.next_special_span("xx"), None);

    let plain = TextSegmentor::init(r"\w+", &[]).unwrap();
    assert!(plain.special_re().is_none());
    assert_eq!(plain.next_special_span("<|A|>"), None);

    let built = TextSegmentor::new(RegexWrapper::compile("b+").unwrap(), None);
    assert_eq!(built.split_spans("abba"), vec![SpanRef::Normal(1..3)]);

    let mut words = vec![SpanRef::Special(0..1)];
    segmentor.split_append_spans("é<|A|> é", &mut words);
    assert_eq!(
        words,
        vec![
            SpanRef::Special(0..1),
            SpanRef::Normal(0..2),
            SpanRef::Special(2..7),
            SpanRef::Normal(8..10)
        ]
    );
    let mut words = Vec::new();
    segmentor.split_append_normal_words("ab cd", 3, &mut words);
    assert_eq!(words, vec![SpanRef::Normal(3..5), SpanRef::Normal(6..8)]);
    assert_eq!(segmentor.split_spans(""), Vec::<SpanRef>::new());
    assert_eq!(segmentor.rewrite("a é <|A|>!"), "aé<|A|>");
    assert_eq!(SpanRef::Normal(3..5).range(), 3..5);
    assert_eq!(segmentor.clone().split_spans("x<|A|>"), segmentor.split_spans("x<|A|>"));
}

#[test]
fn segmentor_refuses_a_pattern_that_does_not_compile() {
    assert!(TextSegmentor::init("(", &[]).is_err());
    assert!(TextSegmentor::init("[a-", &["x"]).is_err());
    assert!(TextSegmentor::from_config(&SegmentationConfig::from_pattern("(?P<")).is_err());
}

#[test]
fn published_patterns_compile() {
    let cl100k = RegexWrapper::compile(OA_CL100K_BASE_PATTERN).unwrap();
    assert_eq!(
        cl100k.find_all("It's 12345 o'clock\n"),
        vec![(0, 2), (2, 4), (4, 5), (5, 8), (8, 10), (10, 12), (12, 18), (18, 19)]
    );
    let o200k = RegexWrapper::compile(OA_O200K_BASE_PATTERN).unwrap();
    assert_eq!(o200k.find_all("Hello World's"), vec![(0, 5), (5, 13)]);
}

#[test]
fn config_keeps_the_special_words_in_order() {
    let config = SegmentationConfig::from_pattern("x")
        .with_special_words(&[("<|B|>", 7), ("<|A|>", 5)])
        .unwrap();
    assert_eq!(config.pattern(), "x");
    assert_eq!(config.special_vocab().len(), 2);
    assert_eq!(config.special_vocab().word(0), "<|B|>");
    assert_eq!(config.special_vocab().word_token(1), 5);
    assert_eq!(config.special_vocab().lookup_token(b"<|A|>"), Some(5));
    assert_eq!(config.special_vocab().lookup_token(b"<|C|>"), None);
    assert!(config.special_vocab().contains_token(7));
    assert_eq!(config.special_vocab().lookup_span(7).unwrap(), b"<|B|>");

    let mut config = config;
    assert_eq!(config.add_special_word("<|A|>", 9), Err(VocabError::DuplicateToken));
    assert_eq!(config.add_special_word("<|C|>", 7), Err(VocabError::DuplicateToken));
    assert_eq!(config.add_special_word("<|C|>", 9), Ok(()));
    assert_eq!(config.special_vocab().len(), 3);
    assert!(matches!(
        SegmentationConfig::from_pattern("x").with_special_words(&[("a", 1), ("a", 2)]),
        Err(VocabError::DuplicateToken)
    ));
}

#[test]
fn ranges_and_substrings() {
    assert_eq!(offset_range(2..5, 10), 12..15);
    assert_eq!(offset_range(0..0, 0), 0..0);
    assert_eq!(substring("aé日b", 1, 6), "é日");
    assert_eq!(substring("aé日b", 0, 7), "aé日b");
    assert_eq!(substring("abc", 2, 2), "");
}

#[test]
fn matches_become_normal_words_at_their_offset() {
    let mut words = vec![SpanRef::Special(0..2)];
    append_normal_words(&vec![(0, 2), (3, 3), (4, 9)], 10, &mut words);
    assert_eq!(
        words,
        vec![
            SpanRef::Special(0..2),
            SpanRef::Normal(10..12),
            SpanRef::Normal(13..13),
            SpanRef::Normal(14..19)
        ]
    );
    append_normal_words(&vec![], 5, &mut words);
    assert_eq!(words.len(), 4);
    let range: std::ops::Range<usize> = SpanRef::Special(3..8).into();
    assert_eq!(range, 3..8);
}
