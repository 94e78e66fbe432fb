use wordchipper::pretrained::openai::OA_CL100K_BASE_PATTERN;
use wordchipper::regex::exact_match_union::exact_match_union_regex_pattern;
use wordchipper::regex::regex_wrapper::RegexWrapper;
use wordchipper::segmentation::segmentation_config::SegmentationConfig;
use wordchipper::spanning::lexer_spanner::LexerTextSpanner;
use wordchipper::spanning::list_lexer::ListLexer;
use wordchipper::spanning::span_lexer::SpanLexer;
use wordchipper::spanning::text_spanner::SpanRef;
use wordchipper::spanning::text_spanner::SpanRef::{Gap, Special, Word};

fn from_config(config: &SegmentationConfig) -> LexerTextSpanner<RegexWrapper, RegexWrapper> {
    let vocab = config.special_vocab();
    let words: Vec<&str> = (0..vocab.len()).map(|i| vocab.word(i)).collect();
    let special = if words.is_empty() {
        None
    } else {
        Some(RegexWrapper::compile(&exact_match_union_regex_pattern(&words)).unwrap())
    };
    LexerTextSpanner::new(RegexWrapper::compile(config.pattern()).unwrap(), special)
}

#[test]
fn test_for_each_split_span() {
    let config = SegmentationConfig::from_pattern(r"\w+")
        .with_special_words(&[("<|FNORD|>", 4000), ("<|NORP|>", 4001)])
        .unwrap();

    let spanner = from_config(&config);

    let source = "abc 1<|FNORD|> def  <|NORP|> ghi   ";

    let mut spans: Vec<SpanRef> = Vec::new();
    spanner.for_each_split_span(source, &mut |span_ref| {
        spans.push(span_ref);
        true
    });
    assert_eq!(
        spans,
        vec![
            Word(0..3),
            Gap(3..4),
            Word(4..5),
            Special(5..14),
            Gap(14..15),
            Word(15..18),
            Gap(18..20),
            Special(20..28),
            Gap(28..29),
            Word(29..32),
            Gap(32..35),
        ]
    );

    // The following exercise the different halting points.

    // Word exit.
    let mut spans: Vec<SpanRef> = Vec::new();
    spanner.for_each_split_span("   abc", &mut |span_ref| match span_ref {
        Word(_) => false,
        _ => {
            spans.push(span_ref);
            true
        }
    });
    assert_eq!(spans, vec![Gap(0..3)]);

    // Special exit.
    let mut spans: Vec<SpanRef> = Vec::new();
    spanner.for_each_split_span("abc   def<|FNORD|>", &mut |span_ref| match span_ref {
        Special(_) => false,
        _ => {
            spans.push(span_ref);
            true
        }
    });
    assert_eq!(spans, vec![Word(0..3), Gap(3..6), Word(6..9)]);

    // Leading gap exit.
    let mut spans: Vec<SpanRef> = Vec::new();
    spanner.for_each_split_span("abc  def", &mut |span_ref| match span_ref {
        Gap(_) => false,
        _ => {
            spans.push(span_ref);
            true
        }
    });
    assert_eq!(spans, vec![Word(0..3)]);

    // Trailing gap exit.
    let mut spans: Vec<SpanRef> = Vec::new();
    spanner.for_each_split_span("foo  ", &mut |span_ref| match span_ref {
        Gap(_) => false,
        _ => {
            spans.push(span_ref);
            true
        }
    });
    assert_eq!(spans, vec![Word(0..3)]);
}

#[test]
fn lexer_spanner_test_split_words() {
    let config = SegmentationConfig::from_pattern(OA_CL100K_BASE_PATTERN)
        .with_special_words(&[("<|FNORD|>", 4000), ("<|NORP|>", 4001)])
        .unwrap();

    let spanner = from_config(&config);

    let buf = "hello<|FNORD|> wor<|NORP|>ld!";

    assert_eq!(
        &spanner.split_spans(buf),
        &vec![
            SpanRef::Word(0..5),
            SpanRef::Special(5..14),
            SpanRef::Word(14..18),
            SpanRef::Special(18..26),
            SpanRef::Word(26..28),
            SpanRef::Word(28..buf.len()),
        ]
    );
}

#[test]
fn lexer_spanner_test_rewrite() {
    let config = SegmentationConfig::from_pattern(r"\w+");

    let spanner = from_config(&config);

    let buf = vec!["hello world!", "abc def"];
    assert_eq!(
        spanner.batch_remove_gaps(&buf),
        vec!["helloworld", "abcdef"]
    );
}

#[test]
fn visit_reports_where_it_halted() {
    let config = SegmentationConfig::from_pattern(r"\w+")
        .with_special_words(&[("<|FNORD|>", 4000)])
        .unwrap();
    let spanner = from_config(&config);
    let text = "abc def<|FNORD|>ghi jkl";

    // Every span visited: the count is the length of the rest after the
    // last special span.
    assert_eq!(spanner.for_each_split_span(text, &mut |_| true), (true, 7));
    // Halted before the special span: the count is the span's start.
    assert_eq!(
        spanner.for_each_split_span(text, &mut |span| span != Word(4..7)),
        (false, 4)
    );
    assert_eq!(
        spanner.for_each_split_span(text, &mut |span| span != Special(7..16)),
        (false, 7)
    );
    // Halted in the rest: the count is taken from where the rest starts.
    assert_eq!(
        spanner.for_each_split_span(text, &mut |span| span != Gap(19..20)),
        (false, 3)
    );
    assert_eq!(
        spanner.for_each_split_span(text, &mut |span| span != Word(20..23)),
        (false, 4)
    );
    // The words of a chunk, with its own count.
    assert_eq!(spanner.for_each_word("ab  cd", 10, &mut |_| true), (true, 6));
    assert_eq!(
        spanner.for_each_word("ab  cd", 10, &mut |span| span != Gap(12..14)),
        (false, 2)
    );
    assert_eq!(
        spanner.for_each_word("ab  cd", 10, &mut |span| span != Word(14..16)),
        (false, 4)
    );
}

#[test]
fn spans_tile_the_text() {
    let config = SegmentationConfig::from_pattern(r"\w+")
        .with_special_words(&[("<|FNORD|>", 4000), ("<|NORP|>", 4001)])
        .unwrap();
    let spanner = from_config(&config);
    for text in ["", " ", "a", "  é日本  <|NORP|><|FNORD|>x ", "<|NORP|>", "é"] {
        let spans = spanner.split_spans(text);
        let mut at = 0;
        for span in &spans {
            let range = span.range();
            assert_eq!(range.start, at);
            assert!(range.start < range.end);
            assert!(text.is_char_boundary(range.end));
            at = range.end;
        }
        assert_eq!(at, text.len());
    }
    assert_eq!(spanner.split_spans(""), Vec::<SpanRef>::new());
    assert_eq!(spanner.split_spans("é"), vec![Word(0..2)]);
    assert_eq!(spanner.remove_gaps(" é <|NORP|> x"), "é<|NORP|>x");
}

#[test]
fn lexer_finds_the_next_span_or_none() {
    let lexer = RegexWrapper::compile(r"\d+").unwrap();
    assert_eq!(lexer.next_span("ab 12 cd 345", 0), Some((3, 5)));
    assert_eq!(lexer.next_span("ab 12 cd 345", 4), Some((4, 5)));
    assert_eq!(lexer.next_span("ab 12 cd 345", 5), Some((9, 12)));
    assert_eq!(lexer.next_span("ab 12 cd 345", 12), None);
    // Past the end, and inside a character.
    assert_eq!(lexer.next_span("ab 12", 6), None);
    assert_eq!(lexer.next_span("é1", 1), None);
    // An empty match is no span.
    let empty = RegexWrapper::compile(r"x*").unwrap();
    assert_eq!(empty.next_span("abc", 0), None);
    assert_eq!(empty.next_span("axx", 0), None);
    assert_eq!(empty.next_span("xxa", 0), Some((0, 2)));
}

#[test]
fn spanner_without_special_lexer() {
    let spanner: LexerTextSpanner<RegexWrapper, RegexWrapper> =
        LexerTextSpanner::new(RegexWrapper::compile(r"\w+").unwrap(), None);
    assert_eq!(spanner.next_special_span("a<|FNORD|>"), None);
    assert_eq!(
        spanner.split_spans("a<|FNORD|>"),
        vec![Word(0..1), Gap(1..3), Word(3..8), Gap(8..10)]
    );
    let mut spans = vec![Gap(0..1)];
    spanner.append_word_spans("ab c", 5, &mut spans);
    assert_eq!(spans, vec![Gap(0..1), Word(5..7), Gap(7..8), Word(8..9)]);
}

#[test]
fn spans_follow_whatever_the_lexers_find() {
    // Words at 1..3 and 3..4 of each chunk; a special span at 2..4 of what
    // is left of the text.
    let spanner = LexerTextSpanner::new(
        ListLexer::new(vec![(1, 3), (3, 4)]),
        Some(ListLexer::new(vec![(2, 4)])),
    );
    assert_eq!(
        spanner.split_spans("abcdefghi"),
        vec![
            // The chunk before the first special span is "ab".
            Gap(0..2),
            Special(2..4),
            // The next chunk is "ef", at 4.
            Gap(4..6),
            Special(6..8),
            // The rest is "i", at 8: too short for a word.
            Gap(8..9),
        ]
    );
    let spanner: LexerTextSpanner<ListLexer, ListLexer> =
        LexerTextSpanner::new(ListLexer::new(vec![(1, 3), (3, 4)]), None);
    assert_eq!(
        spanner.split_spans("abcdef"),
        vec![Gap(0..1), Word(1..3), Word(3..4), Gap(4..6)]
    );
    assert_eq!(spanner.split_spans("abcd"), vec![Gap(0..1), Word(1..3), Word(3..4)]);
    let mut seen = Vec::new();
    assert_eq!(
        spanner.for_each_word("abcdef", 100, &mut |span| {
            seen.push(span);
            seen.len() < 3
        }),
        (false, 3)
    );
    assert_eq!(seen, vec![Gap(100..101), Word(101..103), Word(103..104)]);
}

#[test]
fn list_lexer_skips_what_is_no_span_of_the_text() {
    let lexer = ListLexer::new(vec![(0, 0), (5, 2), (1, 2), (2, 4), (3, 9)]);
    // "aé日": é at 1..3, 日 at 3..6.
    assert_eq!(lexer.next_span("aé日", 0), None);
    assert_eq!(lexer.next_span("abcdef", 0), Some((1, 2)));
    assert_eq!(lexer.next_span("abcdef", 2), Some((2, 4)));
    assert_eq!(lexer.next_span("abcdef", 3), None);
    assert_eq!(lexer.next_span("abcdefghi", 3), Some((3, 9)));
}
