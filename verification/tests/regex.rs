use std::sync::Arc;
use wordchipper::regex::exact_match_union::{exact_match_union_regex_pattern, join_alternatives};
use wordchipper::regex::regex_pool::RegexWrapperPool;
use wordchipper::regex::regex_supplier::{RegexSupplier, RegexWrapperHandle};
use wordchipper::regex::regex_wrapper::{
    byte_len, checked_match, is_valid_span, leading_valid_matches, RegexWrapper,
};

fn pattern_through<S: RegexSupplier>(supplier: &S) -> (String, String) {
    (supplier.get_pattern(), supplier.get_regex().as_str().to_string())
}

#[test]
fn test_regex_pool() {
    let regex: RegexWrapper = RegexWrapper::compile(r"foo").unwrap();

    let pool: RegexWrapperPool = RegexWrapperPool::new(regex.clone(), 4);

    assert_eq!(pool.get_pattern(), r"foo");
    assert!(format!("{:?}", pool).contains(&format!("{:?}", regex).to_string()));
}

#[test]
fn test_regex_supplier() {
    let wrapper: RegexWrapper = RegexWrapper::compile(r"foo").unwrap();
    assert_eq!(wrapper.get_regex(), &wrapper);

    let wrapper_handle: RegexWrapperHandle = wrapper.clone().into();
    assert_eq!(wrapper_handle.get_regex(), &wrapper);

    let supplier: RegexWrapperHandle = wrapper_handle;
    assert_eq!(supplier.get_regex(), &wrapper);

    assert_eq!(supplier.get_pattern(), "foo");
    assert_eq!(supplier.get_regex().as_str(), "foo");
}

#[test]
fn pool_hands_out_the_same_pattern_in_turn() {
    let pool = RegexWrapperPool::new(RegexWrapper::compile(r"\d+").unwrap(), 3);
    assert_eq!(pool.len(), 3);
    for _ in 0..7 {
        assert_eq!(pool.get_regex().as_str(), r"\d+");
        assert_eq!(pool.get_regex().find_from("a 12", 0), Some((2, 4)));
    }
    assert_eq!(RegexWrapperPool::new(RegexWrapper::compile("a").unwrap(), 0).len(), 1);
    assert_eq!(RegexWrapperPool::new(RegexWrapper::compile("a").unwrap(), 1).len(), 1);
    for hash in [0usize, 1, 2, 3, usize::MAX] {
        assert_eq!(pool.get_regex_for(hash).as_str(), r"\d+");
        assert!(std::ptr::eq(pool.get_regex_for(hash), pool.get_regex_for(hash % 3)));
    }
    assert!(!std::ptr::eq(pool.get_regex_for(0), pool.get_regex_for(1)));
    // Whatever the counter holds, the clone handed out is one of the pool's.
    for _ in 0..10 {
        let handed = pool.get_regex();
        assert!((0..3).any(|slot| std::ptr::eq(handed, pool.get_regex_for(slot))));
    }
    let cloned = pool.clone();
    assert_eq!(cloned.len(), 3);
    assert_eq!(cloned.get_pattern(), r"\d+");
    assert_eq!(pattern_through(&pool), (r"\d+".to_string(), r"\d+".to_string()));
    assert_eq!(
        pattern_through(&Arc::new(RegexWrapper::compile("b").unwrap())),
        ("b".to_string(), "b".to_string())
    );
}

#[test]
fn compiled_patterns_compare_by_their_text() {
    let a = RegexWrapper::compile(r"a+").unwrap();
    let b = RegexWrapper::compile(r"a+").unwrap();
    let c = RegexWrapper::compile(r"a*").unwrap();
    assert!(a == b);
    assert!(a != c);
    assert!(a.clone() == a);
    assert_eq!(a.clone().as_str(), r"a+");
}

#[test]
fn compile_refuses_invalid_patterns() {
    let error = RegexWrapper::compile(r"(").err().unwrap();
    assert!(!error.message.is_empty());
    assert!(RegexWrapper::compile(r"a(?=b)").is_ok());
    assert!(RegexWrapper::compile(r"(?<!a)b").is_ok());
    assert!(RegexWrapper::compile(r"a++b").is_ok());
}

#[test]
fn find_from_gives_the_first_valid_match() {
    let re = RegexWrapper::compile(r"\w+(?=!)").unwrap();
    assert_eq!(re.find_from("so fancy!", 0), Some((3, 8)));
    assert_eq!(re.find_from("so fancy!", 5), Some((5, 8)));
    assert_eq!(re.find_from("so fancy!", 9), None);
    assert_eq!(re.find_from("so fancy!", 10), None);
    assert_eq!(re.find_from("éa!", 1), None);
    let empty = RegexWrapper::compile(r"x*").unwrap();
    assert_eq!(empty.find_from("abc", 1), Some((1, 1)));
    assert_eq!(byte_len("é日"), 5);
}

#[test]
fn find_all_gives_the_successive_matches() {
    let re = RegexWrapper::compile(r"\w+").unwrap();
    assert_eq!(re.find_all("ab  cd é"), vec![(0, 2), (4, 6), (7, 9)]);
    assert_eq!(re.find_all(""), Vec::<(usize, usize)>::new());
    let empty = RegexWrapper::compile(r"x*").unwrap();
    assert_eq!(empty.find_all("axx"), vec![(0, 0), (1, 3)]);
}

#[test]
fn union_pattern_escapes_each_word() {
    assert_eq!(exact_match_union_regex_pattern(&[]), "()");
    assert_eq!(exact_match_union_regex_pattern(&["a.b"]), r"(a\.b)");
    assert_eq!(
        exact_match_union_regex_pattern(&["<|FNORD|>", "a+", "x"]),
        r"(<\|FNORD\|>|a\+|x)"
    );
    // Every special character gets a backslash.
    assert_eq!(
        exact_match_union_regex_pattern(&[r"\.+*?()|[]{}^$#"]),
        r"(\\\.\+\*\?\(\)\|\[\]\{\}\^\$\#)"
    );
    // Line feed, tab and carriage return are spelled out where the word is
    // rewritten, and stay where it holds no special character.
    assert_eq!(exact_match_union_regex_pattern(&["a\nb\t\r."]), "(a\\nb\\t\\r\\.)");
    assert_eq!(exact_match_union_regex_pattern(&["a\nb\t\r"]), "(a\nb\t\r)");
    assert_eq!(exact_match_union_regex_pattern(&["é-日 <>"]), "(é-日 <>)");
    assert_eq!(exact_match_union_regex_pattern(&["é.日"]), "(é\\.日)");
    let re = RegexWrapper::compile(&exact_match_union_regex_pattern(&["a.b", "(c)"])).unwrap();
    assert_eq!(re.find_all("axb a.b (c) c"), vec![(4, 7), (8, 11)]);
}

#[test]
fn a_found_span_counts_only_if_it_is_valid() {
    // "aé日b": a at 0, é at 1..3, 日 at 3..6, b at 6.
    let text = "aé日b";
    assert!(is_valid_span(text, 0, (0, 7)));
    assert!(is_valid_span(text, 1, (1, 3)));
    assert!(is_valid_span(text, 3, (3, 3)));
    // Before `from`, reversed, past the end, inside a character.
    assert!(!is_valid_span(text, 2, (1, 3)));
    assert!(!is_valid_span(text, 0, (3, 1)));
    assert!(!is_valid_span(text, 0, (6, 8)));
    assert!(!is_valid_span(text, 0, (2, 3)));
    assert!(!is_valid_span(text, 0, (1, 4)));

    assert_eq!(checked_match(text, 0, Some((1, 3))), Some((1, 3)));
    assert_eq!(checked_match(text, 0, Some((2, 3))), None);
    assert_eq!(checked_match(text, 4, Some((3, 6))), None);
    assert_eq!(checked_match(text, 0, None), None);

    assert_eq!(
        leading_valid_matches(text, &vec![(0, 1), (1, 3), (3, 6), (6, 7)]),
        vec![(0, 1), (1, 3), (3, 6), (6, 7)]
    );
    // The first span that is not valid, or that starts before the one
    // before it ends, ends the list.
    assert_eq!(leading_valid_matches(text, &vec![(0, 1), (2, 3), (3, 6)]), vec![(0, 1)]);
    assert_eq!(leading_valid_matches(text, &vec![(0, 3), (1, 3)]), vec![(0, 3)]);
    assert_eq!(leading_valid_matches(text, &vec![(0, 0), (0, 1)]), vec![(0, 0), (0, 1)]);
    assert_eq!(leading_valid_matches(text, &vec![]), Vec::<(usize, usize)>::new());
}

#[test]
fn alternatives_are_joined_by_bars_in_a_group() {
    let parts = |texts: &[&str]| texts.iter().map(|t| t.to_string()).collect::<Vec<_>>();
    assert_eq!(join_alternatives(&parts(&[])), "()");
    assert_eq!(join_alternatives(&parts(&["a"])), "(a)");
    assert_eq!(join_alternatives(&parts(&["a", "", "b|c"])), "(a||b|c)");
}
