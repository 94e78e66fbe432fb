//! A compiled pattern, and what the pattern engine is trusted to do.

use vstd::prelude::*;
use vstd::string::StringSliceAdditionalSpecFns;
use vstd::utf8::is_char_boundary;

verus! {

/// The pattern engine's compiled expression, `fancy_regex::Regex`.
#[verifier::external_type_specification]
#[verifier::external_body]
pub struct ExRegex(fancy_regex::Regex);

/// The pattern engine's error, `fancy_regex::Error`.
#[verifier::external_type_specification]
#[verifier::external_body]
pub struct ExRegexError(fancy_regex::Error);

/// The pattern text that a compiled expression was built from.
pub uninterp spec fn regex_source(re: &fancy_regex::Regex) -> Seq<char>;

/// Whether the engine accepts the pattern text `pattern`.
pub uninterp spec fn pattern_compiles(pattern: Seq<char>) -> bool;

/// What the engine's search for `pattern` in `haystack` from byte `pos` on
/// gives: the byte range of the first match, or none.
pub uninterp spec fn regex_find(pattern: Seq<char>, haystack: Seq<u8>, pos: usize) -> Option<
    (usize, usize),
>;

/// What the engine's iteration over the matches of `pattern` in `haystack`
/// gives: the byte ranges of the successive matches.
pub uninterp spec fn regex_matches(pattern: Seq<char>, haystack: Seq<u8>) -> Seq<(usize, usize)>;

/// Whether the engine's escaping puts a backslash before `c`.
pub open spec fn is_special_char(c: char) -> bool {
    c == '\\' || c == '.' || c == '+' || c == '*' || c == '?' || c == '(' || c == ')' || c == '|'
        || c == '[' || c == ']' || c == '{' || c == '}' || c == '^' || c == '$' || c == '#'
}

/// What the engine's escaping makes of the character `c` in a text that
/// it rewrites: a line feed, a tab and a carriage return are spelled out, a
/// special character gets a backslash before it, any other stays.
pub open spec fn escaped_char(c: char) -> Seq<char> {
    if c == '\n' {
        seq!['\\', 'n']
    } else if c == '\t' {
        seq!['\\', 't']
    } else if c == '\r' {
        seq!['\\', 'r']
    } else if is_special_char(c) {
        seq!['\\', c]
    } else {
        seq![c]
    }
}

/// Every character of `text` escaped, in order.
pub open spec fn escaped_chars(text: Seq<char>) -> Seq<char>
    decreases text.len(),
{
    if text.len() == 0 {
        Seq::<char>::empty()
    } else {
        escaped_chars(text.drop_last()) + escaped_char(text.last())
    }
}

/// What the engine's escaping makes of the literal text `text`: the text
/// itself where it holds no special character, else every character of it
/// escaped.
pub open spec fn regex_escape_spec(text: Seq<char>) -> Seq<char> {
    if exists|i: int| 0 <= i < text.len() && is_special_char(#[trigger] text[i]) {
        escaped_chars(text)
    } else {
        text
    }
}

/// `fancy_regex::escape`: the pattern text that matches the literal `text`.
/// The engine leaves a text without special characters as it is; in any
/// other it puts a backslash before each special character and spells out
/// line feeds, tabs and carriage returns.
#[verifier::external_body]
pub(crate) fn escape_literal(text: &str) -> (r: String)
    ensures
        r@ == regex_escape_spec(text@),
{
    fancy_regex::escape(text).into_owned()
}

/// `fancy_regex::Regex::new`: compiles `pattern`. Whether it succeeds is a
/// matter of the pattern text alone, and the compiled expression keeps the
/// text that it was built from.
#[verifier::external_body]
fn engine_compile(pattern: &str) -> (r: Result<fancy_regex::Regex, fancy_regex::Error>)
    ensures
        r is Ok <==> pattern_compiles(pattern@),
        r matches Ok(re) ==> regex_source(&re) == pattern@,
{
    fancy_regex::Regex::new(pattern)
}

/// `fancy_regex::Regex::as_str`: the pattern text that the expression was
/// built from.
#[verifier::external_body]
fn engine_as_str(re: &fancy_regex::Regex) -> (s: &str)
    ensures
        s@ == regex_source(re),
{
    re.as_str()
}

/// `Clone` of `fancy_regex::Regex`: an expression built from the same
/// pattern text.
#[verifier::external_body]
fn engine_clone(re: &fancy_regex::Regex) -> (r: fancy_regex::Regex)
    ensures
        regex_source(&r) == regex_source(re),
{
    re.clone()
}

/// `fancy_regex::Regex::find_from_pos`: the first match in `text` from byte
/// `pos` on. The result is a matter of the pattern text, the text and the
/// position alone; a search that the engine gives up counts as no match.
#[verifier::external_body]
fn engine_find_from(re: &fancy_regex::Regex, text: &str, pos: usize) -> (r: Option<(usize, usize)>)
    requires
        pos <= text.spec_bytes().len(),
        is_char_boundary(text.spec_bytes(), pos as int),
    ensures
        r == regex_find(regex_source(re), text.spec_bytes(), pos),
{
    match re.find_from_pos(text, pos) {
        Ok(Some(m)) => Some((m.start(), m.end())),
        _ => None,
    }
}

/// `fancy_regex::Regex::find_iter`: the successive matches in `text`, up to
/// the first that the engine gives up on. The result is a matter of the
/// pattern text and the text alone.
#[verifier::external_body]
fn engine_find_all(re: &fancy_regex::Regex, text: &str) -> (r: Vec<(usize, usize)>)
    ensures
        r@ == regex_matches(regex_source(re), text.spec_bytes()),
{
    let mut spans = Vec::new();
    for m in re.find_iter(text) {
        match m {
            Ok(m) => spans.push((m.start(), m.end())),
            Err(_) => break,
        }
    }
    spans
}

/// `Display` of `fancy_regex::Error`: the engine's words for why a pattern
/// did not compile. Nothing is claimed of them.
#[verifier::external_body]
fn engine_error_message(e: &fancy_regex::Error) -> (s: String) {
    format!("{}", e)
}

/// Why a pattern was refused.
#[derive(Clone, Debug, PartialEq, Eq)]
pub struct PatternError {
    /// The pattern engine's message.
    pub message: String,
}

/// `span` is a byte range of `text` that starts at `from` or later and
/// cuts no character.
pub open spec fn valid_span(text: Seq<u8>, from: usize, span: (usize, usize)) -> bool {
    &&& from <= span.0 <= span.1 <= text.len()
    &&& is_char_boundary(text, span.0 as int)
    &&& is_char_boundary(text, span.1 as int)
}

/// The first match of `pattern` in `text` from `pos` on, where the search
/// can be made and gives a valid span.
pub open spec fn first_match(pattern: Seq<char>, text: Seq<u8>, pos: usize) -> Option<
    (usize, usize),
> {
    if pos <= text.len() && is_char_boundary(text, pos as int) {
        match regex_find(pattern, text, pos) {
            Some(span) => if valid_span(text, pos, span) {
                Some(span)
            } else {
                None
            },
            None => None,
        }
    } else {
        None
    }
}

/// The leading matches of `found` that are valid spans of `text`, each
/// starting no earlier than the one before it ends.
pub open spec fn valid_matches(text: Seq<u8>, found: Seq<(usize, usize)>, from: usize) -> Seq<
    (usize, usize),
>
    decreases found.len(),
{
    if found.len() == 0 || !valid_span(text, from, found[0]) {
        Seq::empty()
    } else {
        seq![found[0]] + valid_matches(text, found.drop_first(), found[0].1)
    }
}

/// The length of `text` in bytes.
pub fn byte_len(text: &str) -> (n: usize)
    ensures
        n == text.spec_bytes().len(),
{
    text.as_bytes().len()
}

/// Whether `span` is a byte range of `text` that starts at `from` or later
/// and cuts no character.
pub fn is_valid_span(text: &str, from: usize, span: (usize, usize)) -> (ok: bool)
    ensures
        ok == valid_span(text.spec_bytes(), from, span),
{
    from <= span.0 && span.0 <= span.1 && span.1 <= byte_len(text) && text.is_char_boundary(
        span.0,
    ) && text.is_char_boundary(span.1)
}

/// What a search of `text` from byte `pos` on counts for, given that the
/// engine found `found`: the match that it found, if it is a valid span.
pub fn checked_match(text: &str, pos: usize, found: Option<(usize, usize)>) -> (r: Option<
    (usize, usize),
>)
    ensures
        r == (match found {
            Some(span) => if valid_span(text.spec_bytes(), pos, span) {
                Some(span)
            } else {
                None
            },
            None => None,
        }),
{
    match found {
        Some(span) => {
            if is_valid_span(text, pos, span) {
                Some(span)
            } else {
                None
            }
        },
        None => None,
    }
}

/// The leading matches of `found` that are valid spans of `text`, each
/// starting no earlier than the one before it ends.
pub fn leading_valid_matches(text: &str, found: &Vec<(usize, usize)>) -> (r: Vec<(usize, usize)>)
    ensures
        r@ == valid_matches(text.spec_bytes(), found@, 0),
{
    let mut spans: Vec<(usize, usize)> = Vec::new();
    let mut from: usize = 0;
    let mut i: usize = 0;
    let ghost bytes = text.spec_bytes();
    proof {
        assert(found@.skip(0) =~= found@);
        assert(spans@ + valid_matches(bytes, found@, 0) =~= valid_matches(bytes, found@, 0));
    }
    while i < found.len()
        invariant
            i <= found.len(),
            bytes == text.spec_bytes(),
            spans@ + valid_matches(bytes, found@.skip(i as int), from) == valid_matches(
                bytes,
                found@,
                0,
            ),
        decreases found.len() - i,
    {
        let span = found[i];
        proof {
            assert(found@.skip(i as int)[0] == span);
            assert(found@.skip(i as int).drop_first() =~= found@.skip(i + 1));
        }
        if is_valid_span(text, from, span) {
            let ghost before = spans@;
            spans.push(span);
            proof {
                assert(spans@ + valid_matches(bytes, found@.skip(i + 1), span.1) =~= before
                    + valid_matches(bytes, found@.skip(i as int), from));
            }
            from = span.1;
            i += 1;
        } else {
            proof {
                assert(spans@ + Seq::<(usize, usize)>::empty() =~= spans@);
            }
            return spans;
        }
    }
    proof {
        assert(spans@ + Seq::<(usize, usize)>::empty() =~= spans@);
    }
    spans
}

/// A compiled pattern.
///
/// Every compiled pattern is built by `compile`, with the engine's default
/// options, or cloned from one that was; so what it finds in a text is a
/// matter of its pattern text and the text.
#[derive(Debug)]
pub struct RegexWrapper {
    re: fancy_regex::Regex,
}

impl RegexWrapper {
    /// The pattern text.
    pub closed spec fn pattern(&self) -> Seq<char> {
        regex_source(&self.re)
    }

    /// Compiles `pattern`.
    pub fn compile(pattern: &str) -> (r: Result<RegexWrapper, PatternError>)
        ensures
            r is Ok <==> pattern_compiles(pattern@),
            r matches Ok(w) ==> w.pattern() == pattern@,
    {
        match engine_compile(pattern) {
            Ok(re) => Ok(RegexWrapper { re }),
            Err(e) => Err(PatternError { message: engine_error_message(&e) }),
        }
    }

    /// The pattern text.
    pub fn as_str(&self) -> (s: &str)
        ensures
            s@ == self.pattern(),
    {
        engine_as_str(&self.re)
    }

    /// The first match in `text` from byte `pos` on, if the search can be
    /// made and the match is a valid span.
    pub fn find_from(&self, text: &str, pos: usize) -> (r: Option<(usize, usize)>)
        ensures
            r == first_match(self.pattern(), text.spec_bytes(), pos),
    {
        if pos > byte_len(text) || !text.is_char_boundary(pos) {
            return None;
        }
        checked_match(text, pos, engine_find_from(&self.re, text, pos))
    }

    /// The successive matches in `text`, as far as they are valid spans in
    /// order.
    pub fn find_all(&self, text: &str) -> (r: Vec<(usize, usize)>)
        ensures
            r@ == valid_matches(
                text.spec_bytes(),
                regex_matches(self.pattern(), text.spec_bytes()),
                0,
            ),
    {
        let found = engine_find_all(&self.re, text);
        leading_valid_matches(text, &found)
    }
}

impl Clone for RegexWrapper {
    fn clone(&self) -> (r: Self)
        ensures
            r.pattern() == self.pattern(),
    {
        RegexWrapper { re: engine_clone(&self.re) }
    }
}

} // verus!
