//! Per-element pattern matching. The match engine is the `regex` crate: what
//! it returns for a pattern and a text is named here, and each element's
//! result (matched text, groups, pieces, replaced text) is built from it.

use crate::engine::{ConversionStrategy, TextTransform};
use vstd::prelude::*;

verus! {

broadcast use vstd::seq::group_seq_axioms;

#[verifier::external_type_specification]
#[verifier::external_body]
pub struct ExBytesRegex(regex::bytes::Regex);

#[verifier::external_type_specification]
#[verifier::external_body]
pub struct ExRegexError(regex::Error);

/// Span of the leftmost-first match of `pattern` in `text`, if any.
pub uninterp spec fn regex_find(pattern: Seq<char>, case_insensitive: bool, text: Seq<u8>) -> Option<(usize, usize)>;

/// Whether `pattern` matches somewhere in `text`.
pub uninterp spec fn regex_is_match(pattern: Seq<char>, case_insensitive: bool, text: Seq<u8>) -> bool;

/// Spans of the capture groups of the first match (group 0 first), or no
/// groups at all when there is no match.
pub uninterp spec fn regex_captures(pattern: Seq<char>, case_insensitive: bool, text: Seq<u8>) -> Seq<Option<(usize, usize)>>;

/// Pieces of `text` between the matches of `pattern`.
pub uninterp spec fn regex_split(pattern: Seq<char>, case_insensitive: bool, text: Seq<u8>) -> Seq<Seq<u8>>;

/// `text` with its first `limit` matches (all of them when `limit` is 0)
/// replaced by `replacement`, `$name` references expanded.
pub uninterp spec fn regex_replacen(
    pattern: Seq<char>,
    case_insensitive: bool,
    text: Seq<u8>,
    replacement: Seq<u8>,
    limit: usize,
) -> Seq<u8>;

/// The span lies within a text of length `len`.
pub open spec fn span_in(span: (usize, usize), len: nat) -> bool {
    span.0 <= span.1 <= len
}

/// Relies on `regex::bytes::RegexBuilder::build` with `case_insensitive`:
/// compiles the pattern or reports why it cannot.
#[verifier::external_body]
fn build_regex(source: &str, case_insensitive: bool) -> Result<regex::bytes::Regex, regex::Error> {
    regex::bytes::RegexBuilder::new(source).case_insensitive(case_insensitive).build()
}

/// Relies on the `Display` of `regex::Error`: its message.
#[verifier::external_body]
fn regex_error_message(e: &regex::Error) -> String {
    e.to_string()
}

/// A compiled pattern, with the source and flag it was compiled from.
pub struct Pattern {
    regex: regex::bytes::Regex,
    source: String,
    case_insensitive: bool,
}

/// Why a pattern did not compile.
pub struct PatternError {
    pub message: String,
}

impl Pattern {
    pub closed spec fn spec_source(&self) -> Seq<char> {
        self.source@
    }

    pub closed spec fn spec_case_insensitive(&self) -> bool {
        self.case_insensitive
    }

    /// Compiles `source`, matching case-insensitively when asked.
    pub fn compile(source: &str, case_insensitive: bool) -> (r: Result<Pattern, PatternError>)
        ensures
            r matches Ok(p) ==> p.spec_source() == source@ && p.spec_case_insensitive()
                == case_insensitive,
    {
        match build_regex(source, case_insensitive) {
            Ok(regex) => Ok(Pattern { regex, source: source.to_owned(), case_insensitive }),
            Err(e) => Err(PatternError { message: regex_error_message(&e) }),
        }
    }
}

/// Relies on `regex::bytes::Regex::find`: the leftmost-first match, whose
/// span lies in the text.
#[verifier::external_body]
fn find_span(p: &Pattern, text: &[u8]) -> (r: Option<(usize, usize)>)
    ensures
        r == regex_find(p.spec_source(), p.spec_case_insensitive(), text@),
        r matches Some(s) ==> span_in(s, text@.len()),
{
    match p.regex.find(text) {
        Some(m) => Some((m.start(), m.end())),
        None => None,
    }
}

/// Relies on `regex::bytes::Regex::is_match`.
#[verifier::external_body]
fn match_found(p: &Pattern, text: &[u8]) -> (r: bool)
    ensures
        r == regex_is_match(p.spec_source(), p.spec_case_insensitive(), text@),
{
    p.regex.is_match(text)
}

/// Relies on `regex::bytes::Regex::captures`: the group spans of the first
/// match, each within the text.
#[verifier::external_body]
fn capture_spans(p: &Pattern, text: &[u8]) -> (r: Vec<Option<(usize, usize)>>)
    ensures
        r@ == regex_captures(p.spec_source(), p.spec_case_insensitive(), text@),
        forall|i: int| 0 <= i < r@.len() ==> (#[trigger] r@[i] matches Some(s) ==> span_in(s, text@.len())),
{
    let mut out = Vec::new();
    if let Some(caps) = p.regex.captures(text) {
        for g in caps.iter() {
            out.push(g.map(|m| (m.start(), m.end())));
        }
    }
    out
}

/// Relies on `regex::bytes::Regex::split`: the pieces between matches.
#[verifier::external_body]
fn split_pieces(p: &Pattern, text: &[u8]) -> (r: TextList)
    ensures
        r@ == regex_split(p.spec_source(), p.spec_case_insensitive(), text@),
{
    let mut items = Vec::new();
    for piece in p.regex.split(text) {
        items.push(piece.to_vec());
    }
    TextList { items }
}

/// Relies on `regex::bytes::Regex::replacen`, where a limit of 0 replaces
/// every match.
#[verifier::external_body]
fn replace_matches(p: &Pattern, text: &[u8], replacement: &[u8], limit: usize) -> (r: Vec<u8>)
    ensures
        r@ == regex_replacen(p.spec_source(), p.spec_case_insensitive(), text@, replacement@, limit),
{
    p.regex.replacen(text, limit, replacement).into_owned()
}

/// A list of byte strings.
pub struct TextList {
    pub items: Vec<Vec<u8>>,
}

impl View for TextList {
    type V = Seq<Seq<u8>>;

    open spec fn view(&self) -> Seq<Seq<u8>> {
        self.items@.map_values(|v: Vec<u8>| v@)
    }
}

impl ConversionStrategy for TextList {
    open spec fn spec_thread_safe() -> bool {
        true
    }

    fn thread_safe() -> (r: bool) {
        true
    }
}

/// The bytes of `text` in `span`, or nothing for a span outside it.
pub open spec fn span_text(text: Seq<u8>, span: (usize, usize)) -> Seq<u8> {
    if span_in(span, text.len()) {
        text.subrange(span.0 as int, span.1 as int)
    } else {
        seq![]
    }
}

fn copy_span(text: &[u8], start: usize, end: usize) -> (r: Vec<u8>)
    requires
        start <= end <= text@.len(),
    ensures
        r@ == text@.subrange(start as int, end as int),
{
    let mut out: Vec<u8> = Vec::with_capacity(end - start);
    let mut k = start;
    while k < end
        invariant
            start <= k <= end <= text@.len(),
            out@ == text@.subrange(start as int, k as int),
        decreases end - k,
    {
        out.push(text[k]);
        k += 1;
        assert(out@ =~= text@.subrange(start as int, k as int));
    }
    out
}

/// The text of the first match, or nothing when there is none.
pub open spec fn spec_find_text(p: Pattern, text: Seq<u8>) -> Seq<u8> {
    match regex_find(p.spec_source(), p.spec_case_insensitive(), text) {
        Some(span) => span_text(text, span),
        None => seq![],
    }
}

/// The text of the first match of `pattern` in `text`, or nothing.
pub fn find_in_string(text: &[u8], pattern: &Pattern) -> (r: Vec<u8>)
    ensures
        r@ == spec_find_text(*pattern, text@),
{
    match find_span(pattern, text) {
        Some((start, end)) => copy_span(text, start, end),
        None => Vec::new(),
    }
}

/// Whether `pattern` matches somewhere in `text`.
pub fn is_match_in_string(text: &[u8], pattern: &Pattern) -> (r: bool)
    ensures
        r == regex_is_match(pattern.spec_source(), pattern.spec_case_insensitive(), text@),
{
    match_found(pattern, text)
}

/// Texts of the capture groups of the first match; a group that did not
/// take part gives an empty text. No match gives an empty list.
pub open spec fn spec_capture_texts(p: Pattern, text: Seq<u8>) -> Seq<Seq<u8>> {
    regex_captures(p.spec_source(), p.spec_case_insensitive(), text).map_values(
        |g: Option<(usize, usize)>| group_text(text, g),
    )
}

/// Text of one capture group: empty when the group did not take part.
pub open spec fn group_text(text: Seq<u8>, group: Option<(usize, usize)>) -> Seq<u8> {
    match group {
        Some(span) => span_text(text, span),
        None => seq![],
    }
}

/// Texts of the capture groups of the first match of `pattern` in `text`.
pub fn capture_regex_in_string(text: &[u8], pattern: &Pattern) -> (r: TextList)
    ensures
        r@ == spec_capture_texts(*pattern, text@),
{
    let groups = capture_spans(pattern, text);
    let ghost want = spec_capture_texts(*pattern, text@);
    assert(forall|j: int| 0 <= j < groups@.len() ==> #[trigger] want[j] == group_text(text@, groups@[j]));
    let mut items: Vec<Vec<u8>> = Vec::with_capacity(groups.len());
    let mut i: usize = 0;
    while i < groups.len()
        invariant
            i <= groups@.len(),
            groups@ == regex_captures(pattern.spec_source(), pattern.spec_case_insensitive(), text@),
            forall|j: int| 0 <= j < groups@.len() ==> (#[trigger] groups@[j] matches Some(s) ==> span_in(s, text@.len())),
            want.len() == groups@.len(),
            forall|j: int| 0 <= j < groups@.len() ==> #[trigger] want[j] == group_text(text@, groups@[j]),
            items@.len() == i,
            forall|j: int| 0 <= j < i ==> (#[trigger] items@[j])@ == want[j],
        decreases groups@.len() - i,
    {
        let piece = match groups[i] {
            Some((start, end)) => copy_span(text, start, end),
            None => Vec::new(),
        };
        assert(piece@ =~= group_text(text@, groups@[i as int]));
        items.push(piece);
        i += 1;
    }
    let r = TextList { items };
    assert(r@ =~= want);
    r
}

/// Pieces of `text` between the matches of `pattern`.
pub fn split_by_regexp_string(text: &[u8], pattern: &Pattern) -> (r: TextList)
    ensures
        r@ == regex_split(pattern.spec_source(), pattern.spec_case_insensitive(), text@),
{
    split_pieces(pattern, text)
}

/// `text` with its first `count` matches of `pattern` replaced, or every
/// match when `count` is 0.
pub fn replace_regexp_in_string(text: &[u8], pattern: &Pattern, replacement: &[u8], count: usize) -> (r: Vec<u8>)
    ensures
        r@ == regex_replacen(pattern.spec_source(), pattern.spec_case_insensitive(), text@, replacement@, count),
{
    replace_matches(pattern, text, replacement, count)
}

/// Transform: the text of the first match.
pub struct FindMatch {
    pub pattern: Pattern,
}

impl TextTransform for FindMatch {
    type Output = Vec<u8>;

    open spec fn spec_apply(&self, text: Seq<u8>) -> Seq<u8> {
        spec_find_text(self.pattern, text)
    }

    fn apply(&self, text: &[u8]) -> (r: Vec<u8>) {
        find_in_string(text, &self.pattern)
    }
}

/// Transform: whether the pattern matches.
pub struct IsMatch {
    pub pattern: Pattern,
}

impl TextTransform for IsMatch {
    type Output = bool;

    open spec fn spec_apply(&self, text: Seq<u8>) -> bool {
        regex_is_match(self.pattern.spec_source(), self.pattern.spec_case_insensitive(), text)
    }

    fn apply(&self, text: &[u8]) -> (r: bool) {
        is_match_in_string(text, &self.pattern)
    }
}

/// Transform: the capture groups of the first match.
pub struct Captures {
    pub pattern: Pattern,
}

impl TextTransform for Captures {
    type Output = TextList;

    open spec fn spec_apply(&self, text: Seq<u8>) -> Seq<Seq<u8>> {
        spec_capture_texts(self.pattern, text)
    }

    fn apply(&self, text: &[u8]) -> (r: TextList) {
        capture_regex_in_string(text, &self.pattern)
    }
}

/// Transform: the pieces between matches.
pub struct Split {
    pub pattern: Pattern,
}

impl TextTransform for Split {
    type Output = TextList;

    open spec fn spec_apply(&self, text: Seq<u8>) -> Seq<Seq<u8>> {
        regex_split(self.pattern.spec_source(), self.pattern.spec_case_insensitive(), text)
    }

    fn apply(&self, text: &[u8]) -> (r: TextList) {
        split_by_regexp_string(text, &self.pattern)
    }
}

/// Transform: the text with matches replaced.
pub struct Replace {
    pub pattern: Pattern,
    pub replacement: Vec<u8>,
    pub count: usize,
}

impl TextTransform for Replace {
    type Output = Vec<u8>;

    open spec fn spec_apply(&self, text: Seq<u8>) -> Seq<u8> {
        regex_replacen(
            self.pattern.spec_source(),
            self.pattern.spec_case_insensitive(),
            text,
            self.replacement@,
            self.count,
        )
    }

    fn apply(&self, text: &[u8]) -> (r: Vec<u8>) {
        replace_regexp_in_string(text, &self.pattern, self.replacement.as_slice(), self.count)
    }
}

} // verus!
