//! Patterns and their evaluation. A pattern is a regular expression, kept as
//! text so that it can be edited by hand; compiling and matching are left to
//! the `regex` crate, behind the few contracts below that are taken on trust.

use regex::Regex;
use vstd::prelude::*;
use vstd::string::*;

verus! {

/// A compiled regular expression of the `regex` crate. Nothing of its inside
/// is visible to proofs.
#[verifier::external_type_specification]
#[verifier::external_body]
pub struct ExRegex(regex::Regex);

/// The characters that have a meaning of their own in the pattern syntax.
pub open spec fn is_meta_character(c: char) -> bool {
    c == '\\' || c == '.' || c == '+' || c == '*' || c == '?' || c == '(' || c == ')' || c == '|'
        || c == '[' || c == ']' || c == '{' || c == '}' || c == '^' || c == '$' || c == '#' || c
        == '&' || c == '-' || c == '~'
}

/// How one character is written so that a pattern takes it literally.
pub open spec fn escaped_char(c: char) -> Seq<char> {
    if is_meta_character(c) {
        seq!['\\', c]
    } else {
        seq![c]
    }
}

/// `text` with a backslash put before each of its meta characters.
pub open spec fn escaped(text: Seq<char>) -> Seq<char>
    decreases text.len(),
{
    if text.len() == 0 {
        Seq::empty()
    } else {
        escaped(text.drop_last()) + escaped_char(text.last())
    }
}

/// The pattern that captures whatever stands before a literal `tail` at the
/// end of a name: `^(.*)`, the escaped tail, `$`.
pub open spec fn anchored(tail: Seq<char>) -> Seq<char> {
    seq!['^', '(', '.', '*', ')'] + escaped(tail) + seq!['$']
}

/// What compiling `pattern` gives: the compiled expression, or `None` where
/// the `regex` crate does not accept the text.
pub uninterp spec fn compiled(pattern: Seq<char>) -> Option<Regex>;

/// What the capture group `group` holds in the leftmost match of `re` in
/// `text`: `None` where `re` does not match, where it has no such group, or
/// where the group took no part in the match.
pub uninterp spec fn group_of_match(re: Regex, text: Seq<char>, group: nat) -> Option<Seq<char>>;

/// What the first group of `pattern` captures in `name`; `None` also where
/// `pattern` is not a valid expression.
pub open spec fn captured_prefix(pattern: Seq<char>, name: Seq<char>) -> Option<Seq<char>> {
    match compiled(pattern) {
        Some(re) => group_of_match(re, name, 1),
        None => None,
    }
}

/// The view of an optional string.
pub open spec fn text_of(s: Option<String>) -> Option<Seq<char>> {
    match s {
        Some(t) => Some(t@),
        None => None,
    }
}

/// Calls `regex::escape`. Trusted: the result is `text` with a backslash
/// before each meta character, which is how `regex_syntax::escape_into` and
/// `is_meta_character` build it.
#[verifier::external_body]
pub(crate) fn escape(text: &str) -> (r: String)
    ensures
        r@ == escaped(text@),
{
    regex::escape(text)
}

/// Calls `Regex::new` and drops the error. Trusted: the outcome depends on
/// the text of the pattern alone; it is given the name `compiled`.
#[verifier::external_body]
pub(crate) fn compile(pattern: &str) -> (r: Option<Regex>)
    ensures
        r == compiled(pattern@),
{
    Regex::new(pattern).ok()
}

/// Calls `Regex::captures` and `Captures::get`, and copies the text of the
/// group. Trusted: the outcome depends on the expression, the text and the
/// group's number alone; it is given the name `group_of_match`.
#[verifier::external_body]
pub(crate) fn capture_group(re: &Regex, text: &str, group: usize) -> (r: Option<String>)
    ensures
        text_of(r) == group_of_match(*re, text@, group as nat),
{
    re.captures(text).and_then(|caps| caps.get(group)).map(|m| m.as_str().to_string())
}

/// Builds the pattern of a cell from its tail.
pub fn anchored_pattern(tail: &str) -> (r: String)
    ensures
        r@ == anchored(tail@),
{
    let body = escape(tail);
    let mut pattern = String::from_str("^(.*)");
    pattern.append(body.as_str());
    pattern.append("$");
    proof {
        reveal_strlit("^(.*)");
        reveal_strlit("$");
        assert("^(.*)"@ =~= seq!['^', '(', '.', '*', ')']);
        assert("$"@ =~= seq!['$']);
    }
    pattern
}

/// Evaluates `regex_str` on `filename`: the radix that the pattern captures,
/// if the pattern is valid and the name matches it.
pub fn extract_radix_from_filename(regex_str: &str, filename: &str) -> (r: Option<String>)
    ensures
        text_of(r) == captured_prefix(regex_str@, filename@),
{
    match compile(regex_str) {
        Some(re) => capture_group(&re, filename, 1),
        None => None,
    }
}

} // verus!
