//! Regular expressions, from the `regex` crate.
use vstd::prelude::*;

verus! {

/// Whether `regex::escape` puts a backslash before `c`: the regular
/// expression meta characters.
pub open spec fn regex_meta_character(c: char) -> bool {
    c == '\\' || c == '.' || c == '+' || c == '*' || c == '?' || c == '(' || c == ')' || c == '|'
        || c == '[' || c == ']' || c == '{' || c == '}' || c == '^' || c == '$' || c == '#' || c
        == '&' || c == '-' || c == '~'
}

/// `text` with a backslash put before every meta character: a pattern that
/// matches `text` literally.
pub open spec fn regex_escaped(text: Seq<char>) -> Seq<char>
    decreases text.len(),
{
    if text.len() == 0 {
        seq![]
    } else {
        let c = text[0];
        let head = if regex_meta_character(c) {
            seq!['\\', c]
        } else {
            seq![c]
        };
        head + regex_escaped(text.drop_first())
    }
}

/// What `regex::Regex::new(pattern)` gives, as plain values: `None` when the
/// pattern compiles, else the message of the error.
pub uninterp spec fn regex_compile_error(pattern: Seq<char>) -> Option<Seq<char>>;

/// What `regex::Regex::is_match` answers for the compiled `pattern` on `text`.
pub uninterp spec fn regex_is_match(pattern: Seq<char>, text: Seq<char>) -> bool;

/// What `regex::Regex::captures` gives for the compiled `pattern` on `text`:
/// `None` when nothing matches, else the text of every group of the leftmost
/// match, group 0 first, a group that took no part being empty.
pub uninterp spec fn regex_capture_groups(pattern: Seq<char>, text: Seq<char>) -> Option<Seq<Seq<char>>>;

/// `regex::escape`: `text` with a backslash before each of its meta
/// characters, as the crate's source shows (`regex_syntax::escape` pushes a
/// backslash before each character for which `is_meta_character` holds).
#[verifier::external_body]
pub(crate) fn escape(text: &str) -> (r: String)
    ensures
        r@ == regex_escaped(text@),
{
    regex::escape(text)
}

/// `regex::Regex::new`, keeping only whether the pattern compiled and, when it
/// did not, the error's message (`ToString` on `regex::Error`). The contract
/// ties the outcome to the pattern alone and says nothing of which patterns
/// compile.
#[verifier::external_body]
pub(crate) fn compile(pattern: &str) -> (r: Result<(), String>)
    ensures
        match regex_compile_error(pattern@) {
            None => r is Ok,
            Some(m) => r matches Err(e) && e@ == m,
        },
{
    match regex::Regex::new(pattern) {
        Ok(_) => Ok(()),
        Err(e) => Err(e.to_string()),
    }
}

/// `regex::Regex::is_match` of a pattern that compiles, on `text`. The answer
/// is named, not stated: what a pattern matches is the regex crate's business.
#[verifier::external_body]
pub(crate) fn is_match(pattern: &str, text: &str) -> (b: bool)
    requires
        regex_compile_error(pattern@) is None,
    ensures
        b == regex_is_match(pattern@, text@),
{
    match regex::Regex::new(pattern) {
        Ok(re) => re.is_match(text),
        Err(_) => false,
    }
}

/// `regex::Regex::captures` of a pattern that compiles, on `text`, every
/// group turned into its text. The groups are named, not stated.
#[verifier::external_body]
pub(crate) fn captures(pattern: &str, text: &str) -> (r: Option<Vec<String>>)
    requires
        regex_compile_error(pattern@) is None,
    ensures
        r.deep_view() == regex_capture_groups(pattern@, text@),
{
    match regex::Regex::new(pattern) {
        Ok(re) => re.captures(text).map(
            |c| c.iter().map(|g| g.map_or(String::new(), |m| m.as_str().to_string())).collect(),
        ),
        Err(_) => None,
    }
}

} // verus!
