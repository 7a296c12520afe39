//! The regular-expression surface. The engine is an external collaborator;
//! every outcome is a function of the pattern and the subject text alone.

use vstd::prelude::*;
use crate::LibError;

verus! {

/// Whether the pattern compiles.
pub uninterp spec fn re_valid(pattern: Seq<char>) -> bool;

/// Whether the pattern matches somewhere in the text.
pub uninterp spec fn re_is_match(pattern: Seq<char>, text: Seq<char>) -> bool;

/// The non-overlapping matches of the pattern in the text, in order.
pub uninterp spec fn re_find_all(pattern: Seq<char>, text: Seq<char>) -> Seq<Seq<char>>;

/// The text with the first match replaced.
pub uninterp spec fn re_replace(pattern: Seq<char>, text: Seq<char>, rep: Seq<char>) -> Seq<char>;

/// The text with every non-overlapping match replaced.
pub uninterp spec fn re_replace_all(pattern: Seq<char>, text: Seq<char>, rep: Seq<char>) -> Seq<
    char,
>;

/// The pieces of the text between the non-overlapping matches.
pub uninterp spec fn re_split(pattern: Seq<char>, text: Seq<char>) -> Seq<Seq<char>>;

/// The pattern text with every metacharacter escaped.
pub uninterp spec fn re_escaped(text: Seq<char>) -> Seq<char>;

/// Relies on `regex::Regex::new` and `Regex::is_match`: whether the
/// pattern compiles, and whether it matches, depend on pattern and text
/// alone.
#[verifier::external_body]
pub fn regex_match(text: &str, pattern: &str) -> (r: Result<bool, LibError>)
    ensures
        r is Ok <==> re_valid(pattern@),
        r matches Ok(b) ==> b == re_is_match(pattern@, text@),
{
    match regex::Regex::new(pattern) {
        Ok(re) => Ok(re.is_match(text)),
        Err(_) => Err(LibError::ParseFailed),
    }
}

/// Relies on `regex::Regex::new` and `Regex::find_iter`: the match list is
/// a function of pattern and text alone.
#[verifier::external_body]
pub fn regex_find_all(text: &str, pattern: &str) -> (r: Result<Vec<String>, LibError>)
    ensures
        r is Ok <==> re_valid(pattern@),
        r matches Ok(v) ==> v.deep_view() == re_find_all(pattern@, text@),
{
    match regex::Regex::new(pattern) {
        Ok(re) => Ok(re.find_iter(text).map(|m| m.as_str().to_string()).collect()),
        Err(_) => Err(LibError::ParseFailed),
    }
}

/// Relies on `regex::Regex::new` and `Regex::replace`: the result is a
/// function of pattern, text and replacement alone.
#[verifier::external_body]
pub fn regex_replace(text: &str, pattern: &str, rep: &str) -> (r: Result<String, LibError>)
    ensures
        r is Ok <==> re_valid(pattern@),
        r matches Ok(s) ==> s@ == re_replace(pattern@, text@, rep@),
{
    match regex::Regex::new(pattern) {
        Ok(re) => Ok(re.replace(text, rep).into_owned()),
        Err(_) => Err(LibError::ParseFailed),
    }
}

/// Relies on `regex::Regex::new` and `Regex::replace_all`: the result is a
/// function of pattern, text and replacement alone.
#[verifier::external_body]
pub fn regex_replace_all(text: &str, pattern: &str, rep: &str) -> (r: Result<String, LibError>)
    ensures
        r is Ok <==> re_valid(pattern@),
        r matches Ok(s) ==> s@ == re_replace_all(pattern@, text@, rep@),
{
    match regex::Regex::new(pattern) {
        Ok(re) => Ok(re.replace_all(text, rep).into_owned()),
        Err(_) => Err(LibError::ParseFailed),
    }
}

/// Relies on `regex::Regex::new` and `Regex::split`: the pieces are a
/// function of pattern and text alone.
#[verifier::external_body]
pub fn regex_split(text: &str, pattern: &str) -> (r: Result<Vec<String>, LibError>)
    ensures
        r is Ok <==> re_valid(pattern@),
        r matches Ok(v) ==> v.deep_view() == re_split(pattern@, text@),
{
    match regex::Regex::new(pattern) {
        Ok(re) => Ok(re.split(text).map(|s| s.to_string()).collect()),
        Err(_) => Err(LibError::ParseFailed),
    }
}

/// Relies on `regex::escape`: the result is a function of the text alone.
/// Nothing is promised about compiling it: the engine caps a pattern's
/// compiled size, so a large enough escaped text is still rejected by
/// compilation.
#[verifier::external_body]
pub fn regex_escape(text: &str) -> (r: String)
    ensures
        r@ == re_escaped(text@),
{
    regex::escape(text)
}

} // verus!
