//! Patterns on keys: regular expressions of the `regex` crate.
//!
//! Keys are bytes. Where a pattern is tried on a key, the key is read as
//! text leniently: bytes that are no valid UTF-8 are replaced by U+FFFD, and
//! the key is never rejected. This is a policy of the lookup by pattern
//! alone; the index and the log keep the bytes as they are.

use vstd::prelude::*;
use regex::Regex;

verus! {

/// `regex::Regex`, a compiled expression. Nothing inside it is seen here.
#[verifier::external_type_specification]
#[verifier::external_body]
pub struct ExRegex(regex::Regex);

/// `regex::Error`, what compiling a pattern fails with. Nothing inside it is
/// seen here.
#[verifier::external_type_specification]
#[verifier::external_body]
pub struct ExRegexError(regex::Error);

/// Whether the compiled expression `re` finds a match somewhere in `text`:
/// what `Regex::is_match` returns.
pub uninterp spec fn regex_accepts(re: Regex, text: Seq<char>) -> bool;

/// Whether `Regex::new` compiles `pattern`: the pattern is a valid
/// expression, and the compiled program is within the crate's default size
/// limit. The crate measures that size in bytes of its own data, so a
/// pattern close to the limit may compile on one target and not on another;
/// the name speaks of the target that the program is built for.
pub uninterp spec fn pattern_compiles(pattern: Seq<char>) -> bool;

/// Whether the expression that `Regex::new` compiles from `pattern` finds a
/// match somewhere in `text`.
pub uninterp spec fn pattern_matches(pattern: Seq<char>, text: Seq<char>) -> bool;

/// The text that `String::from_utf8_lossy` reads from `bytes`.
pub uninterp spec fn lossy_text(bytes: Seq<u8>) -> Seq<char>;

/// `regex::Regex::new`. The expression is built from the pattern alone, with
/// the crate's default options: the contract gives a name to whether the
/// pattern compiles, and says of an expression that was compiled that it
/// matches the texts that its pattern matches.
pub assume_specification[ Regex::new ](re: &str) -> (r: Result<Regex, regex::Error>)
    ensures
        r is Ok <==> pattern_compiles(re@),
        r matches Ok(compiled) ==> forall|text: Seq<char>| #[trigger]
            regex_accepts(compiled, text) == pattern_matches(re@, text),
;

/// `regex::Regex::is_match`. The result depends on the expression and the
/// haystack alone; the contract gives it its name.
pub assume_specification[ Regex::is_match ](re: &Regex, haystack: &str) -> (r: bool)
    ensures
        r == regex_accepts(*re, haystack@),
;

/// `String::from_utf8_lossy`, made an owned `String`. The result depends on
/// the bytes alone; the contract gives it its name.
#[verifier::external_body]
pub(crate) fn lossy_string(bytes: &[u8]) -> (s: String)
    ensures
        s@ == lossy_text(bytes@),
{
    String::from_utf8_lossy(bytes).into_owned()
}

/// The `Display` text of a `regex::Error`. Nothing is claimed of the text.
#[verifier::external_body]
pub(crate) fn error_text(e: &regex::Error) -> (s: String) {
    e.to_string()
}

/// A pattern that is no regular expression, or one too large to compile.
#[derive(Debug)]
pub struct PatternError {
    /// What the `regex` crate says of the pattern.
    pub message: String,
}

/// Whether `re` matches `key`, read as text leniently.
pub fn key_matches(re: &Regex, key: &[u8]) -> (r: bool)
    ensures
        r == regex_accepts(*re, lossy_text(key@)),
{
    let text: String = lossy_string(key);
    re.is_match(text.as_str())
}

} // verus!
