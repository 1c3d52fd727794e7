//! What this library takes on trust from the `regex` crate.
//!
//! A compiled regular expression is opaque here. The library never looks
//! inside one: it compiles a source text once, keeps the result, and asks it
//! whether a path matches. Nothing below is proved; each item says what is
//! believed of the crate.

use regex::Regex;
use vstd::prelude::*;

verus! {

/// `regex::Regex`, a compiled regular expression.
#[verifier::external_type_specification]
#[verifier::external_body]
pub struct ExRegex(regex::Regex);

/// `regex::Error`, the reason a source text was not compiled.
#[verifier::external_type_specification]
#[verifier::external_body]
pub struct ExRegexError(regex::Error);

/// What `Regex::new` returns for a source text.
pub uninterp spec fn compiled(source: Seq<char>) -> Result<Regex, regex::Error>;

/// What `Regex::is_match` answers for a compiled expression and a haystack.
pub uninterp spec fn finds_match(re: Regex, haystack: Seq<char>) -> bool;

/// What `Regex::as_str` returns for a compiled expression.
pub uninterp spec fn source_of(re: Regex) -> Seq<char>;

/// `Regex::new` compiles with the crate's default options, so its outcome,
/// the expression or the error, depends on the source text alone. The
/// expression keeps the text it was compiled from.
pub assume_specification[ Regex::new ](re: &str) -> (r: Result<Regex, regex::Error>)
    ensures
        r == compiled(re@),
        r matches Ok(regex) ==> source_of(regex) == re@,
;

/// `Regex::as_str` returns the text that the expression was compiled from.
pub assume_specification<'a>[ Regex::as_str ](re: &'a Regex) -> (source: &'a str)
    ensures
        source@ == source_of(*re),
;

/// `Regex::is_match` searches the whole haystack from its start. It does not
/// panic, and its answer depends on the expression and the haystack alone.
pub assume_specification[ Regex::is_match ](re: &Regex, haystack: &str) -> (b: bool)
    ensures
        b == finds_match(*re, haystack@),
;

/// Cloning a `Regex` gives an expression that stands for the same value.
pub assume_specification[ <Regex as Clone>::clone ](re: &Regex) -> (r: Regex)
    ensures
        r == *re,
;

} // verus!
