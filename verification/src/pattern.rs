//! The query as a regular expression.

use regex_lite::{Error, Regex, RegexBuilder};
use vstd::prelude::*;
use vstd::utf8::{encode_utf8, is_char_boundary};

verus! {

/// A compiled regular expression of `regex_lite`.
#[verifier::external_type_specification]
#[verifier::external_body]
pub struct ExRegex(regex_lite::Regex);

/// An error of `regex_lite`.
#[verifier::external_type_specification]
#[verifier::external_body]
pub struct ExRegexError(regex_lite::Error);

/// The regular expression that a pattern stands for, or why it stands for none: what
/// `RegexBuilder::new(pattern).build()` returns.
pub uninterp spec fn built_regex(pattern: Seq<char>) -> Result<Regex, Error>;

/// The bytes of the first match in a text, from the first to the one after the last: the `start` and
/// the `end` of what `Regex::find` returns.
pub uninterp spec fn first_match(regex: Regex, text: Seq<char>) -> Option<(usize, usize)>;

/// The description of an error of `regex_lite`.
pub uninterp spec fn error_text(error: Error) -> Seq<char>;

/// `RegexBuilder::build`, with the default configuration, compiles the pattern, or says why it
/// cannot. The result depends on nothing but the pattern: two expressions that were built of the same
/// pattern match alike, and are taken for the same.
#[verifier::external_body]
pub(crate) fn build_regex(pattern: &str) -> (built: Result<Regex, Error>)
    ensures
        built == built_regex(pattern@),
{
    RegexBuilder::new(pattern).build()
}

/// `Regex::find` gives the byte offsets of the first match. The match does not end before it starts,
/// it lies within the text, and both its ends fall between characters. The result depends on nothing
/// but the regular expression and the text.
#[verifier::external_body]
pub(crate) fn find_first(regex: &Regex, text: &str) -> (found: Option<(usize, usize)>)
    ensures
        found == first_match(*regex, text@),
        found matches Some((start, end)) ==> {
            &&& start <= end <= encode_utf8(text@).len()
            &&& is_char_boundary(encode_utf8(text@), start as int)
            &&& is_char_boundary(encode_utf8(text@), end as int)
        },
{
    regex.find(text).map(|found| (found.start(), found.end()))
}

/// `to_string` on an error of `regex_lite` gives its description, which depends on nothing but the
/// error.
#[verifier::external_body]
pub(crate) fn describe_error(error: &Error) -> (text: String)
    ensures
        text@ == error_text(*error),
{
    error.to_string()
}

} // verus!
