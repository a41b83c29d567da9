//! Recognising record lines with a regular expression.

use vstd::prelude::*;

verus! {

/// The pattern of a record line: an id (or `XXXX`), numbers, hexadecimal
/// fields and free text columns.
pub const RECORD_PATTERN: &'static str = r"\s*((?:XXXX)|-?[0-9]+)\s+(-?[0-9]+)\s+((?:0[xX])?[0-9a-fA-F]+)\s+([0-9a-fA-F]{16})\s+((?:0[xX])?[0-9a-fA-F]+)\s+([^\s].*[^\s])\s+([0-9a-fA-F]{16}:[0-9a-fA-F]{16})\s+([0-9a-fA-F]{16})\s+(-?[0-9]+)\s+([^\s].*[^\s])\s*([^\s].*[^\s])*\s*";

/// Whether `Regex::new` of the `regex` crate accepts `pattern` (a valid
/// pattern within the default size limit).
pub uninterp spec fn regex_compiles(pattern: Seq<char>) -> bool;

/// What `Regex::is_match` of the `regex` crate answers for the regex
/// compiled from `pattern` on `haystack`: whether it matches anywhere in it.
pub uninterp spec fn regex_finds(pattern: Seq<char>, haystack: Seq<char>) -> bool;

/// Compiles `pattern` with `regex::Regex::new` and, when that succeeds,
/// asks `Regex::is_match` whether it matches anywhere in `haystack`.  The
/// contract claims that compiling depends on the pattern alone and that the
/// answer depends on the pattern and the haystack alone; what they are is
/// left to the `regex` crate.
#[verifier::external_body]
fn regex_match(pattern: &str, haystack: &str) -> (r: Option<bool>)
    ensures
        r == (if regex_compiles(pattern@) {
            Some(regex_finds(pattern@, haystack@))
        } else {
            None
        }),
{
    match regex::Regex::new(pattern) {
        Ok(re) => Some(re.is_match(haystack)),
        Err(_) => None,
    }
}

/// Whether `text` holds a record line; the record pattern must compile.
pub fn call_regex(text: &str) -> (found: bool)
    requires
        regex_compiles(RECORD_PATTERN@),
    ensures
        found == regex_finds(RECORD_PATTERN@, text@),
{
    match regex_match(RECORD_PATTERN, text) {
        Some(found) => found,
        None => {
            assert(false);
            false
        },
    }
}

/// Whether `text` holds a record line, or `None` when the record pattern
/// does not compile.
pub fn is_record_line(text: &str) -> (r: Option<bool>)
    ensures
        r == (if regex_compiles(RECORD_PATTERN@) {
            Some(regex_finds(RECORD_PATTERN@, text@))
        } else {
            None
        }),
{
    match regex_match(RECORD_PATTERN, text) {
        Some(_) => Some(call_regex(text)),
        None => None,
    }
}

} // verus!
