//! Wildcard segment matching. Segments that contain `*` are handed to the
//! regex engine; everything else is matched by exact string equality.

use vstd::prelude::*;

use crate::strings::contains_char;
use crate::strings::str_eq;

verus! {

/// Whether the regex engine accepts `pattern` as a pattern. This depends on
/// the pattern text alone.
pub uninterp spec fn regex_valid(pattern: Seq<char>) -> bool;

/// Whether the compiled form of `pattern` matches somewhere inside `text`
/// (an unanchored search). This depends on the pattern and the text alone.
pub uninterp spec fn regex_found(pattern: Seq<char>, text: Seq<char>) -> bool;

/// Relies on `regex::Regex::new` and `regex::Regex::is_match`: whether a
/// pattern compiles is a function of the pattern text alone, and whether the
/// compiled pattern matches somewhere in `text` is a function of the pattern
/// and the text alone.
#[verifier::external_body]
pub(crate) fn regex_try_find(pattern: &str, text: &str) -> (r: Option<bool>)
    ensures
        (r is Some) == regex_valid(pattern@),
        r matches Some(m) ==> m == regex_found(pattern@, text@),
{
    regex::Regex::new(pattern).ok().map(|re| re.is_match(text))
}

/// What one query segment, given as raw text, says about a symbol: the bare
/// wildcard accepts everything, a segment containing `*` is a regex searched
/// for anywhere in the symbol, and anything else must equal the symbol
/// exactly.
pub open spec fn spec_symbol_matches(pattern: Seq<char>, symbol: Seq<char>) -> bool {
    if pattern == seq!['*'] {
        true
    } else if pattern.contains('*') {
        regex_valid(pattern) && regex_found(pattern, symbol)
    } else {
        pattern == symbol
    }
}

/// Matches one raw query segment against a symbol. A literal segment (no `*`)
/// matches only the exact same text; the bare wildcard matches every symbol;
/// any other `*`-bearing segment matches when its regex is found in the
/// symbol, and never matches if it does not compile.
pub fn does_symbol_match_regex(pattern: &str, symbol: &str) -> (r: bool)
    ensures
        r == spec_symbol_matches(pattern@, symbol@),
        !pattern@.contains('*') ==> (r <==> pattern@ == symbol@),
        pattern@ == seq!['*'] ==> r,
{
    proof {
        reveal_strlit("*");
        assert("*"@ =~= seq!['*']);
        assert(seq!['*'][0] == '*');
    }
    if str_eq(pattern, "*") {
        true
    } else if contains_char(pattern, '*') {
        match regex_try_find(pattern, symbol) {
            Some(m) => m,
            None => false,
        }
    } else {
        str_eq(pattern, symbol)
    }
}

} // verus!
