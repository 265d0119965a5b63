use vstd::prelude::*;

verus! {

/// Whether the regex crate accepts this pattern text.
pub uninterp spec fn regex_pattern_ok(p: Seq<char>) -> bool;

/// What matching a pattern against a text answers: whether the compiled
/// pattern matches anywhere in the text. The answer is a function of the
/// two strings alone.
pub uninterp spec fn regex_matches(p: Seq<char>, text: Seq<char>) -> bool;

/// Relies on `regex::Regex::new`: compiling succeeds or fails on the
/// pattern text alone; a failure is reported as the error's display text.
#[verifier::external_body]
pub(crate) fn regex_valid(p: &str) -> (r: Result<(), String>)
    ensures
        r is Ok <==> regex_pattern_ok(p@),
{
    match regex::Regex::new(p) {
        Ok(_) => Ok(()),
        Err(e) => Err(e.to_string()),
    }
}

/// Relies on `regex::Regex::new` and `regex::Regex::is_match`: compiles
/// the pattern, then asks whether it matches anywhere in the text.
#[verifier::external_body]
pub(crate) fn regex_is_match(p: &str, text: &str) -> (r: bool)
    requires
        regex_pattern_ok(p@),
    ensures
        r == regex_matches(p@, text@),
{
    match regex::Regex::new(p) {
        Ok(re) => re.is_match(text),
        Err(_) => false,
    }
}

} // verus!
