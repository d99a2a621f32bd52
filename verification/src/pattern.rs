//! Matching directives against their patterns.

use vstd::prelude::*;
use crate::grammar::{is_hold_token, is_ramp_token};

verus! {

/// The pattern of a hold directive.
pub const HOLD_PATTERN: &'static str = "^\\$[0-9]+\\$$";

/// The pattern of a ramp directive.
pub const RAMP_PATTERN: &'static str = "^\\/[+-]?([0-9]+[.])?[0-9]+,[0-9]+\\/$";

#[verifier::external_type_specification]
#[verifier::external_body]
pub struct ExPatternError(regex::Error);

/// Compiles `pattern` with `regex::Regex::new` and searches `text` with
/// `regex::Regex::is_match`.
///
/// Not proved: that the two patterns of this module compile, and that each,
/// being anchored at both ends, finds a match exactly in the texts that are a
/// directive of its kind from the first character to the last.
#[verifier::external_body]
pub(crate) fn pattern_matches(pattern: &str, text: &str) -> (r: Result<bool, regex::Error>)
    ensures
        pattern@ == HOLD_PATTERN@ ==> r is Ok && r->Ok_0 == is_hold_token(text@),
        pattern@ == RAMP_PATTERN@ ==> r is Ok && r->Ok_0 == is_ramp_token(text@),
{
    Ok(regex::Regex::new(pattern)?.is_match(text))
}

} // verus!
