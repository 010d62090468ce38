//! Errors of a search request.

use vstd::prelude::*;

verus! {

/// Why a search request failed.
#[derive(Clone, Copy, PartialEq, Eq, Structural, Debug)]
pub enum SearchError {
    /// The query names no mode.
    MissingMode,
    /// The mode is not one of the known modes.
    InvalidMode,
    /// The query names no pattern.
    MissingPattern,
    /// The pattern holds a character that its mode does not allow.
    DisallowedPatternChars,
    /// The pattern is longer than the limit.
    PatternTooLong,
    /// The absent letters hold something other than letters.
    DisallowedAbsentLetters,
    /// A combination slot holds something other than a letter.
    DisallowedCombinationChars,
    /// The dictionary could not be read.
    Dictionary,
}

/// The message shown to the user for each error.
pub open spec fn message_text(e: SearchError) -> Seq<char> {
    match e {
        SearchError::MissingMode => "Internal error - no mode specified!"@,
        SearchError::InvalidMode => "Internal error - invalid mode!"@,
        SearchError::MissingPattern => "Internal error - no pattern specified!"@,
        SearchError::DisallowedPatternChars => "Disallowed characters in pattern"@,
        SearchError::PatternTooLong => "Pattern too long"@,
        SearchError::DisallowedAbsentLetters => "Disallowed characters in absent_letters"@,
        SearchError::DisallowedCombinationChars => "Disallowed characters in combination"@,
        SearchError::Dictionary => "Could not read dictionary"@,
    }
}

impl SearchError {
    /// The message shown to the user.
    pub fn message(&self) -> (r: String)
        ensures
            r@ == message_text(*self),
    {
        match self {
            SearchError::MissingMode => String::from_str("Internal error - no mode specified!"),
            SearchError::InvalidMode => String::from_str("Internal error - invalid mode!"),
            SearchError::MissingPattern => String::from_str("Internal error - no pattern specified!"),
            SearchError::DisallowedPatternChars => String::from_str("Disallowed characters in pattern"),
            SearchError::PatternTooLong => String::from_str("Pattern too long"),
            SearchError::DisallowedAbsentLetters => String::from_str(
                "Disallowed characters in absent_letters",
            ),
            SearchError::DisallowedCombinationChars => String::from_str(
                "Disallowed characters in combination",
            ),
            SearchError::Dictionary => String::from_str("Could not read dictionary"),
        }
    }
}

} // verus!
