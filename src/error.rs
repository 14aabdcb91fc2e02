use vstd::prelude::*;

verus! {

/// Why a scan failed.
#[derive(Debug)]
pub enum TokenizeError {
    /// A character-class scan matched no character.
    NoMatches,
    /// The next character begins no token; it is carried as text.
    UnknownChar(String),
    /// A token was expected but the input had ended.
    UnexpectedEOF,
}

impl PartialEq for TokenizeError {
    fn eq(&self, other: &TokenizeError) -> (r: bool) {
        match (self, other) {
            (TokenizeError::NoMatches, TokenizeError::NoMatches) => true,
            (TokenizeError::UnknownChar(a), TokenizeError::UnknownChar(b)) => *a == *b,
            (TokenizeError::UnexpectedEOF, TokenizeError::UnexpectedEOF) => true,
            _ => false,
        }
    }
}

impl vstd::std_specs::cmp::PartialEqSpecImpl for TokenizeError {
    open spec fn obeys_eq_spec() -> bool {
        true
    }

    open spec fn eq_spec(&self, other: &TokenizeError) -> bool {
        match (self, other) {
            (TokenizeError::NoMatches, TokenizeError::NoMatches) => true,
            (TokenizeError::UnknownChar(a), TokenizeError::UnknownChar(b)) => a@ == b@,
            (TokenizeError::UnexpectedEOF, TokenizeError::UnexpectedEOF) => true,
            _ => false,
        }
    }
}

} // verus!
