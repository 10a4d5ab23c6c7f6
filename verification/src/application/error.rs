//! Errors of the use cases.
use vstd::prelude::*;

verus! {

/// Why a use case could not be carried out.
#[derive(Clone, Copy, Debug, PartialEq, Eq, Structural)]
pub enum ApplicationError {
    /// The chat has no party.
    NoPartyFound,
}

impl ApplicationError {
    /// The human-readable message of the error.
    pub fn message(&self) -> (m: &'static str)
        ensures
            m@ == "no party found"@,
    {
        match self {
            ApplicationError::NoPartyFound => "no party found",
        }
    }
}

/// The party that a lookup found, or `NoPartyFound` when it found none.
pub fn party_or_not_found<T>(found: Option<T>) -> (r: Result<T, ApplicationError>)
    ensures
        match found {
            Some(p) => r == Ok::<T, ApplicationError>(p),
            None => r == Err::<T, ApplicationError>(ApplicationError::NoPartyFound),
        },
{
    match found {
        Some(p) => Ok(p),
        None => Err(ApplicationError::NoPartyFound),
    }
}

} // verus!
