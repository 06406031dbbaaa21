//! Errors of looking up an entity by a prefix of its identifier.
use vstd::prelude::*;

verus! {

/// Error when looking for a specific identifier from a prefix of it.
#[derive(Clone, Debug, PartialEq, Eq)]
pub enum IdPrefixFetchError {
    /// No entity matched the prefix; the text names what was looked for.
    NoMatch(String),
    /// More than one entity matched the prefix.
    MultipleMatches(String),
}

/// The message of an error, given the text it carries.
pub open spec fn id_prefix_message(e: IdPrefixFetchError) -> Seq<char> {
    match e {
        IdPrefixFetchError::NoMatch(what) => "no matches were found with the "@ + what@,
        IdPrefixFetchError::MultipleMatches(what) => "found more than one element for the provided "@
            + what@ + " and only one match is expected"@,
    }
}

impl IdPrefixFetchError {
    /// The human-readable message of the error.
    pub fn message(&self) -> (r: String)
        ensures
            r@ == id_prefix_message(*self),
    {
        match self {
            IdPrefixFetchError::NoMatch(what) => String::from_str(
                "no matches were found with the ",
            ).concat(what.as_str()),
            IdPrefixFetchError::MultipleMatches(what) => String::from_str(
                "found more than one element for the provided ",
            ).concat(what.as_str()).concat(" and only one match is expected"),
        }
    }
}

} // verus!
