//! Why a query could not be answered.

use vstd::prelude::*;

use crate::lexer::LexerError;

verus! {

/// Why a query could not be answered.
#[derive(Debug, PartialEq)]
pub enum QueryError {
    /// The query is empty.
    QueryIsEmpty,
    /// The query string could not be compiled.
    LexicalError(LexerError),
    /// A name selects nothing: an object has no member of that name, or an
    /// array is indexed by a name that is not a number.
    CannotUseIdentifierAsArrayKeyIndex(String),
    /// Any other failure, described in words.
    UncontrolledError(String),
}

/// The result of a query.
pub type QueryResult<T> = Result<T, QueryError>;

impl From<LexerError> for QueryError {
    fn from(e: LexerError) -> Self {
        QueryError::LexicalError(e)
    }
}

impl vstd::std_specs::convert::FromSpecImpl<LexerError> for QueryError {
    open spec fn obeys_from_spec() -> bool {
        true
    }

    open spec fn from_spec(e: LexerError) -> Self {
        QueryError::LexicalError(e)
    }
}

impl From<String> for QueryError {
    fn from(s: String) -> Self {
        QueryError::UncontrolledError(s)
    }
}

impl vstd::std_specs::convert::FromSpecImpl<String> for QueryError {
    open spec fn obeys_from_spec() -> bool {
        true
    }

    open spec fn from_spec(s: String) -> Self {
        QueryError::UncontrolledError(s)
    }
}

} // verus!

verus! {

impl<'a> From<&'a str> for QueryError {
    fn from(s: &'a str) -> (r: Self)
        ensures
            r matches QueryError::UncontrolledError(m) && m@ == s@,
    {
        QueryError::UncontrolledError(s.to_owned())
    }
}

impl<'a> vstd::std_specs::convert::FromSpecImpl<&'a str> for QueryError {
    /// The message is a new `String` holding the characters of `s`; which
    /// `String` value that is cannot be written down, so the conversion is
    /// specified by the `ensures` of `from` instead.
    open spec fn obeys_from_spec() -> bool {
        false
    }

    open spec fn from_spec(s: &'a str) -> Self {
        QueryError::UncontrolledError(choose|m: String| m@ == s@)
    }
}

} // verus!
