use vstd::prelude::*;

verus! {

/// Errors returned by the deep (path-addressed) operations of an account.
#[derive(Debug, PartialEq, Eq, Structural, Clone, Copy)]
pub enum DeepError {
    /// The path named a child account that does not exist at some level.
    NotFound,
    /// The path supplied to a deep operation was empty.
    EmptyVec,
}

/// Errors about the validity of an account.
#[derive(Debug, PartialEq, Eq, Structural, Clone, Copy)]
pub enum InvalidAccountError {
    /// A structural edit would leave two sibling accounts with the same name.
    ExistingName,
}

/// Errors returned when extracting a concrete value out of a stored cell.
#[derive(Debug, PartialEq, Eq, Structural, Clone, Copy)]
pub enum StgError {
    /// No value was found for the requested key.
    Missing,
    /// A value was found, but it does not hold the requested type.
    WrongType,
}

/// Errors returned by typed lookups.
#[derive(Debug, PartialEq, Eq, Structural, Clone, Copy)]
pub enum GetError {
    /// No value was found for the requested key.
    Missing,
    /// A value was found, but it does not hold the requested type.
    WrongType,
}

} // verus!
