//! When tokenizing goes wrong.
use vstd::prelude::*;

verus! {

/// The categories of tokenizer errors.
#[non_exhaustive]
#[derive(Debug, PartialEq)]
pub enum ErrorCode {
    /// Expected this character to be a `':'`.
    ExpectedColon,
    /// Expected a key such as `"foo"`.
    ExpectedKey,
    /// Expected a number.
    ExpectedNumber,
    /// Expected this character to be either a `'{'` or a `'['`.
    ExpectedObjectOrArray,
    /// Expected this character to be either a `','`, or a `'}'` or a `']'`.
    ExpectedCommaOrObjectEndOrArrayEnd,
    /// Expected any term such as number, boolean, string, `'{'` or `'['`.
    ExpectedAnyTerm,
    /// Expected `'true'`.
    ExpectedTrue,
    /// Expected `'false'`.
    ExpectedFalse,
    /// Expected `'null'`.
    ExpectedNull,
    /// The number is invalid, it contains non-digit characters.
    InvalidNumber,
    /// Expected a string.
    ExpectedString,
    /// Expected this character to be either a `','` or a `']'`.
    ExpectedListCommaOrEnd,
    /// Expected this character to be either a `','` or a `'}'`.
    ExpectedObjectCommaOrEnd,
    /// A consumer of the events asked to stop.
    StopSignal(String),
    /// The length of an object key is too long.
    TooLongKey,
    /// A key or a value is not valid text, or the stack does not hold the
    /// frame that the handler works on.
    InvalidFormat,
    /// The level of objects/arrays nesting is too high. Kept for hosts that
    /// impose a limit; the tokenizer itself never reports it.
    TooManyTokens,
    /// The array is invalid. It started with `[` followed by an invalid character.
    InvalidArrFormat,
}

/// An error together with the offset, within the chunk being read, of the
/// byte at which it was detected.
#[derive(Debug, PartialEq)]
pub struct Error {
    pub code: ErrorCode,
    pub column: usize,
}

} // verus!
