//! The error type shared by the tokenizer and the value operations.

use vstd::prelude::*;

verus! {

/// Why a run of numeral characters is not a numeral.
#[derive(Debug, Clone, Copy, PartialEq, Eq, Hash)]
pub enum NumeralParseError {
    /// A run of Arabic digits was directly followed by this alphanumeric
    /// character.
    BadTrailingChar(char),
    /// The run held underscores only, so it denotes no number.
    Empty,
    /// The number denoted does not fit a numeral.
    Overflow,
}

/// What went wrong, without the place where it did.
#[derive(Debug, Clone, PartialEq, Eq, Hash)]
pub enum ErrorKind {
    /// No token starts with this character.
    UnknownTokenStart(char),
    /// A numeral was malformed.
    BadNumeral(NumeralParseError),
    /// An alphanumeric character directly followed a fraktur literal.
    BadFrakturSuffix,
    /// The input ended inside an escape sequence.
    UnterminatedEscapeSequence,
    /// A hexadecimal escape held this character, which is no hex digit.
    InvalidHexDigit(char),
    /// A `\u` escape named this number, which is no Unicode scalar value.
    InvalidHexEscape(u32),
    /// A backslash was followed by this character, which starts no escape.
    UnknownEscapeCharacter(char),
    /// The source used macro syntax, which is not available.
    UnsupportedMacro,
    /// A closure was called with `given` arguments but declares `expected`
    /// parameters.
    ArgumentCountError { given: usize, expected: usize },
    /// The value has no attribute of this name.
    UnknownAttribute(String),
    /// A map holds no entry under the key that was asked for.
    MissingKey,
    /// The operation is not defined for these operands.
    OperationNotSupported,
}

/// An error kind together with the place in the source where it arose.
///
/// `position` counts the characters of the source that lie before the place
/// of the error. Errors that arise from values at run time carry no position.
#[derive(Debug, Clone, PartialEq, Eq, Hash)]
pub struct Error {
    pub kind: ErrorKind,
    pub position: Option<usize>,
}

impl Error {
    /// An error that arose at `position` characters into the source.
    pub fn at(kind: ErrorKind, position: usize) -> (e: Error)
        ensures
            e.kind == kind,
            e.position == Some(position),
    {
        Error { kind, position: Some(position) }
    }

    /// An error that arose from an operation on values.
    pub fn runtime(kind: ErrorKind) -> (e: Error)
        ensures
            e.kind == kind,
            e.position == None::<usize>,
    {
        Error { kind, position: None }
    }
}

} // verus!
