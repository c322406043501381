use vstd::prelude::*;

verus! {

use crate::common::ClientId;

/// An error from parsing one row of the tabular command input.
#[derive(Debug, Clone)]
pub enum PaymentCommandParseError {
    MissingData(String),
    ParseError(String),
    NoSuchPaymentCommand(String),
    MissingHeader(String),
}

/// A `PaymentCommandParseError` together with the 1-based line on which it
/// occurred (line 0 stands for a missing or malformed header).
#[derive(Debug, Clone)]
pub struct ParseError(pub usize, pub PaymentCommandParseError);

/// The one consistency error the engine itself can raise: a dispute-family
/// command whose client field disagrees with the referenced transaction's
/// true owner. The first field is the claimed client, the second the actual
/// owner.
#[derive(Debug, Clone, Copy, PartialEq, Eq, Structural)]
pub enum EngineError {
    ClientIdMismatch(ClientId, ClientId),
}

/// An `EngineError` together with the 1-based input line on which it
/// occurred (command index `i` in the log maps to line `i + 2`, row 1 being
/// the header of the external tabular format).
#[derive(Debug, Clone, Copy, PartialEq, Eq, Structural)]
pub struct RuntimeError(pub usize, pub EngineError);

/// Any error this library can hand back to a caller.
#[derive(Debug, Clone)]
pub enum Error {
    Runtime(RuntimeError),
    Parse(ParseError),
    Other(String),
}

impl From<RuntimeError> for Error {
    fn from(e: RuntimeError) -> (r: Self) {
        Self::Runtime(e)
    }
}

impl vstd::std_specs::convert::FromSpecImpl<RuntimeError> for Error {
    open spec fn obeys_from_spec() -> bool {
        true
    }

    open spec fn from_spec(e: RuntimeError) -> Self {
        Self::Runtime(e)
    }
}

impl From<ParseError> for Error {
    fn from(e: ParseError) -> (r: Self) {
        Self::Parse(e)
    }
}

impl vstd::std_specs::convert::FromSpecImpl<ParseError> for Error {
    open spec fn obeys_from_spec() -> bool {
        true
    }

    open spec fn from_spec(e: ParseError) -> Self {
        Self::Parse(e)
    }
}

impl From<String> for Error {
    fn from(e: String) -> (r: Self) {
        Self::Other(e)
    }
}

impl vstd::std_specs::convert::FromSpecImpl<String> for Error {
    open spec fn obeys_from_spec() -> bool {
        true
    }

    open spec fn from_spec(e: String) -> Self {
        Self::Other(e)
    }
}

} // verus!
