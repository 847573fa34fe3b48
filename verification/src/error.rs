//! Why a traversal was given up.

use vstd::prelude::*;

verus! {

/// A breach of the protocol between the parser, the reader and its handlers.
#[derive(Debug, Clone, Copy, PartialEq, Eq, Structural)]
pub enum Violation {
    /// An event came in the body of an object while the parser's stack did not show the
    /// name of a field on top.
    MissingFieldName,
    /// A handler that reads arrays was given a value that does not start an array.
    NotAnArray,
    /// Arrays and objects were nested more deeply than the limit in force allows.
    TooDeep,
}

/// The errors that end a traversal. None of them is recovered from: the value being
/// built is dropped, and the parser is left wherever the error was met.
#[derive(Debug, Clone, Copy, PartialEq, Eq, Structural)]
pub enum ReadError {
    /// The parser and the code reading from it disagree about where they are.
    ContractViolation(Violation),
    /// The events ran out before the array or object being read was closed.
    PrematureExhaustion,
}

} // verus!
