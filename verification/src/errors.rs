use vstd::prelude::*;

verus! {

/// Failure kinds of the field arithmetic: these are surfaced as distinct
/// errors so that no operation ever produces a wrong-but-plausible element.
#[derive(Clone, Copy, Debug, PartialEq, Eq, Structural)]
pub enum FieldError {
    /// Division or inversion was asked of the zero element.
    DivisionByZero,
    /// A subgroup generator was asked for an order that is not a power of
    /// two, or exceeds the order of the fixed root of unity.
    UnsupportedOrder,
}

/// Failure kinds of the proof stream: a malformed or truncated proof is
/// rejected with one of these, never with a panic.
#[derive(Clone, Copy, Debug, PartialEq, Eq, Structural)]
pub enum StreamError {
    /// A pull was asked of a stream whose objects were all read already.
    TranscriptExhausted,
}

/// Defines errors which can occur during deserialization.
#[derive(Debug, PartialEq, Eq)]
pub enum DeserializationError {
    /// Bytes in the input do not represent a valid value.
    InvalidValue(String),
    /// An end of input was reached before a valid value could be deserialized.
    UnexpectedEOF,
    /// Deserialization has finished but not all bytes have been consumed.
    UnconsumedBytes,
    /// An unknown error has occurred.
    UnknownError(String),
}

} // verus!
