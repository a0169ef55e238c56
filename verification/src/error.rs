use vstd::prelude::*;
use crate::field::FieldNumber;

verus! {

/// Faults raised by the low-level wire parser.
#[derive(Clone, Copy, Debug, PartialEq, Eq, Structural)]
pub enum DecodeError {
    InvalidFieldNumber(i32),
    InvalidWireType(i8),
    Eof,
    Overflow,
}

/// Faults raised by the descriptor-driven engine, on top of the wire faults.
#[derive(Clone, Debug, PartialEq)]
pub enum Error {
    /// A fault surfaced by an upper-layer callback.
    Message(String),
    /// A wire-level fault.
    DecodeError(DecodeError),
    /// A tag referred to a field number the descriptor does not declare.
    FieldNotFound(FieldNumber),
    /// A packed repeated emit was requested with no known element count.
    UnknownSeqLen,
    /// A string field held bytes that are not valid UTF-8.
    InvalidUTF8(String),
    /// A proto2 required field was missing at the end of a message.
    Required(String),
    /// The wire type on input is incompatible with the descriptor.
    TypeMismatch(String),
    /// An unmatched or mismatched group terminator.
    EndGroup,
    /// Submessage or group nesting exceeded the implementation limit.
    RecursionLimit,
}

/// The ghost image of an `Error`: field names as character sequences.
pub enum ErrorModel {
    Message(Seq<char>),
    DecodeError(DecodeError),
    FieldNotFound(int),
    UnknownSeqLen,
    InvalidUTF8(Seq<char>),
    Required(Seq<char>),
    TypeMismatch(Seq<char>),
    EndGroup,
    RecursionLimit,
}

impl View for Error {
    type V = ErrorModel;

    open spec fn view(&self) -> ErrorModel {
        match self {
            Error::Message(s) => ErrorModel::Message(s@),
            Error::DecodeError(e) => ErrorModel::DecodeError(*e),
            Error::FieldNotFound(n) => ErrorModel::FieldNotFound(n.spec_get() as int),
            Error::UnknownSeqLen => ErrorModel::UnknownSeqLen,
            Error::InvalidUTF8(s) => ErrorModel::InvalidUTF8(s@),
            Error::Required(s) => ErrorModel::Required(s@),
            Error::TypeMismatch(s) => ErrorModel::TypeMismatch(s@),
            Error::EndGroup => ErrorModel::EndGroup,
            Error::RecursionLimit => ErrorModel::RecursionLimit,
        }
    }
}

impl From<DecodeError> for Error {
    fn from(e: DecodeError) -> (r: Error) {
        Error::DecodeError(e)
    }
}

impl vstd::std_specs::convert::FromSpecImpl<DecodeError> for Error {
    open spec fn obeys_from_spec() -> bool {
        true
    }

    open spec fn from_spec(e: DecodeError) -> Error {
        Error::DecodeError(e)
    }
}

} // verus!
