//! Typed errors for the transport layer. Every failure of a decode, encode or
//! frame operation is surfaced as a [`TransportError`] value.

use vstd::prelude::*;

verus! {

/// The kind of a transport failure.
#[derive(Debug, Clone, PartialEq, Eq, Structural)]
pub enum ErrorType {
    /// A failure with no more specific kind.
    Generic,
    /// The source ran out of bytes while more were required.
    EOF,
    /// An underlying I/O operation failed.
    IoFailure,
    /// A numeric conversion overflowed its target type.
    NumericOverflow,
    /// Bytes that were expected to be text were not validly encoded.
    InvalidText,
    /// A variable-length integer did not terminate within its byte budget.
    VarNumTooLarge,
    /// A tag tree's accounted cost exceeded the decode ceiling.
    OversizedTag,
    /// A tag tree was nested deeper than the recursion cap.
    DepthExceeded,
    /// A tag type identifier outside the known range.
    UnknownTagId,
    /// A nonempty list tag declared the end-marker as its element type.
    MissingListType,
    /// The root of a tag tree was not a compound tag.
    NonCompoundRoot,
    /// A decompressed frame's byte count did not match its declared length.
    DecompressMismatch,
    /// A length-capped string or sequence exceeded its bound.
    BoundExceeded,
    /// A tagged-union discriminant matched no declared variant.
    UnmatchedDiscriminant,
    /// No complete frame was found and the read buffer has no capacity left.
    BufferFull,
}

/// Context attached to an error for diagnostics. It is never used for
/// control flow.
#[derive(Debug, Clone)]
pub enum TransportErrorContext {
    /// No context is known.
    Unknown,
    /// The error was converted from another error value.
    Yeeted,
    /// The error is explained by the given text.
    Explainable(String),
    /// The offending measurement: the value that was seen and the bound it
    /// broke (a size and its limit, a depth and its cap, a type identifier
    /// and the largest known one).
    Measured { value: u64, bound: u64 },
}

/// The error type for the transport layer: a kind plus diagnostic context.
#[derive(Debug, Clone)]
pub struct TransportError {
    /// The context around the error.
    pub context: TransportErrorContext,
    /// The kind of the error.
    pub error_type: ErrorType,
}

impl TransportError {
    /// Creates a new error of the given kind with unknown context.
    pub fn error(error_type: ErrorType) -> (r: Self)
        ensures
            r.error_type == error_type,
    {
        TransportError { context: TransportErrorContext::Unknown, error_type }
    }

    /// Creates a new error with the given context and kind.
    pub fn with_context(context: TransportErrorContext, error_type: ErrorType) -> (r: Self)
        ensures
            r.error_type == error_type,
            r.context == context,
    {
        TransportError { context, error_type }
    }

    /// Creates a new error of the given kind carrying the offending value
    /// and the bound it broke.
    pub fn measured(value: u64, bound: u64, error_type: ErrorType) -> (r: Self)
        ensures
            r.error_type == error_type,
            r.context == (TransportErrorContext::Measured { value, bound }),
    {
        TransportError { context: TransportErrorContext::Measured { value, bound }, error_type }
    }

    /// A short description of the error kind, for diagnostics.
    pub fn describe(&self) -> String {
        match self.error_type {
            ErrorType::Generic => "generic failure".to_string(),
            ErrorType::EOF => "end of stream".to_string(),
            ErrorType::IoFailure => "io failure".to_string(),
            ErrorType::NumericOverflow => "numeric conversion overflowed".to_string(),
            ErrorType::InvalidText => "invalid text encoding".to_string(),
            ErrorType::VarNumTooLarge => "var num too large".to_string(),
            ErrorType::OversizedTag => "tag too big for the accounting ceiling".to_string(),
            ErrorType::DepthExceeded => "tag nesting too deep".to_string(),
            ErrorType::UnknownTagId => "unknown tag type id".to_string(),
            ErrorType::MissingListType => "missing type on list tag".to_string(),
            ErrorType::NonCompoundRoot => "root tag must be a compound tag".to_string(),
            ErrorType::DecompressMismatch => "decompressed size mismatch".to_string(),
            ErrorType::BoundExceeded => "length bound exceeded".to_string(),
            ErrorType::UnmatchedDiscriminant => "unmatched discriminant".to_string(),
            ErrorType::BufferFull => "no packet found but buffer is full".to_string(),
        }
    }
}

/// A result type that carries a [`TransportError`] on failure.
pub type TransportResult<T> = Result<T, TransportError>;

} // verus!
