//! The failure kinds shared by the decoding and encoding paths.
use vstd::prelude::*;

verus! {

/// A failure while reading or writing MessagePack data.
#[derive(Clone, Copy, Debug, PartialEq, Eq, Structural)]
pub enum Error {
    /// A marker could not be written to the sink.
    MarkerWriteError,
    /// Payload or length bytes could not be written to the sink.
    DataWriteError,
    /// The marker byte could not be read.
    MarkerReadError,
    /// A value inside a map could not be decoded.
    ValueReadError,
    /// A byte payload could not be read.
    BytesReadError,
    /// The reserved tag byte, which stands for no value.
    InvalidMarker,
    /// Text that is not valid UTF-8.
    Utf8Error,
    /// A map declared more pairs than its span holds.
    MapMissingElementsError,
    /// The input ended in the middle of a value.
    InsufficientBytes,
}

impl Error {
    /// A short description of the failure.
    pub fn message(&self) -> (s: &'static str) {
        match self {
            Error::MarkerWriteError => "failed to write marker",
            Error::DataWriteError => "failed to write data",
            Error::MarkerReadError => "failed to read marker",
            Error::ValueReadError => "failed to read value",
            Error::BytesReadError => "failed to read bytes",
            Error::InvalidMarker => "invalid marker",
            Error::Utf8Error => "invalid utf-8 text",
            Error::MapMissingElementsError => "map holds fewer pairs than declared",
            Error::InsufficientBytes => "insufficient bytes",
        }
    }
}

/// A bound that error types of the library can be held to; every type meets it.
pub trait MaybeErrBound {
}

impl<T: ?Sized> MaybeErrBound for T {
}

} // verus!
