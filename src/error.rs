//! The crate-wide error taxonomy.
use vstd::prelude::*;

use crate::de::DeserializerError;

verus! {

#[derive(Debug)]
pub enum Error {
    /// The source could not be read.
    Io(String),
    /// A container broke the protocol, or an internal bug.
    BrokenInvariant(String),
    /// Malformed input.
    Syntax(String),
    /// A recognized but unhandled version or variant of a format.
    Unsupported(String),
    /// An error of this crate that fits no other variant.
    OtherInternal(String),
    /// An error of another crate, passed through.
    OtherExternal(String),
}

impl From<DeserializerError> for Error {
    fn from(e: DeserializerError) -> (r: Error) {
        match e {
            DeserializerError::Io(m) => Error::Io(m),
            DeserializerError::BrokenInvariant(m) => Error::BrokenInvariant(m),
            DeserializerError::Other(m) => Error::OtherExternal(m),
        }
    }
}

impl vstd::std_specs::convert::FromSpecImpl<DeserializerError> for Error {
    open spec fn obeys_from_spec() -> bool {
        true
    }

    open spec fn from_spec(e: DeserializerError) -> Error {
        match e {
            DeserializerError::Io(m) => Error::Io(m),
            DeserializerError::BrokenInvariant(m) => Error::BrokenInvariant(m),
            DeserializerError::Other(m) => Error::OtherExternal(m),
        }
    }
}

} // verus!
