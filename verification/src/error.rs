use vstd::prelude::*;

verus! {

/// Errors produced during TLS ClientHello parsing.
#[derive(Debug, Clone, PartialEq, Eq)]
#[non_exhaustive]
pub enum Error {
    /// Input buffer does not contain enough bytes.
    BufferTooShort {
        /// Minimum bytes required.
        need: usize,
        /// Bytes actually available.
        have: usize,
    },
    /// TLS record content type is not Handshake (`0x16`).
    NotHandshakeRecord(u8),
    /// Handshake message type is not ClientHello (`0x01`).
    NotClientHello(u8),
    /// A required field was truncated in the input.
    Truncated {
        /// Name of the truncated field.
        field: &'static str,
    },
}

/// Mathematical model of an [`Error`]: the same four kinds, with the
/// truncated field's name as a character sequence.
pub enum SpecError {
    BufferTooShort { need: nat, have: nat },
    NotHandshakeRecord(u8),
    NotClientHello(u8),
    Truncated { field: Seq<char> },
}

impl View for Error {
    type V = SpecError;

    open spec fn view(&self) -> SpecError {
        match self {
            Error::BufferTooShort { need, have } => SpecError::BufferTooShort {
                need: *need as nat,
                have: *have as nat,
            },
            Error::NotHandshakeRecord(b) => SpecError::NotHandshakeRecord(*b),
            Error::NotClientHello(b) => SpecError::NotClientHello(*b),
            Error::Truncated { field } => SpecError::Truncated { field: field@ },
        }
    }
}

} // verus!
