//! Why an operation on the ledger failed.
use vstd::prelude::*;

verus! {

#[derive(Clone, Copy, Debug, PartialEq, Eq, Structural)]
pub enum Error {
    /// A block was proposed with no controlling identifier.
    EmptyControllerSet,
    /// The block does not name the digest of the ledger's last block.
    LinkageMismatch,
    /// A signature names a signer that is not among the block's controllers.
    UnauthorizedSigner,
    /// The signatures are well formed but do not verify.
    VerificationFailed,
    /// A value could not be put into its encoded form.
    EncodeError,
    /// Bytes or signature material could not be decoded.
    DecodeError,
    /// A transport stream could not be split into frames.
    TransportFraming,
}

impl Error {
    /// A short description of the error.
    pub fn describe(&self) -> String {
        match self {
            Error::EmptyControllerSet => "empty controller set".to_string(),
            Error::LinkageMismatch => "block does not link to the ledger's last block".to_string(),
            Error::UnauthorizedSigner => "signer is not a controller of the block".to_string(),
            Error::VerificationFailed => "signature verification failed".to_string(),
            Error::EncodeError => "encoding error".to_string(),
            Error::DecodeError => "decoding error".to_string(),
            Error::TransportFraming => "malformed transport stream".to_string(),
        }
    }
}

} // verus!
