//! The signer session: the boundary that a remote signer implements.
//!
//! A session signs digests, each within one domain, and nothing else. What
//! domains there are, and which of them a session allows, is the signer's:
//! everything outside of them is refused.

use vstd::prelude::*;

use crate::ids::{DeviceId, DriveId};

verus! {

#[derive(Debug, Clone, Copy, PartialEq, Eq, Structural)]
pub enum SignerError {
    /// The session refused the request.
    Refused,
    /// The session cannot be reached.
    Unreachable,
}

/// A request for a signature over one digest.
#[derive(Debug, PartialEq, Eq)]
pub struct SignMessageRequest<D> {
    pub domain: D,
    pub drive: DriveId,
    pub digest: [u8; 32],
}

/// A BIP-340 signature.
#[derive(Debug, PartialEq, Eq)]
pub struct SignMessageResponse {
    pub signature: [u8; 64],
}

/// A scoped signer session.
pub trait SignerSession<D> {
    /// The identity that the session signs for.
    fn get_public_key(&self) -> (r: Result<DeviceId, SignerError>);

    /// Asks for a signature.
    fn sign_message(&self, request: SignMessageRequest<D>) -> (r: Result<
        SignMessageResponse,
        SignerError,
    >);
}

} // verus!
