//! Credentials: the identity-bound keys the protocol signs with.
//!
//! The engine only reads a credential's identity and public key; how a
//! credential is issued or verified is its users' business, captured by a
//! trait they implement.

use vstd::prelude::*;

use crate::crypto::clone_bytes;

verus! {

/// A credential: an identity, the matching signature public key, and the
/// scheme the key belongs to.
pub struct Credential {
    pub identity: Vec<u8>,
    pub public_key: Vec<u8>,
    pub signature_scheme: u16,
}

/// What building a credential can find wrong.
#[derive(Debug, Clone, Copy, PartialEq, Eq, Structural)]
pub enum CredentialError {
    UnsupportedScheme,
}

/// A credential as the engine's users implement it: something that yields
/// a unique identity and a public key.
pub trait OpenMlsCredential where Self: core::marker::Sized {
    /// Builds the user's credential from the protocol's parts.
    fn try_from(credential: Credential, public_key: Vec<u8>, signature_scheme: u16) -> Result<Self, CredentialError>;

    /// Get the identity of this credential.
    fn identity(&self) -> &Vec<u8>;

    /// Get the public key of this credential.
    fn public_key(&self) -> &Vec<u8>;

    /// Get the [`Credential`] for this object.
    fn credential(&self) -> Credential;
}

/// The basic credential: the protocol's parts and nothing else.
pub struct BasicCredential {
    pub inner: Credential,
}

impl OpenMlsCredential for BasicCredential {
    fn try_from(credential: Credential, public_key: Vec<u8>, signature_scheme: u16) -> (r: Result<BasicCredential, CredentialError>)
    {
        Ok(BasicCredential {
            inner: Credential { identity: credential.identity, public_key, signature_scheme },
        })
    }

    fn identity(&self) -> &Vec<u8> {
        &self.inner.identity
    }

    fn public_key(&self) -> &Vec<u8> {
        &self.inner.public_key
    }

    fn credential(&self) -> Credential {
        Credential {
            identity: clone_bytes(&self.inner.identity),
            public_key: clone_bytes(&self.inner.public_key),
            signature_scheme: self.inner.signature_scheme,
        }
    }
}

} // verus!
