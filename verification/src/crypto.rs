//! The cryptographic capabilities the engine consumes: a hash, a one-way
//! KDF, and HPKE seal/open with key pairs derived from input key material.
//!
//! Each capability is an outside call behind a trusted wrapper.  What a call
//! returns is named by an uninterpreted spec function of its inputs where it
//! is deterministic; of the randomized seal only the round-trip guarantee is
//! stated, for every outcome of its randomness.

use vstd::prelude::*;

use hpke_rs_crypto::types::{AeadAlgorithm, KdfAlgorithm, KemAlgorithm};
use sha2::Digest;

use crate::errors::TreeError;

verus! {

/// The SHA-256 digest of a byte string.
pub uninterp spec fn hash_of(data: Seq<u8>) -> Seq<u8>;

/// The 32-byte HKDF-SHA256 derivation of a secret under a label.
pub uninterp spec fn kdf_of(secret: Seq<u8>, label: Seq<u8>) -> Seq<u8>;

/// The public key of the HPKE key pair derived from input key material.
pub uninterp spec fn hpke_pk_of(ikm: Seq<u8>) -> Seq<u8>;

/// The private key of the HPKE key pair derived from input key material.
pub uninterp spec fn hpke_sk_of(ikm: Seq<u8>) -> Seq<u8>;

/// What HPKE open returns: a deterministic function of the private key, the
/// encapsulated secret, the ciphertext and the authenticated data.
pub uninterp spec fn open_of(sk: Seq<u8>, kem_output: Seq<u8>, ct: Seq<u8>, aad: Seq<u8>) -> Option<Seq<u8>>;

/// An HPKE ciphertext: the encapsulated KEM secret and the sealed payload.
pub struct HpkeCiphertext {
    pub kem_output: Vec<u8>,
    pub ciphertext: Vec<u8>,
}

impl HpkeCiphertext {
    /// Field-wise copy.
    pub fn duplicate(&self) -> (r: HpkeCiphertext)
        ensures
            r.kem_output@ == self.kem_output@,
            r.ciphertext@ == self.ciphertext@,
    {
        HpkeCiphertext { kem_output: clone_bytes(&self.kem_output), ciphertext: clone_bytes(&self.ciphertext) }
    }
}

/// A ciphertext seals a plaintext to a public key when opening it under the
/// matching private key — the one of any key pair that derives this public
/// key — returns exactly that plaintext.
pub open spec fn seals_to(pk: Seq<u8>, kem_output: Seq<u8>, ct: Seq<u8>, aad: Seq<u8>, pt: Seq<u8>) -> bool {
    forall|ikm: Seq<u8>| hpke_pk_of(ikm) == pk ==> #[trigger] open_of(hpke_sk_of(ikm), kem_output, ct, aad) == Some(pt)
}

/// Relies on `sha2::Sha256::digest`: the digest is a pure function of the
/// input and is 32 bytes long.
#[verifier::external_body]
pub(crate) fn hash(data: &[u8]) -> (r: Vec<u8>)
    ensures
        r@ == hash_of(data@),
        r@.len() == 32,
{
    sha2::Sha256::digest(data).to_vec()
}

/// Relies on `hkdf::Hkdf::<Sha256>` (extract with empty salt, then expand to
/// 32 bytes): the output is a pure function of secret and label.  Expanding
/// to 32 bytes, far below 255 hash lengths, cannot fail.
#[verifier::external_body]
pub(crate) fn kdf(secret: &[u8], label: &[u8]) -> (r: Vec<u8>)
    ensures
        r@ == kdf_of(secret@, label@),
        r@.len() == 32,
{
    let h = hkdf::Hkdf::<sha2::Sha256>::new(None, secret);
    let mut okm = vec![0u8; 32];
    h.expand(label, &mut okm).expect("32 bytes is a valid HKDF-SHA256 output length");
    okm
}

/// Relies on `hpke_rs::Hpke::derive_key_pair` with DH-KEM X25519,
/// HKDF-SHA256 and ChaCha20-Poly1305: the key pair is a pure function of
/// the input key material, and X25519 keys are 32 bytes on either side.
#[verifier::external_body]
pub fn derive_keypair(ikm: &[u8]) -> (r: Result<(Vec<u8>, Vec<u8>), TreeError>)
    ensures
        r matches Ok(kp) ==> kp.0@ == hpke_pk_of(ikm@) && kp.1@ == hpke_sk_of(ikm@)
            && kp.0@.len() == 32 && kp.1@.len() == 32,
        r matches Err(e) ==> e == TreeError::PathCryptoError,
{
    let Ok(hpke) = hpke_rs::Hpke::<hpke_rs_rust_crypto::HpkeRustCrypto>::try_new(
        hpke_rs::Mode::Base, KemAlgorithm::DhKem25519, KdfAlgorithm::HkdfSha256, AeadAlgorithm::ChaCha20Poly1305,
    ) else {
        return Err(TreeError::PathCryptoError);
    };
    match hpke.derive_key_pair(ikm) {
        Ok(kp) => {
            let (sk, pk) = kp.into_keys();
            Ok((pk.as_slice().to_vec(), sk.as_slice().to_vec()))
        },
        Err(_) => Err(TreeError::PathCryptoError),
    }
}

/// Relies on `hpke_rs::Hpke::seal` (base mode, X25519/HKDF-SHA256/
/// ChaCha20-Poly1305): whatever randomness the encapsulation draws, opening
/// the result under the private key matching `pk` returns the plaintext.
#[verifier::external_body]
pub(crate) fn hpke_seal(pk: &[u8], aad: &[u8], pt: &[u8]) -> (r: Result<HpkeCiphertext, TreeError>)
    ensures
        r matches Ok(c) ==> seals_to(pk@, c.kem_output@, c.ciphertext@, aad@, pt@),
        r matches Err(e) ==> e == TreeError::PathCryptoError,
{
    let Ok(mut hpke) = hpke_rs::Hpke::<hpke_rs_rust_crypto::HpkeRustCrypto>::try_new(
        hpke_rs::Mode::Base, KemAlgorithm::DhKem25519, KdfAlgorithm::HkdfSha256, AeadAlgorithm::ChaCha20Poly1305,
    ) else {
        return Err(TreeError::PathCryptoError);
    };
    match hpke.seal(&hpke_rs::HpkePublicKey::new(pk.to_vec()), &[], aad, pt, None, None, None) {
        Ok((enc, ct)) => Ok(HpkeCiphertext { kem_output: enc, ciphertext: ct }),
        Err(_) => Err(TreeError::PathCryptoError),
    }
}

/// Relies on `hpke_rs::Hpke::open`: decryption is a deterministic function
/// of the private key, the encapsulation, the ciphertext and the
/// authenticated data; `open_of` names it.
#[verifier::external_body]
pub(crate) fn hpke_open(sk: &[u8], kem_output: &[u8], ct: &[u8], aad: &[u8]) -> (r: Result<Vec<u8>, TreeError>)
    ensures
        r matches Ok(pt) ==> open_of(sk@, kem_output@, ct@, aad@) == Some(pt@),
        r matches Err(e) ==> e == TreeError::PathCryptoError,
{
    let Ok(hpke) = hpke_rs::Hpke::<hpke_rs_rust_crypto::HpkeRustCrypto>::try_new(
        hpke_rs::Mode::Base, KemAlgorithm::DhKem25519, KdfAlgorithm::HkdfSha256, AeadAlgorithm::ChaCha20Poly1305,
    ) else {
        return Err(TreeError::PathCryptoError);
    };
    match hpke.open(kem_output, &hpke_rs::HpkePrivateKey::new(sk.to_vec()), &[], aad, ct, None, None, None) {
        Ok(pt) => Ok(pt),
        Err(_) => Err(TreeError::PathCryptoError),
    }
}

/// Byte-for-byte copy of a byte vector.
pub fn clone_bytes(v: &Vec<u8>) -> (r: Vec<u8>)
    ensures
        r@ == v@,
{
    let mut r: Vec<u8> = Vec::new();
    let mut i: usize = 0;
    while i < v.len()
        invariant
            i <= v.len(),
            r@ == v@.subrange(0, i as int),
        decreases v.len() - i,
    {
        r.push(v[i]);
        proof {
            assert(r@ =~= v@.subrange(0, i as int + 1));
        }
        i = i + 1;
    }
    proof {
        assert(r@ =~= v@);
    }
    r
}

} // verus!
