//! The root key wrapper: an adapter around a nonce-misuse-resistant
//! authenticated-encryption primitive, keyed by a device-unique secret, used
//! to protect the root authority's at-rest bytes.

use aes_gcm_siv::aead::{Aead, KeyInit};
use vstd::prelude::*;

use crate::error::Error;

verus! {

/// Largest number of plaintext bytes one sealing operation accepts.
pub const SEAL_MAX: u64 = 0x10_0000_0000;

/// The ciphertext the sealing primitive produces for a key, nonce and
/// plaintext.  Sealing is deterministic in these three inputs; nothing here
/// depends on what the bytes are.
pub uninterp spec fn seal_of(key: Seq<u8>, nonce: Seq<u8>, plaintext: Seq<u8>) -> Seq<u8>;

/// What the opening primitive yields for a key, nonce and ciphertext:
/// the plaintext, or nothing when authentication fails.
pub uninterp spec fn open_of(key: Seq<u8>, nonce: Seq<u8>, ciphertext: Seq<u8>) -> Option<
    Seq<u8>,
>;

/// Relies on aes-gcm-siv's `Aead::encrypt` for `Aes256GcmSiv`: with no
/// associated data it succeeds on any plaintext up to the mode's length
/// bound, appends a 16-byte tag, is deterministic in key, nonce and
/// plaintext, and what it returns opens back to the plaintext under the
/// same key and nonce.
#[verifier::external_body]
fn aead_seal(key: &[u8; 32], nonce: &[u8; 12], plaintext: &[u8]) -> (r: Vec<u8>)
    requires
        plaintext@.len() <= SEAL_MAX,
    ensures
        r@ == seal_of(key@, nonce@, plaintext@),
        r@.len() == plaintext@.len() + 16,
        open_of(key@, nonce@, r@) == Some(plaintext@),
{
    let cipher = aes_gcm_siv::Aes256GcmSiv::new(key.into());
    cipher.encrypt(nonce.into(), plaintext).expect("plaintext within bound")
}

/// Relies on aes-gcm-siv's `Aead::decrypt` for `Aes256GcmSiv`: it is
/// deterministic in key, nonce and ciphertext, and fails exactly when
/// authentication fails.
#[verifier::external_body]
fn aead_open(key: &[u8; 32], nonce: &[u8; 12], ciphertext: &[u8]) -> (r: Option<Vec<u8>>)
    ensures
        match r {
            Some(pt) => open_of(key@, nonce@, ciphertext@) == Some(pt@),
            None => open_of(key@, nonce@, ciphertext@) is None,
        },
{
    let cipher = aes_gcm_siv::Aes256GcmSiv::new(key.into());
    cipher.decrypt(nonce.into(), ciphertext).ok()
}

/// The root symmetric key: a device-unique secret an external trust anchor
/// supplies once at start-up.
pub struct RootKey {
    key: [u8; 32],
}

impl RootKey {
    /// The secret's bytes, for contracts.
    pub closed spec fn key_view(self) -> Seq<u8> {
        self.key@
    }

    /// Wrap the device-unique secret.
    pub fn new(key: [u8; 32]) -> (r: RootKey)
        ensures
            r.key_view() == key@,
    {
        RootKey { key }
    }

    /// Seal bytes under this key for storage at rest.
    pub fn seal(&self, nonce: &[u8; 12], plaintext: &[u8]) -> (r: Result<Vec<u8>, Error>)
        ensures
            match r {
                Ok(ct) => {
                    &&& plaintext@.len() <= SEAL_MAX
                    &&& ct@ == seal_of(self.key_view(), nonce@, plaintext@)
                    &&& ct@.len() == plaintext@.len() + 16
                    &&& open_of(self.key_view(), nonce@, ct@) == Some(plaintext@)
                },
                Err(e) => {
                    &&& e == Error::Crypto
                    &&& plaintext@.len() > SEAL_MAX
                },
            },
    {
        if plaintext.len() as u64 > SEAL_MAX {
            return Err(Error::Crypto);
        }
        Ok(aead_seal(&self.key, nonce, plaintext))
    }

    /// Open bytes sealed under this key, failing when authentication fails.
    pub fn open(&self, nonce: &[u8; 12], ciphertext: &[u8]) -> (r: Result<Vec<u8>, Error>)
        ensures
            match r {
                Ok(pt) => open_of(self.key_view(), nonce@, ciphertext@) == Some(pt@),
                Err(e) => {
                    &&& e == Error::Crypto
                    &&& open_of(self.key_view(), nonce@, ciphertext@) is None
                },
            },
    {
        match aead_open(&self.key, nonce, ciphertext) {
            Some(pt) => Ok(pt),
            None => Err(Error::Crypto),
        }
    }
}

} // verus!
