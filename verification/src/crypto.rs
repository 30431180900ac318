//! Cryptographic functionality: the digest the codec binds messages to,
//! public key types, and the root key wrapper.

pub mod public_key;
pub mod root_key;

pub use public_key::PublicKey;
pub use root_key::RootKey;

use vstd::prelude::*;

verus! {

/// The SHA-256 digest of a byte string.  The digest binds authentication to
/// the specific byte-level encoding actually parsed; nothing here depends on
/// what the digest's bits are, only that equal bytes give equal digests.
pub uninterp spec fn sha256_of(data: Seq<u8>) -> Seq<u8>;

/// Relies on sha2's SHA-256 (`Digest::digest`): the 32-byte digest is a
/// function of the input bytes alone.
#[verifier::external_body]
pub fn sha256(data: &[u8]) -> (r: [u8; 32])
    ensures
        r@ == sha256_of(data@),
        r@.len() == 32,
{
    <sha2::Sha256 as sha2::Digest>::digest(data).into()
}

} // verus!
