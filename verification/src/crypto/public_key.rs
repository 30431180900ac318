//! Public key types held by the core.

use vstd::prelude::*;

use crate::schema;

verus! {

/// Public keys the root authority stores.
#[derive(Clone, Copy, Debug, PartialEq, Eq)]
pub enum PublicKey {
    /// An Ed25519 public key.
    Ed25519([u8; 32]),
}

impl PublicKey {
    /// The raw key material.
    pub open spec fn bytes_view(self) -> Seq<u8> {
        match self {
            PublicKey::Ed25519(b) => b@,
        }
    }
}

impl From<schema::PublicKey> for PublicKey {
    fn from(key: schema::PublicKey) -> (r: PublicKey) {
        match key {
            schema::PublicKey::Ed25519(bytes) => PublicKey::Ed25519(bytes),
        }
    }
}

impl vstd::std_specs::convert::FromSpecImpl<schema::PublicKey> for PublicKey {
    open spec fn obeys_from_spec() -> bool {
        true
    }

    open spec fn from_spec(key: schema::PublicKey) -> PublicKey {
        match key {
            schema::PublicKey::Ed25519(bytes) => PublicKey::Ed25519(bytes),
        }
    }
}

} // verus!
