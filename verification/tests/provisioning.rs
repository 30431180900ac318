//! The root-authority state machine: one-shot provisioning, threshold
//! bounds, capacity, and identifier determinism.

use armistice_core::crypto::{PublicKey, RootKey};
use armistice_core::error::Error;
use armistice_core::schema;
use armistice_core::schema::provision::RootKeys;
use armistice_core::schema::{Request, Response, Uuid};
use armistice_core::Armistice;

fn key_ascending() -> [u8; 32] {
    [
        0, 1, 2, 3, 4, 5, 6, 7, 8, 9, 10, 11, 12, 13, 14, 15, 16, 17, 18, 19, 20, 21, 22, 23,
        24, 25, 26, 27, 28, 29, 30, 31,
    ]
}

fn key_descending() -> [u8; 32] {
    [
        31, 30, 29, 28, 27, 26, 25, 24, 23, 22, 21, 20, 19, 18, 17, 16, 15, 14, 13, 12, 11, 10,
        9, 8, 7, 6, 5, 4, 3, 2, 1, 0,
    ]
}

fn new_core() -> Armistice {
    Armistice::new(RootKey::new([0u8; 32]))
}

#[test]
fn provisioning_happy_path() {
    let mut armistice = new_core();
    assert!(!armistice.is_provisioned());

    let keys = vec![PublicKey::Ed25519(key_ascending())];
    let response = armistice.provision(1, &keys).unwrap();

    assert!(armistice.is_provisioned());
    assert_eq!(
        response.uuid,
        Uuid::parse_str("3cea1c8f-b881-5b13-cc24-bb320c9b7887").unwrap()
    );
}

#[test]
fn provision_twice_fails_already_provisioned() {
    let mut armistice = new_core();
    let keys = vec![PublicKey::Ed25519(key_ascending())];
    armistice.provision(1, &keys).unwrap();

    let threshold_before = armistice.root_config().threshold();
    let keys_before = armistice.root_config().public_keys().to_vec();

    // repeating the same call on the same instance fails, whatever the
    // arguments, and leaves the configuration untouched
    assert_eq!(armistice.provision(1, &keys), Err(Error::AlreadyProvisioned));
    let other = vec![PublicKey::Ed25519(key_descending())];
    assert_eq!(armistice.provision(2, &other), Err(Error::AlreadyProvisioned));

    assert_eq!(armistice.root_config().threshold(), threshold_before);
    assert_eq!(armistice.root_config().public_keys(), keys_before.as_slice());
    assert!(armistice.is_provisioned());
}

#[test]
fn threshold_bounds_are_enforced() {
    let one_key = vec![PublicKey::Ed25519(key_ascending())];
    let no_keys: Vec<PublicKey> = vec![];

    let mut a = new_core();
    assert_eq!(a.provision(0, &one_key), Err(Error::InvalidThreshold));
    assert!(!a.is_provisioned());

    let mut b = new_core();
    assert_eq!(b.provision(2, &one_key), Err(Error::InvalidThreshold));
    assert!(!b.is_provisioned());

    let mut c = new_core();
    assert_eq!(c.provision(1, &no_keys), Err(Error::InvalidThreshold));
    assert!(!c.is_provisioned());
}

#[test]
fn nine_keys_exceed_capacity() {
    let mut keys: Vec<PublicKey> = Vec::new();
    for i in 0..9u8 {
        keys.push(PublicKey::Ed25519([i; 32]));
    }
    let mut a = new_core();
    assert_eq!(a.provision(1, &keys), Err(Error::CapacityExceeded));
    assert!(!a.is_provisioned());

    // eight keys succeed
    keys.pop();
    let mut b = new_core();
    assert!(b.provision(1, &keys).is_ok());
    assert!(b.is_provisioned());
}

#[test]
fn ninth_push_into_root_keys_fails() {
    let mut keys = RootKeys::new();
    for i in 0..8u8 {
        assert!(keys.push(schema::PublicKey::Ed25519([i; 32])).is_ok());
    }
    assert!(keys.push(schema::PublicKey::Ed25519([8; 32])).is_err());
    assert_eq!(keys.len(), 8);
}

#[test]
fn identifier_is_deterministic() {
    let keys = vec![PublicKey::Ed25519(key_ascending())];

    let mut a = new_core();
    let mut b = new_core();
    let ra = a.provision(1, &keys).unwrap();
    let rb = b.provision(1, &keys).unwrap();
    assert_eq!(ra.uuid, rb.uuid);

    // a different configuration receives a different identifier
    let other = vec![
        PublicKey::Ed25519(key_ascending()),
        PublicKey::Ed25519(key_descending()),
    ];
    let mut c = new_core();
    let rc = c.provision(1, &other).unwrap();
    assert_ne!(ra.uuid, rc.uuid);
    assert_eq!(
        rc.uuid,
        Uuid::parse_str("b4c40d7a-f825-2a23-83a8-bb340c5dabc5").unwrap()
    );
}

#[test]
fn decode_dispatch_encode_pipeline() {
    // build the wire request a host would send
    let mut root_keys = RootKeys::new();
    root_keys.push(schema::PublicKey::Ed25519(key_ascending())).unwrap();
    let wire_request = Request::Provision(schema::provision::Request {
        root_key_threshold: 1,
        root_keys,
        timestamp: None,
        digest: None,
    });
    let packet = wire_request.to_vec();

    // the device decodes, dispatches, and answers
    let mut armistice = new_core();
    let request = Request::decode(&packet).unwrap();
    let response = armistice.handle_request(&request).unwrap();
    let reply = response.to_vec();

    // the host decodes the reply
    let decoded = Response::decode(&reply).unwrap();
    let Response::Provision(inner) = decoded;
    assert_eq!(
        inner.uuid,
        Uuid::parse_str("3cea1c8f-b881-5b13-cc24-bb320c9b7887").unwrap()
    );
    assert!(armistice.is_provisioned());
}

#[test]
fn dispatch_on_provisioned_core_fails() {
    let mut root_keys = RootKeys::new();
    root_keys.push(schema::PublicKey::Ed25519(key_ascending())).unwrap();
    let request = Request::Provision(schema::provision::Request {
        root_key_threshold: 1,
        root_keys,
        timestamp: None,
        digest: None,
    });

    let mut armistice = new_core();
    assert!(armistice.handle_request(&request).is_ok());
    assert_eq!(armistice.handle_request(&request), Err(Error::AlreadyProvisioned));
}
