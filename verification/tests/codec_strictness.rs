//! Strictness of the wire codec: trailing data, unknown headers,
//! non-minimal integers, capacity, and the digest binding.

use armistice_core::error::DecodeError;
use armistice_core::schema::provision;
use armistice_core::schema::provision::RootKeys;
use armistice_core::schema::{PublicKey, Request, Response, Uuid};
use sha2::Digest;

fn key_ascending() -> [u8; 32] {
    [
        0, 1, 2, 3, 4, 5, 6, 7, 8, 9, 10, 11, 12, 13, 14, 15, 16, 17, 18, 19, 20, 21, 22, 23,
        24, 25, 26, 27, 28, 29, 30, 31,
    ]
}

fn key_descending() -> [u8; 32] {
    [
        31, 30, 29, 28, 27, 26, 25, 24, 23, 22, 21, 20, 19, 18, 17, 16, 15, 14, 13, 12, 11, 10,
        9, 8, 7, 6, 5, 4, 3, 2, 1, 0,
    ]
}

fn example_wire_request() -> Request {
    let mut root_keys = RootKeys::new();
    root_keys.push(PublicKey::Ed25519(key_ascending())).unwrap();
    Request::Provision(provision::Request {
        root_key_threshold: 1,
        root_keys,
        timestamp: None,
        digest: None,
    })
}

#[test]
fn trailing_byte_after_request_is_rejected() {
    let mut bytes = example_wire_request().to_vec();
    bytes.push(0);
    assert_eq!(Request::decode(&bytes), Err(DecodeError::TrailingData));
}

#[test]
fn trailing_byte_after_response_is_rejected() {
    let uuid = Uuid::parse_str("88888888-4444-4444-4444-121212121212").unwrap();
    let response = Response::Provision(provision::Response { uuid });
    let mut bytes = response.to_vec();
    bytes.push(7);
    assert_eq!(Response::decode(&bytes), Err(DecodeError::TrailingData));
}

#[test]
fn unknown_tag_is_a_hard_error() {
    let mut bytes = example_wire_request().to_vec();
    // replace the envelope header with one carrying tag 1 instead of tag 0
    let unknown_header_value: u64 = 1 * 16 + 8 + 6;
    bytes[0] = (unknown_header_value * 2 + 1) as u8;
    assert_eq!(
        Request::decode(&bytes),
        Err(DecodeError::UnexpectedFieldHeader { tag: 1, wire_type: 6 })
    );
}

#[test]
fn non_minimal_length_prefix_is_rejected() {
    // a public key message whose length prefix of 32 takes two bytes where
    // one is admissible
    let mut bytes = vec![9u8, 130, 0];
    bytes.extend_from_slice(&key_ascending());
    assert_eq!(PublicKey::decode(&bytes), Err(DecodeError::MalformedElement));
}

#[test]
fn wrong_key_size_is_rejected() {
    // a 31-byte key payload where exactly 32 bytes are demanded
    let mut bytes = vec![9u8, 63];
    bytes.extend_from_slice(&key_ascending()[..31]);
    assert_eq!(PublicKey::decode(&bytes), Err(DecodeError::MalformedElement));
}

#[test]
fn nine_keys_on_the_wire_exceed_capacity() {
    // hand-assemble a provisioning request carrying nine keys; the ninth
    // cannot enter the bounded key list
    let mut body: Vec<u8> = Vec::new();
    for i in 0..9u8 {
        body.push(69);  // element length prefix: 34
        let element = PublicKey::Ed25519([i; 32]).to_vec();
        body.extend_from_slice(&element);
    }
    let seq_header = (body.len() as u64) * 16 + 6;
    let packed = seq_header * 4 + 2;  // two-byte wire form of the sequence header
    let mut bytes: Vec<u8> = vec![21, 3, 63];
    bytes.push((packed % 256) as u8);
    bytes.push((packed / 256) as u8);
    bytes.extend_from_slice(&body);
    assert_eq!(provision::Request::decode(&bytes), Err(DecodeError::Capacity));

    // the same message with eight keys decodes
    let mut root_keys = RootKeys::new();
    for i in 0..8u8 {
        root_keys.push(PublicKey::Ed25519([i; 32])).unwrap();
    }
    let request = provision::Request {
        root_key_threshold: 1,
        root_keys,
        timestamp: None,
        digest: None,
    };
    let ok = provision::Request::decode(&request.to_vec()).unwrap();
    assert_eq!(ok.root_keys, request.root_keys);
}

#[test]
fn decoded_keys_keep_count_order_and_values() {
    let mut root_keys = RootKeys::new();
    root_keys.push(PublicKey::Ed25519(key_ascending())).unwrap();
    root_keys.push(PublicKey::Ed25519(key_descending())).unwrap();
    let request = provision::Request {
        root_key_threshold: 1,
        root_keys,
        timestamp: None,
        digest: None,
    };

    let decoded = provision::Request::decode(&request.to_vec()).unwrap();
    assert_eq!(decoded.root_keys.len(), 2);
    assert_eq!(*decoded.root_keys.get(0), PublicKey::Ed25519(key_ascending()));
    assert_eq!(*decoded.root_keys.get(1), PublicKey::Ed25519(key_descending()));
}

#[test]
fn digest_matches_the_exact_bytes_decoded() {
    let mut root_keys = RootKeys::new();
    root_keys.push(PublicKey::Ed25519(key_ascending())).unwrap();
    let request = provision::Request {
        root_key_threshold: 1,
        root_keys,
        timestamp: None,
        digest: None,
    };
    let bytes = request.to_vec();

    let decoded = provision::Request::decode(&bytes).unwrap();
    let recomputed: [u8; 32] = sha2::Sha256::digest(&bytes).into();
    assert_eq!(decoded.digest, Some(recomputed));
}

#[test]
fn bit_flip_in_a_critical_field_changes_the_digest() {
    let mut root_keys = RootKeys::new();
    root_keys.push(PublicKey::Ed25519(key_ascending())).unwrap();
    let request = provision::Request {
        root_key_threshold: 1,
        root_keys,
        timestamp: None,
        digest: None,
    };
    let bytes = request.to_vec();
    let baseline = provision::Request::decode(&bytes).unwrap();

    // flip one bit inside the key material of the critical keys field
    let mut tampered = bytes.clone();
    let last = tampered.len() - 1;
    tampered[last] ^= 0x01;
    let reparsed = provision::Request::decode(&tampered).unwrap();
    assert_ne!(baseline.digest, reparsed.digest);
    assert_ne!(baseline.root_keys, reparsed.root_keys);
}

#[test]
fn truncated_request_is_rejected() {
    let bytes = example_wire_request().to_vec();
    assert!(Request::decode(&bytes[..bytes.len() - 1]).is_err());
    assert!(Request::decode(&[]).is_err());
}
