//! Round trips through the wire codec for every message type.

use armistice_core::schema::provision;
use armistice_core::schema::provision::RootKeys;
use armistice_core::schema::{PublicKey, Request, Response, Timestamp, Uuid};

fn key_ascending() -> [u8; 32] {
    [
        0, 1, 2, 3, 4, 5, 6, 7, 8, 9, 10, 11, 12, 13, 14, 15, 16, 17, 18, 19, 20, 21, 22, 23,
        24, 25, 26, 27, 28, 29, 30, 31,
    ]
}

fn key_descending() -> [u8; 32] {
    [
        31, 30, 29, 28, 27, 26, 25, 24, 23, 22, 21, 20, 19, 18, 17, 16, 15, 14, 13, 12, 11, 10,
        9, 8, 7, 6, 5, 4, 3, 2, 1, 0,
    ]
}

/// Get an example timestamp
fn example_timestamp() -> Timestamp {
    Timestamp::from_slice(&[64, 0, 0, 0, 94, 198, 207, 194, 32, 254, 206, 208]).unwrap()
}

/// Create an example `provision::Request`
fn example_request() -> provision::Request {
    let mut root_keys = RootKeys::new();
    root_keys.push(PublicKey::Ed25519(key_ascending())).unwrap();
    root_keys.push(PublicKey::Ed25519(key_descending())).unwrap();

    let expected_digest = [
        236, 118, 166, 195, 254, 254, 14, 129, 47, 221, 149, 74, 105, 7, 245, 218, 41, 180,
        234, 75, 49, 45, 203, 51, 255, 221, 156, 155, 167, 112, 109, 245,
    ];

    provision::Request {
        root_key_threshold: 1,
        root_keys,
        timestamp: Some(example_timestamp()),
        digest: Some(expected_digest),
    }
}

/// Create an example `provision::Response`
fn example_response() -> provision::Response {
    let uuid = Uuid::parse_str("88888888-4444-4444-4444-121212121212").unwrap();
    provision::Response { uuid }
}

#[test]
fn request_round_trip() {
    let request = example_request();

    let mut buffer: Vec<u8> = vec![0u8; 128];
    request.encode(&mut buffer).unwrap();
    buffer.truncate(request.encoded_len());

    assert_eq!(request, provision::Request::decode(&buffer).unwrap());
}

#[test]
fn response_round_trip() {
    let response = example_response();

    let mut buffer: Vec<u8> = vec![0u8; 128];
    response.encode(&mut buffer).unwrap();
    buffer.truncate(response.encoded_len());

    assert_eq!(response, provision::Response::decode(&buffer).unwrap());
}

#[test]
fn encoding_round_trip_new() {
    let public_key = PublicKey::Ed25519(key_ascending());

    let mut buffer: Vec<u8> = vec![0u8; 64];
    public_key.encode(&mut buffer).unwrap();
    buffer.truncate(public_key.encoded_len());

    assert_eq!(public_key, PublicKey::decode(&buffer).unwrap());
}

#[test]
fn request_encoding_round_trip() {
    let request = Request::Provision(example_request());

    let mut buffer: Vec<u8> = vec![0u8; 128];
    request.encode(&mut buffer).unwrap();
    buffer.truncate(request.encoded_len());

    assert_eq!(request, Request::decode(&buffer).unwrap());
}

#[test]
fn response_encoding_round_trip() {
    let response = Response::Provision(example_response());

    let mut buffer: Vec<u8> = vec![0u8; 128];
    response.encode(&mut buffer).unwrap();
    buffer.truncate(response.encoded_len());

    assert_eq!(response, Response::decode(&buffer).unwrap());
}

#[test]
fn request_round_trip_without_timestamp() {
    let mut root_keys = RootKeys::new();
    root_keys.push(PublicKey::Ed25519(key_ascending())).unwrap();
    let request = provision::Request {
        root_key_threshold: 3,
        root_keys,
        timestamp: None,
        digest: None,
    };

    let bytes = request.to_vec();
    let decoded = provision::Request::decode(&bytes).unwrap();
    assert_eq!(decoded.root_key_threshold, 3);
    assert_eq!(decoded.root_keys, request.root_keys);
    assert_eq!(decoded.timestamp, None);
    assert!(decoded.digest.is_some());
}

#[test]
fn request_round_trip_largest_threshold() {
    let mut root_keys = RootKeys::new();
    root_keys.push(PublicKey::Ed25519(key_descending())).unwrap();
    let request = provision::Request {
        root_key_threshold: u64::MAX,
        root_keys,
        timestamp: Some(example_timestamp()),
        digest: None,
    };

    let bytes = request.to_vec();
    let decoded = provision::Request::decode(&bytes).unwrap();
    assert_eq!(decoded.root_key_threshold, u64::MAX);
    assert_eq!(decoded.root_keys, request.root_keys);
    assert_eq!(decoded.timestamp, request.timestamp);
}

#[test]
fn encode_fails_into_short_buffer() {
    let public_key = PublicKey::Ed25519(key_ascending());
    let mut buffer: Vec<u8> = vec![0u8; 16];
    assert!(public_key.encode(&mut buffer).is_err());
}

#[test]
fn timestamp_round_trip() {
    let ts = example_timestamp();
    assert_eq!(ts, Timestamp::decode(&ts.to_vec()).unwrap());
}

#[test]
fn timestamp_from_slice_rejects_wrong_length() {
    assert!(Timestamp::from_slice(&[1, 2, 3]).is_err());
    assert!(Timestamp::from_slice(&[0u8; 13]).is_err());
}

#[test]
fn uuid_parse_rejects_wrong_length_and_non_ascii() {
    assert!(Uuid::parse_str("too-short").is_err());
    assert!(Uuid::parse_str("aaaaaaaaaaaaaaaaaaaaaaaaaaaaaaaaaa\u{e9}").is_err());
    assert!(Uuid::parse_str("88888888-4444-4444-4444-121212121212").is_ok());
}
