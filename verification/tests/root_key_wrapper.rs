//! The root key wrapper: sealing and opening the root authority's at-rest
//! bytes under the device-unique secret.

use armistice_core::crypto::RootKey;
use armistice_core::error::Error;

#[test]
fn seal_then_open_returns_the_plaintext() {
    let key = RootKey::new([7u8; 32]);
    let nonce = [1u8; 12];
    let plaintext = b"root authority at rest".to_vec();

    let sealed = key.seal(&nonce, &plaintext).unwrap();
    assert_eq!(sealed.len(), plaintext.len() + 16);
    assert_ne!(&sealed[..plaintext.len()], plaintext.as_slice());

    let opened = key.open(&nonce, &sealed).unwrap();
    assert_eq!(opened, plaintext);
}

#[test]
fn tampered_ciphertext_fails_to_open() {
    let key = RootKey::new([7u8; 32]);
    let nonce = [1u8; 12];
    let plaintext = b"root authority at rest".to_vec();

    let mut sealed = key.seal(&nonce, &plaintext).unwrap();
    sealed[0] ^= 0x80;
    assert_eq!(key.open(&nonce, &sealed), Err(Error::Crypto));
}

#[test]
fn wrong_key_fails_to_open() {
    let key = RootKey::new([7u8; 32]);
    let other = RootKey::new([8u8; 32]);
    let nonce = [1u8; 12];
    let plaintext = b"root authority at rest".to_vec();

    let sealed = key.seal(&nonce, &plaintext).unwrap();
    assert_eq!(other.open(&nonce, &sealed), Err(Error::Crypto));
}

#[test]
fn sealing_is_deterministic_in_key_nonce_and_plaintext() {
    let key = RootKey::new([7u8; 32]);
    let nonce = [2u8; 12];
    let plaintext = b"same bytes in".to_vec();

    let a = key.seal(&nonce, &plaintext).unwrap();
    let b = key.seal(&nonce, &plaintext).unwrap();
    assert_eq!(a, b);
}
