use lockd::envelope::{decrypt_data, encrypt_data};
use lockd::errors::CoreError;
use lockd::keys::derive_encryption_key;

fn test_key() -> [u8; 32] {
    derive_encryption_key("alice", "correct horse battery staple").unwrap()
}

#[test]
fn round_trip_returns_original_plaintext() {
    let key = test_key();
    let plain = b"attack at dawn".to_vec();
    let envelope = encrypt_data(&key, &plain).unwrap();
    let recovered = decrypt_data(&key, &envelope).unwrap();
    assert_eq!(recovered, plain);
}

#[test]
fn round_trip_empty_plaintext() {
    let key = test_key();
    let envelope = encrypt_data(&key, &[]).unwrap();
    assert_eq!(envelope.len(), 28);
    let recovered = decrypt_data(&key, &envelope).unwrap();
    assert_eq!(recovered, Vec::<u8>::new());
}

#[test]
fn envelope_layout_is_nonce_then_ciphertext_and_tag() {
    let key = test_key();
    let plain = vec![7u8; 100];
    let envelope = encrypt_data(&key, &plain).unwrap();
    assert_eq!(envelope.len(), 12 + 100 + 16);
}

#[test]
fn flipping_any_bit_in_ciphertext_or_tag_fails_authentication() {
    let key = test_key();
    let plain = b"tamper with me".to_vec();
    let envelope = encrypt_data(&key, &plain).unwrap();
    for byte_index in 12..envelope.len() {
        for bit in 0..8 {
            let mut tampered = envelope.clone();
            tampered[byte_index] ^= 1u8 << bit;
            let result = decrypt_data(&key, &tampered);
            assert_eq!(result, Err(CoreError::AuthenticationFailed));
        }
    }
}

#[test]
fn two_encryptions_use_different_nonces() {
    let key = test_key();
    let plain = b"same plaintext".to_vec();
    let first = encrypt_data(&key, &plain).unwrap();
    let second = encrypt_data(&key, &plain).unwrap();
    assert_ne!(&first[..12], &second[..12]);
}

#[test]
fn wrong_key_fails_authentication() {
    let key = test_key();
    let other = derive_encryption_key("alice", "wrong password").unwrap();
    let envelope = encrypt_data(&key, b"secret").unwrap();
    assert_eq!(decrypt_data(&other, &envelope), Err(CoreError::AuthenticationFailed));
}

#[test]
fn short_envelopes_are_malformed_not_panicking() {
    let key = test_key();
    for len in 0..12 {
        let short = vec![0u8; len];
        assert_eq!(decrypt_data(&key, &short), Err(CoreError::MalformedEnvelope));
    }
    assert_eq!(
        CoreError::MalformedEnvelope.message(),
        "File is too short"
    );
}
