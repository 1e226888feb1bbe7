//! Tests for key derivation, nonce derivation, and AEAD seal/open,
//! including the round-trip and tamper-detection properties.

use onebox_core::crypto::{decrypt, decrypt_in_place, derive_key, encrypt, encrypt_in_place, generate_nonce};

#[test]
fn test_derive_key_length() {
    let psk = "my-secret-password";
    let key = derive_key(psk);
    assert_eq!(key.len(), 32);
}

#[test]
fn test_derive_key_is_deterministic() {
    let psk = "a-very-secure-password";
    let key1 = derive_key(psk);
    let key2 = derive_key(psk);
    assert_eq!(key1, key2);
}

#[test]
fn test_derive_key_is_different_for_different_psks() {
    let psk1 = "password-one";
    let psk2 = "password-two";
    let key1 = derive_key(psk1);
    let key2 = derive_key(psk2);
    assert_ne!(key1, key2);
}

#[test]
fn test_generate_nonce() {
    let seq_num = 1234567890;
    let nonce = generate_nonce(seq_num);
    // The first 4 bytes should be zero, the rest should be the sequence number
    let mut expected = [0u8; 12];
    expected[4..].copy_from_slice(&seq_num.to_be_bytes());
    assert_eq!(nonce, expected);
}

#[test]
fn test_encrypt_decrypt_roundtrip_success() {
    let psk = "roundtrip-psk";
    let key = derive_key(psk);
    let plaintext = b"hello onebox!";
    let sequence_number = 100;

    let ciphertext = encrypt(&key, plaintext, sequence_number).unwrap();
    let decrypted_plaintext = decrypt(&key, &ciphertext, sequence_number).unwrap();

    assert_eq!(plaintext.to_vec(), decrypted_plaintext);
}

#[test]
fn test_decrypt_tampered_ciphertext() {
    let psk = "tamper-test-psk";
    let key = derive_key(psk);
    let plaintext = b"this is a secret message";
    let sequence_number = 200;

    let mut ciphertext = encrypt(&key, plaintext, sequence_number).unwrap();

    // Flip a bit in the ciphertext
    let last_byte_index = ciphertext.len() - 1;
    ciphertext[last_byte_index] ^= 0x01;

    let result = decrypt(&key, &ciphertext, sequence_number);
    assert!(result.is_err());
    assert!(result.unwrap_err().message().contains("Decryption failed"));
}

#[test]
fn test_decrypt_wrong_key() {
    let psk1 = "correct-key";
    let psk2 = "wrong-key";
    let key1 = derive_key(psk1);
    let key2 = derive_key(psk2);
    let plaintext = b"message encrypted with key1";
    let sequence_number = 300;

    let ciphertext = encrypt(&key1, plaintext, sequence_number).unwrap();

    // Try to decrypt with the wrong key
    let result = decrypt(&key2, &ciphertext, sequence_number);
    assert!(result.is_err());
}

#[test]
fn test_decrypt_wrong_sequence_number() {
    let psk = "sequence-psk";
    let key = derive_key(psk);
    let plaintext = b"this depends on the sequence number";
    let sequence_number = 400;
    let wrong_sequence_number = 401;

    let ciphertext = encrypt(&key, plaintext, sequence_number).unwrap();

    // Try to decrypt with the wrong sequence number (which generates a different nonce)
    let result = decrypt(&key, &ciphertext, wrong_sequence_number);
    assert!(result.is_err());
}

#[test]
fn tampering_any_byte_fails_decryption() {
    let key = derive_key("tamper-everywhere-psk");
    let plaintext = b"link-bonding tunnel payload";
    let sealed = encrypt(&key, plaintext, 77).unwrap();
    for i in 0..sealed.len() {
        let mut copy = sealed.clone();
        copy[i] ^= 0x01;
        assert!(decrypt(&key, &copy, 77).is_err());
    }
}

#[test]
fn seal_length_is_plaintext_plus_tag() {
    let key = derive_key("length-psk");
    for len in [0usize, 1, 7, 1500] {
        let payload = vec![0xA5u8; len];
        let sealed = encrypt(&key, &payload, 5).unwrap();
        assert_eq!(sealed.len(), len + 16);
    }
}

#[test]
fn in_place_seal_open_round_trip() {
    let key = derive_key("in-place-psk");
    let payload = b"scratch buffer payload".to_vec();
    let mut buf = payload.clone();
    encrypt_in_place(&key, &mut buf, 9).unwrap();
    assert_eq!(buf.len(), payload.len() + 16);
    assert_ne!(&buf[..payload.len()], &payload[..]);
    let detached = encrypt(&key, &payload, 9).unwrap();
    assert_eq!(buf, detached);
    decrypt_in_place(&key, &mut buf, 9).unwrap();
    assert_eq!(buf, payload);
}

#[test]
fn in_place_open_failure_leaves_buffer() {
    let key = derive_key("in-place-fail-psk");
    let mut buf = b"sealed bytes that never were".to_vec();
    let before = buf.clone();
    assert!(decrypt_in_place(&key, &mut buf, 3).is_err());
    assert_eq!(buf, before);
}

#[test]
fn sealed_payload_hides_plaintext_pattern() {
    // Confidentiality at the datagram level: sealing a payload full of a
    // known pattern leaves no occurrence of the pattern in the datagram.
    let key = derive_key("confidentiality-psk");
    let pattern: [u8; 6] = [0xDE, 0xAD, 0xBE, 0xEF, 0xCA, 0xFE];
    let mut payload = Vec::new();
    for _ in 0..16 {
        payload.extend_from_slice(&pattern);
    }
    let datagram = onebox_core::wire::build_data(
        &key,
        21,
        onebox_core::packet::ClientId(1),
        &payload,
    );
    let found = datagram
        .windows(pattern.len())
        .any(|w| w == pattern);
    assert!(!found);
}
