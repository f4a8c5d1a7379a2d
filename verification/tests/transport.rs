use chacha20poly1305::aead::{Aead, KeyInit};
use chacha20poly1305::{ChaCha20Poly1305, Key, Nonce};
use sov_vault::decrypt::{DecryptError, Decryptor, KeyError, NONCE_LEN};

#[test]
fn roundtrip_encrypted_chunk() {
    let key = [7u8; 32];
    let d = Decryptor::new(key);
    let plain = b"GET /api/orders/1 HTTP/1.1".to_vec();
    let mut payload = vec![1, 2, 3, 4, 5, 6, 7, 8, 9, 10, 11, 12];
    let cipher = ChaCha20Poly1305::new(Key::from_slice(&key));
    let ct = cipher.encrypt(Nonce::from_slice(&payload), plain.as_slice()).unwrap();
    payload.extend_from_slice(&ct);
    let out = d.decrypt_chunk_payload(&payload, plain.len() as u32).unwrap();
    assert_eq!(out, plain);
}

#[test]
fn reject_wrong_key_or_tamper() {
    let d = Decryptor::new([1u8; 32]);
    let plain = vec![9u8; 64];
    let mut payload = vec![0u8; NONCE_LEN];
    let cipher = ChaCha20Poly1305::new(Key::from_slice(&[1u8; 32]));
    let ct = cipher.encrypt(Nonce::from_slice(&payload), plain.as_slice()).unwrap();
    payload.extend_from_slice(&ct);

    let mut bad = payload.clone();
    bad[NONCE_LEN] ^= 0x01;
    assert!(d.decrypt_chunk_payload(&bad, 64).is_err());
    assert!(d.decrypt_chunk_payload(&payload, 128).is_err());
    let d2 = Decryptor::new([2u8; 32]);
    assert!(d2.decrypt_chunk_payload(&payload, 64).is_err());
}

#[test]
fn key_sources() {
    let hex_key = hex::encode([0xABu8; 32]);
    assert!(Decryptor::from_key_hex(&hex_key).is_ok());
    assert!(Decryptor::from_key_hex("abcd").is_err());
    assert!(Decryptor::from_key_bytes(&[0x11u8; 32]).is_ok());
    assert!(Decryptor::from_key_bytes(&[0x11u8; 16]).is_err());
}

#[test]
fn key_errors_are_told_apart() {
    assert_eq!(Decryptor::from_key_hex("abcd").err(), Some(KeyError::WrongLength(2)));
    assert_eq!(Decryptor::from_key_hex("abc").err(), Some(KeyError::NotHex));
    assert_eq!(Decryptor::from_key_hex("zz").err(), Some(KeyError::NotHex));
    assert_eq!(Decryptor::from_key_bytes(&[0u8; 33]).err(), Some(KeyError::WrongLength(33)));
}

#[test]
fn hex_key_decrypts_like_the_raw_key() {
    let mut key = [0u8; 32];
    for (i, b) in key.iter_mut().enumerate() {
        *b = (i * 8 + 1) as u8;
    }
    let text = format!("\t {}\n", hex::encode(key).to_uppercase());
    let d = Decryptor::from_key_hex(&text).unwrap();
    let mut payload = vec![3u8; NONCE_LEN];
    let cipher = ChaCha20Poly1305::new(Key::from_slice(&key));
    let ct = cipher.encrypt(Nonce::from_slice(&payload), b"plain".as_slice()).unwrap();
    payload.extend_from_slice(&ct);
    assert_eq!(d.decrypt_chunk_payload(&payload, 5).unwrap(), b"plain".to_vec());
}

#[test]
fn chunk_errors_are_told_apart() {
    let d = Decryptor::new([1u8; 32]);
    assert_eq!(d.decrypt_chunk_payload(&[0u8; 11], 0), Err(DecryptError::TooShort(11)));
    assert_eq!(d.decrypt_chunk_payload(&[0u8; 27], 0), Err(DecryptError::WrongLength { expected: 28, actual: 27 }));
    assert_eq!(d.decrypt_chunk_payload(&[0u8; 28], 0), Err(DecryptError::NotAuthentic));
}
