//! The hexadecimal codec and the cipher, exercised on concrete values.

use steg::crypto::decrypt;
use steg::crypto::derive_key;
use steg::crypto::encrypt;
use steg::hexcode::hex_decode;
use steg::hexcode::hex_encode;

#[test]
fn hex_encode_known_values() {
    let bytes: Vec<u8> = vec![0x00, 0x1f, 0xab, 0xff];
    let encoded = hex_encode(&bytes);
    assert_eq!(encoded, b"001fabff".to_vec());
}

#[test]
fn hex_encode_empty() {
    let bytes: Vec<u8> = Vec::new();
    assert_eq!(hex_encode(&bytes), Vec::<u8>::new());
}

#[test]
fn hex_round_trip_all_byte_values() {
    let bytes: Vec<u8> = (0u8..=255).collect();
    let encoded = hex_encode(&bytes);
    assert_eq!(encoded.len(), 2 * bytes.len());
    for c in &encoded {
        assert!((b'0'..=b'9').contains(c) || (b'a'..=b'f').contains(c));
    }
    let decoded = hex_decode(&encoded).expect("encoding must decode");
    assert_eq!(decoded, bytes);
}

#[test]
fn hex_decode_accepts_uppercase() {
    let text: Vec<u8> = b"AB0F".to_vec();
    assert_eq!(hex_decode(&text).unwrap(), vec![0xab, 0x0f]);
}

#[test]
fn hex_decode_rejects_odd_length() {
    let text: Vec<u8> = b"abc".to_vec();
    assert!(hex_decode(&text).is_err());
}

#[test]
fn hex_decode_rejects_invalid_character() {
    let text: Vec<u8> = b"0g".to_vec();
    assert!(hex_decode(&text).is_err());
    let text: Vec<u8> = b"  ".to_vec();
    assert!(hex_decode(&text).is_err());
}

#[test]
fn hex_matches_the_usual_encoder() {
    let bytes: Vec<u8> = (0u8..=255).collect();
    assert_eq!(hex_encode(&bytes), hex::encode(&bytes).into_bytes());
    let text = hex::encode(&bytes).into_bytes();
    assert_eq!(hex_decode(&text).unwrap(), hex::decode(&text).unwrap());
}

#[test]
fn derive_key_is_deterministic() {
    let k1 = derive_key(b"correct horse battery staple");
    let k2 = derive_key(b"correct horse battery staple");
    assert_eq!(k1, k2);
    assert_eq!(k1.len(), 32);
}

#[test]
fn derive_key_differs_by_password() {
    let k1 = derive_key(b"pw");
    let k2 = derive_key(b"pw2");
    assert_ne!(k1, k2);
}

#[test]
fn derive_key_is_not_the_password() {
    let password: Vec<u8> = (0u8..32).collect();
    let key = derive_key(&password);
    assert_eq!(key.len(), 32);
    assert_ne!(key, password);
}

#[test]
fn derive_key_accepts_empty_password() {
    let key = derive_key(b"");
    assert_eq!(key.len(), 32);
}

#[test]
fn encrypt_is_deterministic() {
    let key = derive_key(b"pw");
    let c1 = encrypt(&key, b"the same message");
    let c2 = encrypt(&key, b"the same message");
    assert_eq!(c1, c2);
}

#[test]
fn encrypt_pads_to_block_size() {
    let key = derive_key(b"pw");
    assert_eq!(encrypt(&key, b"hi").len(), 16);
    assert_eq!(encrypt(&key, b"").len(), 16);
    assert_eq!(encrypt(&key, b"0123456789abcdef").len(), 32);
    assert_eq!(encrypt(&key, b"0123456789abcdef0").len(), 32);
}

#[test]
fn encrypt_decrypt_round_trip() {
    let key = derive_key(b"pw");
    let message = b"attack at dawn".to_vec();
    let ciphertext = encrypt(&key, &message);
    assert_ne!(ciphertext, message);
    assert_eq!(decrypt(&key, &ciphertext).unwrap(), message);
}

#[test]
fn decrypt_rejects_partial_block() {
    let key = derive_key(b"pw");
    assert!(decrypt(&key, &[1, 2, 3]).is_err());
}

#[test]
fn decrypt_rejects_wrong_key() {
    let ciphertext = encrypt(&derive_key(b"pw"), b"attack at dawn");
    assert!(decrypt(&derive_key(b"not pw"), &ciphertext).is_err());
}
