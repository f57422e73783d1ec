use pltz::encrypt::{decrypt_structured, encrypt_structured, stream_cipher, EncryptError};
use pltz::pattern::FloatTable;

#[test]
fn test_encrypt_decrypt_roundtrip() {
    let key = [0x42u8; 32];
    let nonce = [0x01u8; 12];
    let table = FloatTable::new();
    let data: Vec<u8> = (0..=255u8).cycle().take(1024).collect();
    let encrypted = encrypt_structured(&data, &key, &nonce, &table);
    let decrypted = decrypt_structured(&encrypted, &key, &table).unwrap();
    assert_eq!(data, decrypted);
    assert!(encrypted.len() < data.len(), "Encrypted {} should be < raw {}", encrypted.len(), data.len());
}

#[test]
fn test_encrypt_decrypt_mixed() {
    let key = [0xAB; 32];
    let nonce = [0xCD; 12];
    let table = FloatTable::new();
    let mut data = vec![0xFFu8; 512];
    data.extend(vec![0x42; 256]);
    data.extend((0..256u16).map(|i| i as u8));
    let encrypted = encrypt_structured(&data, &key, &nonce, &table);
    let decrypted = decrypt_structured(&encrypted, &key, &table).unwrap();
    assert_eq!(data, decrypted);
}

#[test]
fn test_encrypted_is_compact() {
    let key = [0x13; 32];
    let nonce = [0x37; 12];
    let data: Vec<u8> = (0..=255u8).cycle().take(4096).collect();
    let encrypted = encrypt_structured(&data, &key, &nonce, &FloatTable::new());
    println!("4KB linear: encrypted to {} bytes (raw=4096, ratio={:.2})", encrypted.len(), encrypted.len() as f64 / 4096.0);
    assert!(encrypted.len() < 500, "Encrypted linear ramp should be <500B, got {}", encrypted.len());
}

#[test]
fn cipher_twice_gives_data_back() {
    let key = [9u8; 32];
    let nonce = [3u8; 12];
    let data: Vec<u8> = (0..100u8).collect();
    let once = stream_cipher(&data, &key, &nonce, 5);
    assert_ne!(once, data);
    assert_eq!(stream_cipher(&once, &key, &nonce, 5), data);
    assert_ne!(stream_cipher(&data, &key, &nonce, 6), once);
}

#[test]
fn decrypt_refuses_bad_input() {
    let key = [0u8; 32];
    let table = FloatTable::new();
    assert_eq!(decrypt_structured(&[0u8; 10], &key, &table), Err(EncryptError::TooShort));
    assert_eq!(decrypt_structured(&[0u8; 30], &key, &table), Err(EncryptError::BadMagic));
}

#[test]
fn wrong_key_does_not_give_data_back() {
    let data: Vec<u8> = (0..64u8).map(|i| i.wrapping_mul(37)).collect();
    let table = FloatTable::new();
    let encrypted = encrypt_structured(&data, &[1u8; 32], &[2u8; 12], &table);
    let other = decrypt_structured(&encrypted, &[7u8; 32], &table);
    assert_ne!(other, Ok(data));
}

#[test]
fn bit_packed_tracks_decrypt_to_the_data() {
    let key = [0x42u8; 32];
    let nonce = [0x01u8; 12];
    let table = FloatTable::new();
    let data = vec![1u8, 2, 3, 0, 2, 1, 3, 0, 1, 3, 2, 0, 3, 1, 2, 0];
    let e = encrypt_structured(&data, &key, &nonce, &table);
    assert_eq!(decrypt_structured(&e, &key, &table), Ok(data));
}

#[test]
fn empty_data_decrypts_to_empty() {
    let key = [0x42u8; 32];
    let nonce = [0x01u8; 12];
    let table = FloatTable::new();
    let e = encrypt_structured(&[], &key, &nonce, &table);
    assert_eq!(e.len(), 24);
    assert_eq!(&e[0..4], b"PLTE");
    assert_eq!(decrypt_structured(&e, &key, &table), Ok(Vec::new()));
}

#[test]
fn mixed_patterns_decrypt_to_the_data() {
    let key = [0x11u8; 32];
    let nonce = [0x22u8; 12];
    let table = FloatTable::new();
    let mut data: Vec<u8> = Vec::new();
    let mut s = 7u32;
    for i in 0..3000u32 {
        s = s.wrapping_mul(1103515245).wrapping_add(12345);
        data.push(match i % 3 { 0 => (s >> 16) as u8, 1 => (i % 4) as u8, _ => 0 });
    }
    let e = encrypt_structured(&data, &key, &nonce, &table);
    assert_eq!(decrypt_structured(&e, &key, &table), Ok(data));
}
