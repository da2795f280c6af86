use cryptit::crypto::{
    decrypt_data, encrypt_data, seal_with_nonce, wipe_bytes, CryptoError, EncryptedData,
    EncryptionKey,
};

fn hex(text: &str) -> Vec<u8> {
    (0..text.len() / 2).map(|i| u8::from_str_radix(&text[2 * i..2 * i + 2], 16).unwrap()).collect()
}

#[test]
fn test_encrypt_decrypt() {
    let key = EncryptionKey::generate();
    let data = b"Hello, world!";

    let encrypted = encrypt_data(data, &key).unwrap();
    let decrypted = decrypt_data(&encrypted, &key).unwrap();

    assert_eq!(data, decrypted.as_slice());
}

#[test]
fn key_from_bytes_and_back() {
    let bytes: Vec<u8> = (0..32u8).collect();
    let key = EncryptionKey::from_bytes(&bytes).ok().unwrap();
    assert_eq!(key.as_bytes(), bytes.as_slice());
}

#[test]
fn key_of_wrong_length_is_refused() {
    assert!(matches!(EncryptionKey::from_bytes(&[0u8; 31]), Err(CryptoError::InvalidKeyLength)));
    assert!(matches!(EncryptionKey::from_bytes(&[0u8; 33]), Err(CryptoError::InvalidKeyLength)));
    assert!(matches!(EncryptionKey::from_bytes(&[]), Err(CryptoError::InvalidKeyLength)));
    assert!(EncryptionKey::from_bytes(&[0u8; 32]).is_ok());
}

#[test]
fn generated_keys_differ() {
    let a = EncryptionKey::generate();
    let b = EncryptionKey::generate();
    assert_eq!(a.as_bytes().len(), 32);
    assert_ne!(a.as_bytes(), b.as_bytes());
}

#[test]
fn sealing_known_answers() {
    let key = EncryptionKey::from_bytes(&[0u8; 32]).ok().unwrap();
    let empty = seal_with_nonce(&[], &key, [0u8; 12]).ok().unwrap();
    assert_eq!(empty.nonce, [0u8; 12]);
    assert_eq!(empty.ciphertext, hex("530f8afbc74536b9a963b4f1c4cb738b"));
    let block = seal_with_nonce(&[0u8; 16], &key, [0u8; 12]).ok().unwrap();
    assert_eq!(
        block.ciphertext,
        hex("cea7403d4d606b6e074ec5d3baf39d18d0d1c8a799996bf0265b98b5d48ab919")
    );
    assert_eq!(decrypt_data(&block, &key), Ok(vec![0u8; 16]));
    assert_eq!(decrypt_data(&empty, &key), Ok(Vec::new()));
}

#[test]
fn sealed_payload_is_sixteen_bytes_longer() {
    let key = EncryptionKey::generate();
    for len in [0usize, 1, 15, 16, 17, 1000] {
        let data = vec![7u8; len];
        let sealed = encrypt_data(&data, &key).ok().unwrap();
        assert_eq!(sealed.ciphertext.len(), len + 16);
        if len >= 16 {
            assert_ne!(&sealed.ciphertext[..len], data.as_slice());
        }
    }
}

#[test]
fn fresh_nonce_for_each_call() {
    let key = EncryptionKey::generate();
    let a = encrypt_data(b"same", &key).ok().unwrap();
    let b = encrypt_data(b"same", &key).ok().unwrap();
    assert_ne!(a.nonce, b.nonce);
    assert_ne!(a.ciphertext, b.ciphertext);
}

#[test]
fn wrong_key_does_not_open() {
    let key = EncryptionKey::from_bytes(&[1u8; 32]).ok().unwrap();
    let other = EncryptionKey::from_bytes(&[2u8; 32]).ok().unwrap();
    let sealed = encrypt_data(b"payload", &key).ok().unwrap();
    assert_eq!(decrypt_data(&sealed, &other), Err(CryptoError::DecryptionFailed));
    assert_eq!(decrypt_data(&sealed, &key), Ok(b"payload".to_vec()));
}

#[test]
fn changed_payload_does_not_open() {
    let key = EncryptionKey::from_bytes(&[3u8; 32]).ok().unwrap();
    let sealed = encrypt_data(b"payload", &key).ok().unwrap();
    for i in 0..sealed.ciphertext.len() {
        let mut ciphertext = sealed.ciphertext.clone();
        ciphertext[i] ^= 0x01;
        let changed = EncryptedData { nonce: sealed.nonce, ciphertext };
        assert_eq!(decrypt_data(&changed, &key), Err(CryptoError::DecryptionFailed));
    }
    let mut nonce = sealed.nonce;
    nonce[0] ^= 0x80;
    let changed = EncryptedData { nonce, ciphertext: sealed.ciphertext.clone() };
    assert_eq!(decrypt_data(&changed, &key), Err(CryptoError::DecryptionFailed));
    let short = EncryptedData { nonce: sealed.nonce, ciphertext: vec![0u8; 15] };
    assert_eq!(decrypt_data(&short, &key), Err(CryptoError::DecryptionFailed));
}

#[test]
fn cipher_error_texts() {
    assert_eq!(CryptoError::EncryptionFailed.message(), "Encryption failed");
    assert_eq!(CryptoError::DecryptionFailed.message(), "Decryption failed");
    assert_eq!(CryptoError::InvalidKeyLength.message(), "Invalid key length");
}

#[test]
fn wiped_key_is_all_zero() {
    let mut key = EncryptionKey::from_bytes(&[0x5Au8; 32]).ok().unwrap();
    key.wipe();
    assert_eq!(key.as_bytes(), &[0u8; 32][..]);
}

#[test]
fn wiped_bytes_are_gone() {
    let mut bytes = vec![1u8, 2, 3, 4];
    wipe_bytes(&mut bytes);
    assert!(bytes.is_empty());
    let mut none: Vec<u8> = Vec::new();
    wipe_bytes(&mut none);
    assert!(none.is_empty());
}
