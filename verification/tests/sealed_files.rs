use cryptit::crypto::{EncryptedData, EncryptionKey};
use cryptit::envelope::{
    assemble_container, container_file_name, decrypt, encrypt, encrypt_with_key,
    from_cipher_error, from_sharing_error, has_suffix, opened_file_name, parse_container,
    EnvelopeError,
};
use cryptit::sss::{reconstruct_secret, split_secret, SSSError};

#[test]
fn envelope_round_trip() {
    let payload = b"the quick brown fox".to_vec();
    let (container, tokens) = encrypt(&payload, 3, 5).unwrap();
    assert_eq!(container.len(), 12 + payload.len() + 16);
    assert_eq!(tokens.len(), 5);
    assert_eq!(decrypt(&container, &tokens[0..3]), Ok(payload.clone()));
    assert_eq!(decrypt(&container, &tokens[2..5]), Ok(payload.clone()));
    assert_eq!(decrypt(&container, &tokens), Ok(payload.clone()));
    let mixed = vec![tokens[4].clone(), tokens[0].clone(), tokens[2].clone()];
    assert_eq!(decrypt(&container, &mixed), Ok(payload));
}

#[test]
fn empty_payload_round_trip() {
    let (container, tokens) = encrypt(&[], 1, 1).unwrap();
    assert_eq!(container.len(), 28);
    assert_eq!(decrypt(&container, &tokens), Ok(Vec::new()));
}

#[test]
fn envelope_with_given_key() {
    let key = EncryptionKey::from_bytes(&[9u8; 32]).ok().unwrap();
    let (container, tokens) = encrypt_with_key(b"data", &key, 2, 2).unwrap();
    assert_eq!(reconstruct_secret(&tokens), Ok(vec![9u8; 32]));
    assert_eq!(decrypt(&container, &tokens), Ok(b"data".to_vec()));
}

#[test]
fn each_envelope_has_its_own_key_and_nonce() {
    let (a, ta) = encrypt(b"same", 1, 1).unwrap();
    let (b, tb) = encrypt(b"same", 1, 1).unwrap();
    assert_ne!(a[..12], b[..12]);
    assert_ne!(reconstruct_secret(&ta), reconstruct_secret(&tb));
    assert_eq!(decrypt(&a, &tb), Err(EnvelopeError::AuthenticationFailed));
}

#[test]
fn any_flipped_bit_fails_authentication() {
    let payload = b"tamper with me".to_vec();
    let (container, tokens) = encrypt(&payload, 2, 3).unwrap();
    for i in 12..container.len() {
        for bit in 0..8 {
            let mut changed = container.clone();
            changed[i] ^= 1 << bit;
            assert_eq!(decrypt(&changed, &tokens), Err(EnvelopeError::AuthenticationFailed));
        }
    }
    for i in 0..12 {
        let mut changed = container.clone();
        changed[i] ^= 0x10;
        assert_eq!(decrypt(&changed, &tokens), Err(EnvelopeError::AuthenticationFailed));
    }
}

#[test]
fn too_few_tokens_fail_authentication() {
    let (container, tokens) = encrypt(b"needs three", 3, 5).unwrap();
    assert_eq!(decrypt(&container, &tokens[0..2]), Err(EnvelopeError::AuthenticationFailed));
    assert_eq!(decrypt(&container, &tokens[4..5]), Err(EnvelopeError::AuthenticationFailed));
}

#[test]
fn short_container_is_refused() {
    let (container, tokens) = encrypt(b"x", 1, 2).unwrap();
    for len in 0..12 {
        assert_eq!(decrypt(&container[..len], &tokens), Err(EnvelopeError::InvalidContainerFormat));
    }
    // Twelve bytes are a nonce with nothing sealed: no tag to verify.
    assert_eq!(decrypt(&container[..12], &tokens), Err(EnvelopeError::AuthenticationFailed));
    // The container is looked at before the tokens are.
    let none: Vec<String> = Vec::new();
    assert_eq!(decrypt(&container[..5], &none), Err(EnvelopeError::InvalidContainerFormat));
}

#[test]
fn envelope_token_errors() {
    let (container, tokens) = encrypt(b"x", 2, 2).unwrap();
    let none: Vec<String> = Vec::new();
    assert_eq!(decrypt(&container, &none), Err(EnvelopeError::InsufficientShares));
    let bad = vec![tokens[0].clone(), "***".to_string()];
    assert_eq!(decrypt(&container, &bad), Err(EnvelopeError::InvalidShareFormat));
    let twice = vec![tokens[0].clone(), tokens[0].clone()];
    assert_eq!(decrypt(&container, &twice), Err(EnvelopeError::InvalidShareFormat));
    let short_key = split_secret(b"short", 1, 1).unwrap();
    assert_eq!(decrypt(&container, &short_key), Err(EnvelopeError::InvalidKeyLength));
}

#[test]
fn envelope_bad_thresholds() {
    assert_eq!(encrypt(b"x", 0, 3), Err(EnvelopeError::InvalidThreshold));
    assert_eq!(encrypt(b"x", 3, 0), Err(EnvelopeError::InvalidThreshold));
    assert_eq!(encrypt(b"x", 4, 3), Err(EnvelopeError::InvalidThreshold));
    assert!(encrypt(b"x", 255, 255).is_ok());
}

#[test]
fn container_layout() {
    let sealed = EncryptedData { nonce: [7u8; 12], ciphertext: vec![1, 2, 3] };
    let container = assemble_container(&sealed);
    assert_eq!(container, vec![7, 7, 7, 7, 7, 7, 7, 7, 7, 7, 7, 7, 1, 2, 3]);
    let parsed = parse_container(&container).ok().unwrap();
    assert_eq!(parsed.nonce, [7u8; 12]);
    assert_eq!(parsed.ciphertext, vec![1, 2, 3]);
    let bare = parse_container(&[5u8; 12]).ok().unwrap();
    assert_eq!(bare.nonce, [5u8; 12]);
    assert!(bare.ciphertext.is_empty());
    assert!(matches!(parse_container(&[5u8; 11]), Err(EnvelopeError::InvalidContainerFormat)));
}

#[test]
fn envelope_error_mapping() {
    assert_eq!(from_sharing_error(SSSError::InvalidThreshold), EnvelopeError::InvalidThreshold);
    assert_eq!(
        from_sharing_error(SSSError::ShareGenerationFailed),
        EnvelopeError::ShareGenerationFailed
    );
    assert_eq!(
        from_sharing_error(SSSError::ReconstructionFailed),
        EnvelopeError::ReconstructionFailed
    );
    assert_eq!(from_sharing_error(SSSError::InvalidShareFormat), EnvelopeError::InvalidShareFormat);
    assert_eq!(from_sharing_error(SSSError::InsufficientShares), EnvelopeError::InsufficientShares);
    assert_eq!(
        from_cipher_error(cryptit::crypto::CryptoError::DecryptionFailed),
        EnvelopeError::AuthenticationFailed
    );
    assert_eq!(
        from_cipher_error(cryptit::crypto::CryptoError::EncryptionFailed),
        EnvelopeError::EncryptionFailed
    );
    assert_eq!(
        from_cipher_error(cryptit::crypto::CryptoError::InvalidKeyLength),
        EnvelopeError::InvalidKeyLength
    );
    assert_eq!(EnvelopeError::InvalidContainerFormat.message(), "Invalid encrypted file format");
    assert_eq!(EnvelopeError::AuthenticationFailed.message(), "Decryption failed");
    assert_eq!(EnvelopeError::InsufficientShares.message(), "Insufficient shares provided");
}

#[test]
fn file_names() {
    assert_eq!(container_file_name(Some("report")), "report.cryptit");
    assert_eq!(container_file_name(Some("")), ".cryptit");
    assert_eq!(container_file_name(None), "encrypted.cryptit");
    assert_eq!(opened_file_name(Some("report")), "report_decrypted.txt");
    assert_eq!(opened_file_name(Some("report.cryptit")), "report_decrypted.txt");
    assert_eq!(opened_file_name(Some("a.cryptit.cryptit")), "a.cryptit_decrypted.txt");
    assert_eq!(opened_file_name(Some(".cryptit")), "_decrypted.txt");
    assert_eq!(opened_file_name(Some("cryptit")), "cryptit_decrypted.txt");
    assert_eq!(opened_file_name(Some("h\u{e9}llo.cryptit")), "h\u{e9}llo_decrypted.txt");
    assert_eq!(opened_file_name(None), "decrypted_decrypted.txt");
    assert!(has_suffix("x.cryptit", ".cryptit"));
    assert!(has_suffix("x", ""));
    assert!(!has_suffix("x.cryptit ", ".cryptit"));
    assert!(!has_suffix("it", ".cryptit"));
}
