use cryptit::sss::{
    decode_share, encode_share, reconstruct, reconstruct_secret, split, split_secret, SSSError,
    Share,
};

fn share(index: u8, values: &[u8]) -> Share {
    Share { index, values: values.to_vec() }
}

#[test]
fn test_split_reconstruct() {
    let secret = b"this is a secret message";
    let k = 2;
    let n = 3;

    let shares = split_secret(secret, k, n).unwrap();
    assert_eq!(shares.len(), n as usize);

    // Test with minimum shares
    let reconstructed = reconstruct_secret(&shares[0..k as usize]).unwrap();
    assert_eq!(secret, reconstructed.as_slice());

    // Test with all shares
    let reconstructed = reconstruct_secret(&shares).unwrap();
    assert_eq!(secret, reconstructed.as_slice());
}

#[test]
fn test_insufficient_shares() {
    let secret = b"secret";
    let shares = split_secret(secret, 3, 5).unwrap();

    // One share where three are required: the interpolation still gives a
    // result, and that result is not the secret.
    let result = reconstruct_secret(&shares[0..1]);
    let bytes = result.unwrap();
    assert_eq!(bytes.len(), secret.len());
    assert_ne!(bytes.as_slice(), secret);
}

#[test]
fn any_k_shares_recover_the_secret() {
    let secret: Vec<u8> = (0..=255u8).collect();
    let shares = split(&secret, 3, 6).unwrap();
    for a in 0..6 {
        for b in (a + 1)..6 {
            for c in (b + 1)..6 {
                let chosen = vec![shares[a].clone(), shares[b].clone(), shares[c].clone()];
                assert_eq!(reconstruct(&chosen), Ok(secret.clone()));
            }
        }
    }
}

#[test]
fn more_than_k_shares_recover_the_secret() {
    let secret = b"over-supplied".to_vec();
    let shares = split(&secret, 2, 7).unwrap();
    assert_eq!(reconstruct(&shares), Ok(secret.clone()));
    assert_eq!(reconstruct(&shares[1..5]), Ok(secret));
}

#[test]
fn largest_split_recovers_the_secret() {
    let secret = vec![0xA5u8, 0x00, 0xFF];
    let shares = split(&secret, 255, 255).unwrap();
    assert_eq!(shares.len(), 255);
    for (i, s) in shares.iter().enumerate() {
        assert_eq!(s.index as usize, i + 1);
        assert_eq!(s.values.len(), 3);
    }
    assert_eq!(reconstruct(&shares), Ok(secret));
}

#[test]
fn order_of_shares_does_not_matter() {
    let secret = b"order".to_vec();
    let shares = split(&secret, 3, 5).unwrap();
    let forward = vec![shares[0].clone(), shares[2].clone(), shares[4].clone()];
    let backward = vec![shares[4].clone(), shares[2].clone(), shares[0].clone()];
    let mixed = vec![shares[2].clone(), shares[4].clone(), shares[0].clone()];
    assert_eq!(reconstruct(&forward), Ok(secret.clone()));
    assert_eq!(reconstruct(&backward), Ok(secret.clone()));
    assert_eq!(reconstruct(&mixed), Ok(secret));

    // Also where the result is not a secret: two shares of three needed.
    let two = vec![shares[1].clone(), shares[3].clone()];
    let swapped = vec![shares[3].clone(), shares[1].clone()];
    assert_eq!(reconstruct(&two), reconstruct(&swapped));
}

#[test]
fn order_of_tokens_does_not_matter() {
    let secret = b"token order".to_vec();
    let tokens = split_secret(&secret, 2, 4).unwrap();
    let a = vec![tokens[3].clone(), tokens[0].clone()];
    let b = vec![tokens[0].clone(), tokens[3].clone()];
    assert_eq!(reconstruct_secret(&a), Ok(secret.clone()));
    assert_eq!(reconstruct_secret(&b), Ok(secret));
}

#[test]
fn too_few_shares_give_another_result() {
    let secret = [0x11u8; 32];
    for _ in 0..50 {
        let shares = split(&secret, 3, 5).unwrap();
        let result = reconstruct(&shares[0..2]).unwrap();
        assert_eq!(result.len(), 32);
        assert_ne!(result.as_slice(), &secret[..]);
    }
}

#[test]
fn threshold_one_shares_hold_the_secret() {
    let secret = b"plain".to_vec();
    let shares = split(&secret, 1, 9).unwrap();
    assert_eq!(shares.len(), 9);
    for (i, s) in shares.iter().enumerate() {
        assert_eq!(s.index as usize, i + 1);
        assert_eq!(s.values, secret);
        assert_eq!(reconstruct(&[s.clone()]), Ok(secret.clone()));
    }
}

#[test]
fn zero_key_two_of_three() {
    let secret = [0u8; 32];
    let tokens = split_secret(&secret, 2, 3).unwrap();
    assert_eq!(tokens.len(), 3);
    let mut seen = Vec::new();
    for t in tokens.iter() {
        let s = decode_share(t).unwrap();
        assert!(s.index == 1 || s.index == 2 || s.index == 3);
        assert!(!seen.contains(&s.index));
        seen.push(s.index);
        assert_eq!(s.values.len(), 32);
    }
    let first = tokens.iter().find(|t| decode_share(t).unwrap().index == 1).unwrap().clone();
    let third = tokens.iter().find(|t| decode_share(t).unwrap().index == 3).unwrap().clone();
    assert_eq!(reconstruct_secret(&[first, third]), Ok(vec![0u8; 32]));
}

#[test]
fn bad_thresholds_are_refused() {
    let secret = b"s";
    assert_eq!(split_secret(secret, 0, 3), Err(SSSError::InvalidThreshold));
    assert_eq!(split_secret(secret, 1, 0), Err(SSSError::InvalidThreshold));
    assert_eq!(split_secret(secret, 0, 0), Err(SSSError::InvalidThreshold));
    assert_eq!(split_secret(secret, 4, 3), Err(SSSError::InvalidThreshold));
    assert_eq!(split_secret(secret, 255, 254), Err(SSSError::InvalidThreshold));
    for k in 0..=255u8 {
        for n in [0u8, 1, 2, 100, 255] {
            let out = split(secret, k, n);
            if k == 0 || n == 0 || k > n {
                assert_eq!(out, Err(SSSError::InvalidThreshold));
            } else {
                assert_eq!(out.unwrap().len(), n as usize);
            }
        }
    }
}

#[test]
fn empty_secret_is_refused() {
    assert_eq!(split_secret(b"", 2, 3), Err(SSSError::InvalidThreshold));
    assert_eq!(split(b"", 1, 1), Err(SSSError::InvalidThreshold));
}

#[test]
fn no_shares_are_insufficient() {
    let none: Vec<String> = Vec::new();
    assert_eq!(reconstruct_secret(&none), Err(SSSError::InsufficientShares));
    let none: Vec<Share> = Vec::new();
    assert_eq!(reconstruct(&none), Err(SSSError::InsufficientShares));
}

#[test]
fn malformed_tokens_are_refused() {
    let good = split_secret(b"abc", 2, 2).unwrap();
    let bad = vec![good[0].clone(), "not base64!".to_string()];
    assert_eq!(reconstruct_secret(&bad), Err(SSSError::InvalidShareFormat));
    let empty = vec![good[0].clone(), String::new()];
    assert_eq!(reconstruct_secret(&empty), Err(SSSError::InvalidShareFormat));
    assert_eq!(decode_share(""), Err(SSSError::InvalidShareFormat));
    assert_eq!(decode_share("AQI"), Err(SSSError::InvalidShareFormat));
    assert_eq!(decode_share("A"), Err(SSSError::InvalidShareFormat));
}

#[test]
fn unequal_lengths_are_refused() {
    let shares = vec![share(1, &[1, 2, 3]), share(2, &[4, 5])];
    assert_eq!(reconstruct(&shares), Err(SSSError::InvalidShareFormat));
}

#[test]
fn repeated_index_is_refused() {
    let shares = vec![share(7, &[1, 2]), share(8, &[3, 4]), share(7, &[5, 6])];
    assert_eq!(reconstruct(&shares), Err(SSSError::InvalidShareFormat));
    let same = vec![share(7, &[1, 2]), share(7, &[1, 2])];
    assert_eq!(reconstruct(&same), Err(SSSError::InvalidShareFormat));
}

#[test]
fn shares_without_values_give_an_empty_secret() {
    let shares = vec![share(1, &[]), share(2, &[])];
    assert_eq!(reconstruct(&shares), Ok(Vec::new()));
    assert_eq!(decode_share("AQ=="), Ok(share(1, &[])));
}

#[test]
fn share_text_form() {
    let s = share(1, &[2, 3]);
    assert_eq!(s.to_bytes(), vec![1, 2, 3]);
    assert_eq!(encode_share(&s), "AQID");
    assert_eq!(decode_share("AQID"), Ok(share(1, &[2, 3])));
    assert_eq!(Share::from_bytes(&[9]), Ok(share(9, &[])));
    assert_eq!(Share::from_bytes(&[]), Err(SSSError::InvalidShareFormat));
    let zero = share(5, &[0u8; 32]);
    assert_eq!(encode_share(&zero), "BQAAAAAAAAAAAAAAAAAAAAAAAAAAAAAAAAAAAAAAAAAA");
    assert_eq!(decode_share(&encode_share(&zero)), Ok(zero));
}

#[test]
fn interpolation_of_a_line() {
    // f(x) = 0x53 + 0xCA * x in the field with polynomial 0x11D.
    let one = share(1, &[0x99]);
    let two = share(2, &[0xDA]);
    let three = share(3, &[0x10]);
    assert_eq!(reconstruct(&[one.clone(), two.clone()]), Ok(vec![0x53]));
    assert_eq!(reconstruct(&[two.clone(), three.clone()]), Ok(vec![0x53]));
    assert_eq!(reconstruct(&[three.clone(), one.clone()]), Ok(vec![0x53]));
    assert_eq!(reconstruct(&[one.clone(), two, three.clone()]), Ok(vec![0x53]));
    assert_eq!(reconstruct(&[three]), Ok(vec![0x10]));
    assert_eq!(reconstruct(&[one]), Ok(vec![0x99]));
    let tokens = vec!["AZk=".to_string(), "Ato=".to_string()];
    assert_eq!(reconstruct_secret(&tokens), Ok(vec![0x53]));
    let tokens = vec!["AxA=".to_string(), "Ato=".to_string()];
    assert_eq!(reconstruct_secret(&tokens), Ok(vec![0x53]));
}

#[test]
fn interpolation_of_a_parabola() {
    // f(x) = 7 + 0x1B * x + 0xF0 * x^2, and g(x) = 0x53 + 0xCA * x.
    let rows = vec![
        share(1, &[0xEC, 0x99]),
        share(2, &[0xD6, 0xDA]),
        share(3, &[0x3D, 0x10]),
    ];
    assert_eq!(reconstruct(&rows), Ok(vec![7, 0x53]));
    let others = vec![share(4, &[0xD0]), share(2, &[0xD6]), share(1, &[0xEC])];
    assert_eq!(reconstruct(&others), Ok(vec![7]));
}

#[test]
fn a_share_at_zero_is_the_result() {
    let rows = vec![share(0, &[0x42]), share(9, &[0x17])];
    assert_eq!(reconstruct(&rows), Ok(vec![0x42]));
}

#[test]
fn sharing_error_texts() {
    assert_eq!(
        SSSError::InvalidThreshold.message(),
        "Invalid threshold: k must be <= n and both must be > 0"
    );
    assert_eq!(SSSError::ShareGenerationFailed.message(), "Failed to generate shares");
    assert_eq!(SSSError::ReconstructionFailed.message(), "Failed to reconstruct secret");
    assert_eq!(SSSError::InvalidShareFormat.message(), "Invalid share format");
    assert_eq!(SSSError::InsufficientShares.message(), "Insufficient shares provided");
}
