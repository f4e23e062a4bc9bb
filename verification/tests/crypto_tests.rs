use argon2::Argon2;
use p2wviewer::crypto::{
    decrypt, derive_key_from_file, derive_key_from_password, encrypt, fit_key, generate_nonce,
    generate_salt, generate_token, password_to_key, split_tag, MAX_PASSWORD, MAX_PLAINTEXT,
};
use p2wviewer::error::PipelineError;

fn unhex(s: &str) -> Vec<u8> {
    (0..s.len() / 2)
        .map(|i| u8::from_str_radix(&s[2 * i..2 * i + 2], 16).unwrap())
        .collect()
}

#[test]
fn file_key_is_sha256() {
    let (key, salt) = derive_key_from_file(b"abc");
    assert_eq!(
        key.to_vec(),
        unhex("ba7816bf8f01cfea414140de5dae2223b00361a396177a9cb410ff61f20015ad")
    );
    assert_eq!(salt, [0u8; 16]);
}

#[test]
fn file_key_of_empty_file() {
    let (key, _) = derive_key_from_file(b"");
    assert_eq!(
        key.to_vec(),
        unhex("e3b0c44298fc1c149afbf4c8996fb92427ae41e4649b934ca495991b7852b855")
    );
}

#[test]
fn file_key_is_deterministic() {
    let data: Vec<u8> = (0..1000u32).map(|i| (i * 7 % 251) as u8).collect();
    assert_eq!(derive_key_from_file(&data), derive_key_from_file(&data));
}

#[test]
fn file_key_changes_with_one_byte() {
    let data: Vec<u8> = (0..1000u32).map(|i| (i * 7 % 251) as u8).collect();
    let (key, _) = derive_key_from_file(&data);
    for i in [0usize, 1, 499, 999] {
        let mut other = data.clone();
        other[i] ^= 1;
        assert_ne!(derive_key_from_file(&other).0, key);
    }
}

#[test]
fn token_is_sha256_of_key() {
    let token = generate_token(&[0u8; 32]);
    assert_eq!(
        token.to_vec(),
        unhex("66687aadf862bd776c8fc18b8e9f8e20089714856ee233b3902a591d0d5f2925")
    );
    let key: [u8; 32] = core::array::from_fn(|i| i as u8);
    assert_eq!(generate_token(&key), derive_key_from_file(&key).0);
    assert_ne!(generate_token(&key).to_vec(), key.to_vec());
}

#[test]
fn fit_key_pads_and_truncates() {
    let mut expected = [0u8; 32];
    expected[..3].copy_from_slice(&[1, 2, 3]);
    assert_eq!(fit_key(&[1, 2, 3]), expected);
    assert_eq!(fit_key(&[]), [0u8; 32]);
    let long: Vec<u8> = (1..=40u8).collect();
    assert_eq!(fit_key(&long).to_vec(), (1..=32u8).collect::<Vec<u8>>());
    let exact: Vec<u8> = (100..132u8).collect();
    assert_eq!(fit_key(&exact).to_vec(), exact);
}

#[test]
fn password_key_is_argon2id_of_password_and_salt() {
    let salt: [u8; 16] = core::array::from_fn(|i| 3 * i as u8 + 1);
    let (key, used) = derive_key_from_password("test", Some(salt)).unwrap();
    assert_eq!(used, salt);
    let mut expected = [0u8; 32];
    Argon2::default()
        .hash_password_into(b"test", &salt, &mut expected)
        .unwrap();
    assert_eq!(key, expected);
    assert_ne!(key, [0u8; 32]);
}

#[test]
fn password_key_is_deterministic_for_a_salt() {
    let salt = [7u8; 16];
    let a = derive_key_from_password("correct horse", Some(salt)).unwrap();
    let b = derive_key_from_password("correct horse", Some(salt)).unwrap();
    assert_eq!(a, b);
    let c = derive_key_from_password("correct horsf", Some(salt)).unwrap();
    assert_ne!(a.0, c.0);
    let d = derive_key_from_password("correct horse", Some([8u8; 16])).unwrap();
    assert_ne!(a.0, d.0);
}

#[test]
fn password_key_draws_a_salt() {
    let (key, salt) = derive_key_from_password("pw", None).unwrap();
    let (again, used) = derive_key_from_password("pw", Some(salt)).unwrap();
    assert_eq!(used, salt);
    assert_eq!(again, key);
    let (_, other) = derive_key_from_password("pw", None).unwrap();
    assert_ne!(other, salt);
}

#[test]
fn nonces_are_fresh() {
    let a = generate_nonce();
    let b = generate_nonce();
    assert_eq!(a.len(), 12);
    assert_ne!(a, b);
}

#[test]
fn split_tag_parts_the_last_sixteen_bytes() {
    let sealed: Vec<u8> = (0..20u8).collect();
    let (ciphertext, tag) = split_tag(sealed);
    assert_eq!(ciphertext, vec![0, 1, 2, 3]);
    assert_eq!(tag.to_vec(), (4..20u8).collect::<Vec<u8>>());
    let (ciphertext, tag) = split_tag(vec![9u8; 16]);
    assert!(ciphertext.is_empty());
    assert_eq!(tag, [9u8; 16]);
}

#[test]
fn encrypt_known_answer_empty_plaintext() {
    let (ciphertext, tag) = encrypt(&[0u8; 32], &[0u8; 12], &[]).unwrap();
    assert!(ciphertext.is_empty());
    assert_eq!(tag.to_vec(), unhex("530f8afbc74536b9a963b4f1c4cb738b"));
}

#[test]
fn encrypt_known_answer_one_block() {
    let (ciphertext, tag) = encrypt(&[0u8; 32], &[0u8; 12], &[0u8; 16]).unwrap();
    assert_eq!(ciphertext, unhex("cea7403d4d606b6e074ec5d3baf39d18"));
    assert_eq!(tag.to_vec(), unhex("d0d1c8a799996bf0265b98b5d48ab919"));
}

#[test]
fn decrypt_known_answer_one_block() {
    let ciphertext = unhex("cea7403d4d606b6e074ec5d3baf39d18");
    let tag: [u8; 16] = unhex("d0d1c8a799996bf0265b98b5d48ab919").try_into().unwrap();
    assert_eq!(
        decrypt(&[0u8; 32], &[0u8; 12], &ciphertext, &tag),
        Ok(vec![0u8; 16])
    );
}

#[test]
fn encrypt_then_decrypt() {
    let key: [u8; 32] = core::array::from_fn(|i| 255 - i as u8);
    let nonce: [u8; 12] = core::array::from_fn(|i| i as u8);
    for len in [0usize, 1, 15, 16, 17, 1000] {
        let plaintext: Vec<u8> = (0..len).map(|i| (i % 256) as u8).collect();
        let (ciphertext, tag) = encrypt(&key, &nonce, &plaintext).unwrap();
        assert_eq!(ciphertext.len(), len);
        if len > 0 {
            assert_ne!(ciphertext, plaintext);
        }
        assert_eq!(decrypt(&key, &nonce, &ciphertext, &tag), Ok(plaintext));
    }
}

#[test]
fn decrypt_refuses_a_wrong_key() {
    let key = [1u8; 32];
    let nonce = [2u8; 12];
    let (ciphertext, tag) = encrypt(&key, &nonce, b"some pixels").unwrap();
    let mut other = key;
    other[31] ^= 0x80;
    assert_eq!(
        decrypt(&other, &nonce, &ciphertext, &tag),
        Err(PipelineError::AuthenticationFailed)
    );
}

#[test]
fn decrypt_refuses_changed_data() {
    let key = [1u8; 32];
    let nonce = [2u8; 12];
    let (ciphertext, tag) = encrypt(&key, &nonce, b"some pixels").unwrap();
    let mut changed = ciphertext.clone();
    changed[3] ^= 1;
    assert_eq!(
        decrypt(&key, &nonce, &changed, &tag),
        Err(PipelineError::AuthenticationFailed)
    );
    let mut bad_tag = tag;
    bad_tag[0] ^= 1;
    assert_eq!(
        decrypt(&key, &nonce, &ciphertext, &bad_tag),
        Err(PipelineError::AuthenticationFailed)
    );
    let mut bad_nonce = nonce;
    bad_nonce[11] ^= 1;
    assert_eq!(
        decrypt(&key, &bad_nonce, &ciphertext, &tag),
        Err(PipelineError::AuthenticationFailed)
    );
    assert_eq!(
        decrypt(&key, &nonce, &ciphertext[..5], &tag),
        Err(PipelineError::AuthenticationFailed)
    );
}

#[test]
fn plaintext_limit() {
    assert_eq!(MAX_PLAINTEXT, 1u64 << 36);
}

#[test]
fn password_limit() {
    assert_eq!(MAX_PASSWORD, u32::MAX as u64);
}

#[test]
fn salts_are_fresh() {
    let a = generate_salt();
    let b = generate_salt();
    assert_eq!(a.len(), 16);
    assert_ne!(a, b);
}

#[test]
fn password_to_key_is_the_key_of_the_salt() {
    let salt: [u8; 16] = core::array::from_fn(|i| 17 * i as u8);
    let key = password_to_key("secret", &salt).unwrap();
    let (same, used) = derive_key_from_password("secret", Some(salt)).unwrap();
    assert_eq!(used, salt);
    assert_eq!(key, same);
    let mut expected = [0u8; 32];
    Argon2::default()
        .hash_password_into("secret".as_bytes(), &salt, &mut expected)
        .unwrap();
    assert_eq!(key, expected);
}

#[test]
fn empty_and_long_passwords_are_hashed() {
    let salt = [1u8; 16];
    assert!(password_to_key("", &salt).is_ok());
    let long = "x".repeat(100_000);
    assert!(derive_key_from_password(&long, Some(salt)).is_ok());
    assert!(derive_key_from_password("päss wörd ✓", None).is_ok());
}
