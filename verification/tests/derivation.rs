//! The derivation engine: randomness, the cipher, and the key helpers.

use chaos::common::{
    decode_key, encode_key, generate_key, generate_meat, generate_password, generate_salt,
};
use chaos::errors::ChaosError;

#[test]
fn test_generate_salt() {
    let salt1 = generate_salt();
    let salt2 = generate_salt();
    assert!(salt1 != salt2);
}

#[test]
fn test_generate_meat() {
    let meat1 = generate_meat(8);
    let meat2 = generate_meat(8);
    assert!(meat1 != meat2);
    assert_eq!(8, meat1.len());
    assert_eq!(8, meat2.len());
}

#[test]
fn test_generate_password() {
    let pass1 = generate_password(
        &[
            1, 2, 3, 4, 5, 6, 7, 8, 9, 10, 11, 12, 13, 14, 15, 16, 17, 18, 19, 20, 21, 22, 23, 24,
            25, 26, 27, 28, 29, 30, 31, 32,
        ],
        &vec![1, 2],
        &vec![
            1, 2, 3, 4, 5, 6, 7, 8, 9, 10, 11, 12, 13, 14, 15, 16, 17, 18, 19, 20, 21, 22, 23, 24,
        ],
    );
    assert_eq!(vec![230, 6], pass1);
}

fn fixed_key() -> Vec<u8> {
    (1..=32).collect()
}

fn fixed_salt(first: u8) -> Vec<u8> {
    let mut salt: Vec<u8> = (1..=24).collect();
    salt[0] = first;
    salt
}

#[test]
fn test_generate_password_deterministic() {
    let key = fixed_key();
    let salt = fixed_salt(1);
    let meat = vec![0u8; 16];
    let pass1 = generate_password(&key, &meat, &salt);
    let pass2 = generate_password(&key, &meat, &salt);
    assert_eq!(pass1, pass2);
}

#[test]
fn test_generate_password_salt_sensitivity() {
    let key = fixed_key();
    let meat = vec![0u8; 16];
    let pass1 = generate_password(&key, &meat, &fixed_salt(1));
    let pass2 = generate_password(&key, &meat, &fixed_salt(2));
    assert!(pass1 != pass2);
}

#[test]
fn test_generate_password_length_preservation() {
    let key = fixed_key();
    let salt = fixed_salt(1);
    for n in [0usize, 1, 2, 7, 16, 32, 100] {
        let meat = generate_meat(n);
        assert_eq!(n, meat.len());
        assert_eq!(n, generate_password(&key, &meat, &salt).len());
    }
}

#[test]
fn test_derive_checks_key_length() {
    let salt = fixed_salt(1);
    let short_key = vec![0u8; 31];
    assert_eq!(Err(ChaosError::InvalidKeyLength), chaos::common::derive(&short_key, &[1, 2], &salt));
}

#[test]
fn test_derive_checks_salt_length() {
    let key = fixed_key();
    let short_salt = vec![0u8; 23];
    assert_eq!(Err(ChaosError::InvalidNonceLength), chaos::common::derive(&key, &[1, 2], &short_salt));
}

#[test]
fn test_derive_matches_generate_password() {
    let key = fixed_key();
    let salt = fixed_salt(1);
    let meat = vec![9u8; 5];
    assert_eq!(Ok(generate_password(&key, &meat, &salt)), chaos::common::derive(&key, &meat, &salt));
}

#[test]
fn test_key_round_trip() {
    let key = generate_key();
    assert_eq!(32, key.len());
    let mut file_text = encode_key(&key);
    file_text.push('\n');
    assert_eq!(Ok(key), decode_key(&file_text));
}

#[test]
fn test_encode_key_exact() {
    assert_eq!("AQID", encode_key(&[1, 2, 3]));
}

#[test]
fn test_decode_key_failures() {
    assert_eq!(Err(ChaosError::Base64DecodeFailure), decode_key(""));
    assert_eq!(Err(ChaosError::Base64DecodeFailure), decode_key("!!!\n"));
}
