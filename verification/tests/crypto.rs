use teleprompt_cli::crypto::{decrypt_store, encrypt_store, seal_store};
use teleprompt_cli::error::TelepromptError;

#[test]
fn encrypted_store_bytes_open_to_what_was_stored() {
    let plaintext = br#"{"devices":{}}"#.to_vec();
    let data = encrypt_store(&plaintext, "master_pwd_123").unwrap();
    assert_eq!(data.len(), 16 + 12 + plaintext.len() + 16);
    assert_ne!(&data[28..28 + plaintext.len()], plaintext.as_slice());
    assert_eq!(decrypt_store(&data, "master_pwd_123"), Ok(plaintext));
}

#[test]
fn test_load_store_invalid_password() {
    let data = encrypt_store(b"test_srv", "correct_password").unwrap();
    assert_eq!(decrypt_store(&data, "wrong_password"), Err(TelepromptError::InvalidPassword));
}

#[test]
fn test_load_store_corrupted_data() {
    assert_eq!(decrypt_store(b"too_short", "password"), Err(TelepromptError::InvalidPassword));
    assert_eq!(decrypt_store(&vec![0u8; 100], "password"), Err(TelepromptError::InvalidPassword));
}

#[test]
fn sealing_with_a_given_salt_and_nonce_is_deterministic() {
    let salt = [1u8; 16];
    let nonce = [2u8; 12];
    let a = seal_store(b"abc", "pw", &salt, &nonce).unwrap();
    let b = seal_store(b"abc", "pw", &salt, &nonce).unwrap();
    assert_eq!(a, b);
    assert_eq!(a.len(), 16 + 12 + 3 + 16);
    assert_eq!(&a[..16], &salt);
    assert_eq!(&a[16..28], &nonce);
    assert_ne!(&a[28..31], b"abc");
    assert_eq!(decrypt_store(&a, "pw"), Ok(b"abc".to_vec()));
    assert_ne!(seal_store(b"abc", "pw2", &salt, &nonce).unwrap(), a);
}

#[test]
fn two_encryptions_draw_different_salts() {
    let a = encrypt_store(b"abc", "pw").unwrap();
    let b = encrypt_store(b"abc", "pw").unwrap();
    assert_ne!(&a[..28], &b[..28]);
}
