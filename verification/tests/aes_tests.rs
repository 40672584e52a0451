use cryptopals::aes::{decrypt_cbc, decrypt_ecb, encrypt_cbc, encrypt_ecb, CipherError};

#[test]
fn aes_test() {
    let data = b"yellow submarine";
    let key = b"1234567812345678";
    let encrypted = encrypt_ecb(data, key).unwrap();
    let decrypted = decrypt_ecb(&encrypted, key).unwrap();
    assert_eq!(data, decrypted.as_slice());
}

#[test]
fn test_mirror() {
    let data = b"yellow submarine1234567812345678";
    let key = b"1234567812345678";

    let encrypted = encrypt_cbc(data, key, &[0u8; 16]).unwrap();
    let decrypted = decrypt_cbc(&encrypted, key, &[0u8; 16]).unwrap();
    assert_eq!(data, decrypted.as_slice());
}

#[test]
fn ecb_actually_encrypts() {
    let data = b"yellow submarine";
    let key = b"1234567812345678";
    let encrypted = encrypt_ecb(data, key).unwrap();
    assert_ne!(encrypted.as_slice(), data.as_slice());
    let other = encrypt_ecb(data, b"8765432187654321").unwrap();
    assert_ne!(encrypted, other);
}

#[test]
fn ecb_repeats_blocks_cbc_does_not() {
    let data = b"yellow submarineyellow submarine";
    let key = b"1234567812345678";
    let ecb = encrypt_ecb(data, key).unwrap();
    assert_eq!(&ecb[0..16], &ecb[16..32]);
    let cbc = encrypt_cbc(data, key, &[7u8; 16]).unwrap();
    assert_ne!(&cbc[0..16], &cbc[16..32]);
}

#[test]
fn wrong_key_length_is_refused() {
    assert_eq!(
        encrypt_ecb(b"0123456789abcdef", b"short"),
        Err(CipherError::InvalidLength)
    );
    assert_eq!(
        decrypt_ecb(b"0123456789abcdef", b"short"),
        Err(CipherError::InvalidLength)
    );
}
