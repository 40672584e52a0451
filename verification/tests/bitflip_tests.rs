use cryptopals::bitflip::{contains, UserDataOracle};

fn fixture() -> UserDataOracle {
    UserDataOracle::new(
        vec![1u8; 16],
        vec![0u8; 16],
        b"comment1=cooking%20MCs;userdata=".to_vec(),
        b";comment2=%20like%20a%20pound%20of%20bacon".to_vec(),
    )
}

#[test]
fn challenge16_test() {
    let o = fixture();
    assert!(contains(b"12345", b"12"));
    assert!(contains(b"12345", b"34"));
    assert!(!contains(b"12345", b"125"));
    assert!(!contains(&o.encryptor(b"abcdedfg"), b"abcdefg"));
    assert!(!(o.is_admin(&o.encryptor(b"abcdedfg"), b";admin=true;").unwrap()));
    assert!(!(o.is_admin(&o.encryptor(b";admin=true;"), b";admin=true;").unwrap()));
}

#[test]
fn bit_flips_forge_the_admin_marker() {
    let o = fixture();
    let attack_string = b":admin<true:1234";
    let mut ciphertext = o.encryptor(attack_string);
    for i in [16usize, 22, 27].iter() {
        ciphertext[*i] ^= 1;
    }
    assert!(o.is_admin(&ciphertext, b";admin=true;").unwrap());
}
