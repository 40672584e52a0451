use cryptopals::bytes::random_bytes;
use cryptopals::detect::{find_blocksize, is_ecb, length_of_suffix, oracle};
use cryptopals::oracle::{CbcOracle, EcbOracle};

#[test]
fn challenge11_test() {
    let ans = oracle(b"SOME TEST DATA12");
    assert!(ans.unwrap().ciphertext.len() >= b"SOME TEST DATA12".len() + 10);
}

#[test]
fn find_blocksize_sees_sixteen() {
    let o = EcbOracle::new(vec![1u8; 16], Vec::new(), b"some hidden suffix".to_vec());
    assert_eq!(find_blocksize(&o), Ok(16));
    let o2 = EcbOracle::new(
        random_bytes(16),
        b"a prefix".to_vec(),
        b"another suffix of some length".to_vec(),
    );
    assert_eq!(find_blocksize(&o2), Ok(16));
    let o3 = CbcOracle::new(random_bytes(16), random_bytes(16), Vec::new(), b"tail".to_vec());
    assert_eq!(find_blocksize(&o3), Ok(16));
}

#[test]
fn is_ecb_tells_the_modes_apart() {
    for _ in 0..20 {
        let ecb = EcbOracle::new(random_bytes(16), Vec::new(), b"suffix".to_vec());
        assert!(is_ecb(&ecb, 16));
        let cbc = CbcOracle::new(
            random_bytes(16),
            random_bytes(16),
            Vec::new(),
            b"suffix".to_vec(),
        );
        assert!(!is_ecb(&cbc, 16));
    }
}

#[test]
fn length_of_suffix_is_exact() {
    for len in [1usize, 15, 16, 17, 43, 64].iter() {
        let o = EcbOracle::new(vec![1u8; 16], Vec::new(), random_bytes(*len));
        assert_eq!(length_of_suffix(&o, 16), Ok(*len));
    }
    let o = EcbOracle::new(vec![1u8; 16], Vec::new(), Vec::new());
    assert_eq!(length_of_suffix(&o, 16), Ok(0));
}

#[test]
fn detectors_repeat_their_answers() {
    let o = EcbOracle::new(random_bytes(16), Vec::new(), random_bytes(21));
    assert_eq!(find_blocksize(&o), find_blocksize(&o));
    assert_eq!(length_of_suffix(&o, 16), length_of_suffix(&o, 16));
    assert_eq!(is_ecb(&o, 16), is_ecb(&o, 16));
}
