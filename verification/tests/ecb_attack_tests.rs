use cryptopals::bytes::random_bytes;
use cryptopals::detect::{find_blocksize, is_ecb, length_of_suffix};
use cryptopals::ecb_attack::crack_ecb_with_known_blocksize_and_suffix;
use cryptopals::oracle::EcbOracle;
use cryptopals::prefix::{find_prefix_len, PrefixFreeOracle};

#[test]
fn crack_recovers_short_and_long_suffixes() {
    for len in [1usize, 15, 16, 17, 43, 48].iter() {
        let suffix = random_bytes(*len);
        let o = EcbOracle::new(random_bytes(16), Vec::new(), suffix.clone());
        let got = crack_ecb_with_known_blocksize_and_suffix(&o, 16, *len).unwrap();
        assert_eq!(got, suffix);
    }
}

#[test]
fn crack_recovers_the_hidden_lyrics() {
    let suffix: Vec<u8> = b"Rollin' in my 5.0\nWith my rag-top down so my hair can blow\nThe girlies on standby waving just to say hi\nDid you stop? No, I just drove by\n".to_vec();
    let o = EcbOracle::new(vec![1u8; 16], Vec::new(), suffix.clone());
    let blocksize = find_blocksize(&o).unwrap();
    assert_eq!(blocksize, 16);
    assert!(is_ecb(&o, blocksize));
    let suffix_len = length_of_suffix(&o, blocksize).unwrap();
    assert_eq!(suffix_len, suffix.len());
    let got = crack_ecb_with_known_blocksize_and_suffix(&o, blocksize, suffix_len).unwrap();
    assert_eq!(got, suffix);
}

#[test]
fn find_prefix_len_is_exact_for_each_phase() {
    let suffix = b"; tail".to_vec();
    for plen in [0usize, 1, 5, 15, 16, 17, 31, 32, 33, 47, 63].iter() {
        // the probes are all-one bytes, so keep the prefix clear of them
        let prefix: Vec<u8> = (0..*plen).map(|i| 2 + (i % 250) as u8).collect();
        let o = EcbOracle::new(vec![1u8; 16], prefix, suffix.clone());
        assert_eq!(find_prefix_len(&o, 16), Ok(*plen));
    }
}

#[test]
fn full_pipeline_with_comment_prefix() {
    let prefix = b"comment1=cooking%20MCs;userdata=".to_vec();
    let suffix = b";comment2=%20like%20a%20pound%20of%20bacon".to_vec();
    let o = EcbOracle::new(vec![1u8; 16], prefix.clone(), suffix.clone());

    let blocksize = find_blocksize(&o).unwrap();
    assert_eq!(blocksize, 16);

    let prefix_len = find_prefix_len(&o, blocksize).unwrap();
    assert_eq!(prefix_len, prefix.len());

    let stripped = PrefixFreeOracle::new(o, prefix_len, blocksize);
    assert!(is_ecb(&stripped, blocksize));
    let suffix_len = length_of_suffix(&stripped, blocksize).unwrap();
    assert_eq!(suffix_len, suffix.len());
    let got =
        crack_ecb_with_known_blocksize_and_suffix(&stripped, blocksize, suffix_len).unwrap();
    assert_eq!(got, suffix);
}

#[test]
fn crack_repeats_its_answer() {
    let suffix = random_bytes(20);
    let o = EcbOracle::new(random_bytes(16), Vec::new(), suffix.clone());
    let first = crack_ecb_with_known_blocksize_and_suffix(&o, 16, 20).unwrap();
    let second = crack_ecb_with_known_blocksize_and_suffix(&o, 16, 20).unwrap();
    assert_eq!(first, second);
    assert_eq!(first, suffix);
}
