use cryptopals::bytes::{
    hamming_distance, hamming_weight, pad, random_bytes, rand_u8, repeat_xor, unpad, valid_padding,
    xor1, inplace_xor,
};
use cryptopals::hexstring::fromhex;

#[test]
fn test_repeat_xor() {
    let expected = fromhex(
        "0b3637272a2b2e63622c2e69692a23693a2a3c6324202d623d63343c2a26226324272765272a282b2f20430a652e2c652a3124333a653e2b2027630c692b20283165286326302e27282f",
    )
    .unwrap();
    let clear = "Burning 'em, if you ain't quick and nimble\nI go crazy when I hear a cymbal";
    let key = "ICE";

    assert_eq!(expected, repeat_xor(clear.as_bytes(), key.as_bytes()));
}

#[test]
fn test_hamming() {
    assert_eq!(0, hamming_weight(0));
    assert_eq!(3, hamming_weight(7));
    assert_eq!(16, hamming_weight(0xFFFF));
    assert_eq!(32, hamming_weight(0xFFFF_FFFF));
}

#[test]
fn test_hamming_distance() {
    assert_eq!(
        hamming_distance("this is a test".as_bytes(), "wokka wokka!!!".as_bytes()),
        37
    );
}

#[test]
fn test_padding() {
    assert_eq!(
        [1, 2, 3, 4, 5, 3, 3, 3],
        pad(vec![1, 2, 3, 4, 5], 8).as_slice()
    );
    assert_eq!(
        [1, 2, 3, 4, 5, 6, 7, 8, 8, 8, 8, 8, 8, 8, 8, 8],
        pad(vec![1, 2, 3, 4, 5, 6, 7, 8], 8).as_slice()
    );

    let unpadded = vec![1, 2, 3, 4, 5];
    assert_eq!(unpadded, unpad(pad(unpadded.clone(), 8)));
}

#[test]
fn test_valid_padding() {
    for blocksize in [8, 16, 32].iter() {
        for _ in 0..1000 {
            let len = rand_u8() as usize;
            let bytes = random_bytes(len);
            let padded = pad(bytes, *blocksize);
            assert!(valid_padding(&padded, *blocksize));
        }
    }
}

#[test]
fn valid_padding_judges_tails() {
    assert!(valid_padding(b"ICE ICE BABY\x04\x04\x04\x04", 16));
    assert!(!valid_padding(b"ICE ICE BABY\x05\x05\x05\x05", 16));
    assert!(!valid_padding(b"ICE ICE BABY\x01\x02\x03\x04", 16));
    assert!(!valid_padding(b"", 16));
    assert!(!valid_padding(b"ICE ICE BABY\x04\x04\x04\x00", 16));
    assert!(valid_padding(b"ICE ICE BABY\x04\x04\x04\x01", 16));
}

#[test]
fn xor_helpers_work() {
    assert_eq!(xor1(&[1, 2, 3], 1), vec![0, 3, 2]);
    assert_eq!(inplace_xor(vec![1, 2, 3], &[1, 2, 3]), vec![0, 0, 0]);
    assert_eq!(repeat_xor(&[0xff, 0x0f], &[0xf0]), vec![0x0f, 0xff]);
}
