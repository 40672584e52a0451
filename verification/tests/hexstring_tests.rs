use cryptopals::hexstring::{fromhex, tohex, DecodeError};

#[test]
fn hexstring_test() {
    assert_eq!(fromhex("aabbccXX"), Err(DecodeError));
    assert_eq!(fromhex("aabbccdd"), Ok(vec![0xaa, 0xbb, 0xcc, 0xdd]));
    assert_eq!(tohex(&fromhex("aabbccdd").unwrap()), "aabbccdd");
}

#[test]
fn fromhex_handles_case_and_odd_lengths() {
    assert_eq!(fromhex("AABB"), Ok(vec![0xaa, 0xbb]));
    assert_eq!(fromhex("abc"), Ok(vec![0x0a, 0xbc]));
    assert_eq!(fromhex(""), Ok(vec![]));
    assert_eq!(fromhex("0g"), Err(DecodeError));
}

#[test]
fn tohex_formats_each_nibble() {
    assert_eq!(tohex(&[0x00, 0x0f, 0xf0, 0x9a]), "000ff09a");
    assert_eq!(tohex(&[]), "");
}
