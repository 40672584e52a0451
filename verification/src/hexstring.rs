//! Hex strings: decoding `aabbcc` into bytes and encoding bytes back.

use vstd::prelude::*;

verus! {

/// A character that is no hex digit was found.
#[derive(Debug, PartialEq, Eq, Structural, Clone, Copy)]
pub struct DecodeError;

/// The value of a hex digit, or -1 for any other character.
pub open spec fn hex_val(c: char) -> int {
    let u = c as u32;
    if 48 <= u <= 57 {
        u - 48
    } else if 97 <= u <= 102 {
        u - 87
    } else if 65 <= u <= 70 {
        u - 55
    } else {
        -1
    }
}

/// The bytes a hex string decodes to: two digits each, and a lone leading
/// digit of an odd-length string counts as a low nibble.
pub open spec fn fromhex_spec(s: Seq<char>) -> Seq<u8> {
    let odd = s.len() as int % 2;
    Seq::new(
        ((s.len() + 1) / 2) as nat,
        |k: int|
            if odd == 1 && k == 0 {
                hex_val(s[0]) as u8
            } else {
                (hex_val(s[2 * k - odd]) * 16 + hex_val(s[2 * k + 1 - odd])) as u8
            },
    )
}

/// The value of one hex digit; any other character is refused.
fn fromhexchar(src: char) -> (r: Result<u8, DecodeError>)
    ensures
        r is Ok <==> hex_val(src) >= 0,
        r is Ok ==> r->Ok_0 == hex_val(src),
{
    let u = src as u32;
    if 48 <= u && u <= 57 {
        Ok((u - 48) as u8)
    } else if 97 <= u && u <= 102 {
        Ok((u - 87) as u8)
    } else if 65 <= u && u <= 70 {
        Ok((u - 55) as u8)
    } else {
        Err(DecodeError)
    }
}

/// Decode a hex string into bytes. Succeeds exactly when every character
/// is a hex digit.
pub fn fromhex(src: &str) -> (r: Result<Vec<u8>, DecodeError>)
    ensures
        r is Ok <==> (forall|i: int| 0 <= i < src@.len() ==> hex_val(#[trigger] src@[i]) >= 0),
        r is Ok ==> r->Ok_0@ == fromhex_spec(src@),
{
    let n = src.unicode_len();
    let mut dest: Vec<u8> = Vec::new();
    let mut i: usize = 0;
    let odd = n % 2;
    if odd == 1 {
        let c = src.get_char(0);
        match fromhexchar(c) {
            Ok(v) => {
                dest.push(v);
            },
            Err(e) => {
                return Err(e);
            },
        }
        i = 1;
    }
    while i < n
        invariant
            n == src@.len(),
            odd == n % 2,
            i % 2 == odd,
            odd <= i <= n,
            dest@.len() == (i + 1) / 2,
            forall|j: int| 0 <= j < i ==> hex_val(#[trigger] src@[j]) >= 0,
            forall|k: int| 0 <= k < dest@.len() ==> dest@[k] == fromhex_spec(src@)[k],
        decreases n - i,
    {
        let hi = match fromhexchar(src.get_char(i)) {
            Ok(v) => v,
            Err(e) => {
                return Err(e);
            },
        };
        let lo = match fromhexchar(src.get_char(i + 1)) {
            Ok(v) => v,
            Err(e) => {
                return Err(e);
            },
        };
        dest.push(hi * 16 + lo);
        proof {
            let k = dest@.len() - 1;
            assert(2 * k - odd == i);
            assert(2 * k + 1 - odd == i + 1);
        }
        i = i + 2;
    }
    proof {
        assert(dest@ =~= fromhex_spec(src@));
    }
    Ok(dest)
}

/// The hex character for a nibble value.
pub open spec fn hex_digit_char(v: u8) -> char {
    if v < 10 {
        ((48 + v) as u8) as char
    } else {
        ((87 + v) as u8) as char
    }
}

/// The hex encoding of a byte string: each byte as two lowercase digits,
/// high nibble first.
pub open spec fn tohex_spec(s: Seq<u8>) -> Seq<char> {
    Seq::new(
        (2 * s.len()) as nat,
        |i: int|
            if i % 2 == 0 {
                hex_digit_char(s[i / 2] >> 4u8)
            } else {
                hex_digit_char(s[i / 2] & 0xfu8)
            },
    )
}

/// Relies on String::from_utf8: bytes below 128 are valid UTF-8 and come
/// back as exactly those characters.
#[verifier::external_body]
fn ascii_to_string(v: Vec<u8>) -> (r: String)
    requires
        forall|i: int| 0 <= i < v@.len() ==> v@[i] < 128,
    ensures
        r@.len() == v@.len(),
        forall|i: int| 0 <= i < v@.len() ==> r@[i] == v@[i] as char,
{
    String::from_utf8(v).unwrap()
}

/// Encode bytes as a lowercase hex string.
pub fn tohex(src: &[u8]) -> (r: String)
    requires
        src@.len() * 2 <= usize::MAX,
    ensures
        r@ == tohex_spec(src@),
{
    let mut dest: Vec<u8> = Vec::new();
    let mut i: usize = 0;
    while i < src.len()
        invariant
            i <= src@.len(),
            src@.len() * 2 <= usize::MAX,
            dest@.len() == 2 * i,
            forall|j: int|
                0 <= j < dest@.len() ==> (#[trigger] dest@[j]) < 128 && (dest@[j] as char)
                    == tohex_spec(src@)[j],
        decreases src@.len() - i,
    {
        let b = src[i];
        let hi = b >> 4u8;
        let lo = b & 0xf;
        assert(hi < 16 && lo < 16) by (bit_vector)
            requires
                hi == b >> 4u8,
                lo == b & 0xfu8,
        ;
        let hc = if hi < 10 {
            48 + hi
        } else {
            87 + hi
        };
        let lc = if lo < 10 {
            48 + lo
        } else {
            87 + lo
        };
        dest.push(hc);
        dest.push(lc);
        proof {
            let j = 2 * i as int;
            assert(j % 2 == 0 && j / 2 == i) by {
                vstd::arithmetic::div_mod::lemma_fundamental_div_mod_converse(j, 2, i as int, 0);
            }
            assert((j + 1) % 2 == 1 && (j + 1) / 2 == i) by {
                vstd::arithmetic::div_mod::lemma_fundamental_div_mod_converse(
                    j + 1,
                    2,
                    i as int,
                    1,
                );
            }
            assert(dest@[j] as char == tohex_spec(src@)[j]);
            assert(dest@[j + 1] as char == tohex_spec(src@)[j + 1]);
        }
        i = i + 1;
    }
    let r = ascii_to_string(dest);
    proof {
        assert(r@ =~= tohex_spec(src@));
    }
    r
}

} // verus!
