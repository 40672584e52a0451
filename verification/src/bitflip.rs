//! The CBC bit-flipping exercise fixture: an encryptor that quotes the
//! metacharacters out of user data before wrapping it in fixed comments,
//! and a checker that looks for an admin marker in the decryption.

use vstd::prelude::*;
use crate::aes::{cbc_cipher_spec, cbc_plain_spec, encrypt_cbc, decrypt_cbc, CipherError};
use crate::bytes::{pkcs7_pad, pad, eq_bytes};

verus! {

/// User data with `&` and `=` percent-quoted away, byte for byte.
pub open spec fn quote_spec(s: Seq<u8>) -> Seq<u8>
    decreases s.len(),
{
    if s.len() == 0 {
        Seq::<u8>::empty()
    } else {
        quote_spec(s.drop_last()) + (if s.last() == 38 {
            seq![37u8, 50u8, 54u8]
        } else if s.last() == 61 {
            seq![37u8, 51u8, 68u8]
        } else {
            seq![s.last()]
        })
    }
}

/// Whether `needle` occurs somewhere inside `haystack`.
pub open spec fn contains_spec(haystack: Seq<u8>, needle: Seq<u8>) -> bool {
    exists|i: int|
        0 <= i <= haystack.len() - needle.len() && #[trigger] haystack.subrange(
            i,
            i + needle.len(),
        ) == needle
}

/// Whether `haystack` holds `needle` as a contiguous run of bytes.
pub fn contains(haystack: &[u8], needle: &[u8]) -> (r: bool)
    requires
        needle@.len() >= 1,
    ensures
        r == contains_spec(haystack@, needle@),
{
    if needle.len() > haystack.len() {
        proof {
            assert(!contains_spec(haystack@, needle@));
        }
        return false;
    }
    let mut i: usize = 0;
    let last = haystack.len() - needle.len();
    while i <= last
        invariant
            needle@.len() >= 1,
            needle@.len() <= haystack@.len(),
            haystack@.len() <= usize::MAX,
            last == haystack@.len() - needle@.len(),
            i <= last + 1,
            forall|j: int|
                0 <= j < i ==> #[trigger] haystack@.subrange(j, j + needle@.len()) != needle@,
        decreases last + 1 - i,
    {
        let w = vstd::slice::slice_subrange(haystack, i, i + needle.len());
        if eq_bytes(w, needle) {
            return true;
        }
        i = i + 1;
    }
    proof {
        assert(!contains_spec(haystack@, needle@));
    }
    false
}

/// A CBC service that wraps quoted user data between a fixed comment
/// prefix and suffix under a fixed key and IV, and will say whether a
/// ciphertext's decryption carries the admin marker.
pub struct UserDataOracle {
    key: Vec<u8>,
    iv: Vec<u8>,
    prefix: Vec<u8>,
    suffix: Vec<u8>,
}

impl UserDataOracle {
    /// The hidden configuration is well formed.
    pub closed spec fn wf(&self) -> bool {
        &&& self.key@.len() == 16
        &&& self.iv@.len() == 16
        &&& self.prefix@.len() <= 0x10000
        &&& self.suffix@.len() <= 0x10000
    }

    /// The fixed key.
    pub closed spec fn spec_key(&self) -> Seq<u8> {
        self.key@
    }

    /// The fixed IV.
    pub closed spec fn spec_iv(&self) -> Seq<u8> {
        self.iv@
    }

    /// The fixed comment prefix.
    pub closed spec fn spec_prefix(&self) -> Seq<u8> {
        self.prefix@
    }

    /// The fixed comment suffix.
    pub closed spec fn spec_suffix(&self) -> Seq<u8> {
        self.suffix@
    }

    /// Fix key, IV and the two comment strings for the service's lifetime.
    pub fn new(key: Vec<u8>, iv: Vec<u8>, prefix: Vec<u8>, suffix: Vec<u8>) -> (r: UserDataOracle)
        requires
            key@.len() == 16,
            iv@.len() == 16,
            prefix@.len() <= 0x10000,
            suffix@.len() <= 0x10000,
        ensures
            r.wf(),
            r.spec_key() == key@,
            r.spec_iv() == iv@,
            r.spec_prefix() == prefix@,
            r.spec_suffix() == suffix@,
    {
        UserDataOracle { key, iv, prefix, suffix }
    }

    /// Quote the user data, wrap it in the comments, pad, and encrypt
    /// under CBC.
    pub fn encryptor(&self, userdata: &[u8]) -> (r: Vec<u8>)
        requires
            self.wf(),
            userdata@.len() <= 0x10000000,
        ensures
            r@ == cbc_cipher_spec(
                self.spec_key(),
                pkcs7_pad(self.spec_prefix() + quote_spec(userdata@) + self.spec_suffix(), 16),
                self.spec_iv(),
            ),
    {
        let mut cleartext: Vec<u8> = Vec::new();
        let mut p = vstd::slice::slice_to_vec(self.prefix.as_slice());
        cleartext.append(&mut p);
        let mut i: usize = 0;
        while i < userdata.len()
            invariant
                i <= userdata@.len(),
                userdata@.len() <= 0x10000000,
                self.prefix@.len() <= 0x10000,
                cleartext@ == self.prefix@ + quote_spec(userdata@.take(i as int)),
                cleartext@.len() <= self.prefix@.len() + 3 * i,
            decreases userdata@.len() - i,
        {
            let b = userdata[i];
            if b == 38 {
                cleartext.push(37);
                cleartext.push(50);
                cleartext.push(54);
            } else if b == 61 {
                cleartext.push(37);
                cleartext.push(51);
                cleartext.push(68);
            } else {
                cleartext.push(b);
            }
            i = i + 1;
            proof {
                assert(userdata@.take(i as int).drop_last() =~= userdata@.take(i - 1));
                assert(cleartext@ =~= self.prefix@ + quote_spec(userdata@.take(i as int)));
            }
        }
        let mut s = vstd::slice::slice_to_vec(self.suffix.as_slice());
        cleartext.append(&mut s);
        proof {
            assert(userdata@.take(userdata@.len() as int) =~= userdata@);
            assert(cleartext@ =~= self.spec_prefix() + quote_spec(userdata@)
                + self.spec_suffix());
        }
        let padded = pad(cleartext, 16);
        match encrypt_cbc(padded.as_slice(), self.key.as_slice(), self.iv.as_slice()) {
            Ok(c) => c,
            Err(_) => {
                proof {
                    assert(false);
                }
                Vec::new()
            },
        }
    }

    /// Decrypt a ciphertext and report whether the plaintext holds
    /// `marker` anywhere.
    pub fn is_admin(&self, ciphertext: &[u8], marker: &[u8]) -> (r: Result<bool, CipherError>)
        requires
            self.wf(),
            ciphertext@.len() % 16 == 0,
            marker@.len() >= 1,
        ensures
            r == Ok::<bool, CipherError>(
                contains_spec(
                    cbc_plain_spec(self.spec_key(), ciphertext@, self.spec_iv()),
                    marker@,
                ),
            ),
    {
        match decrypt_cbc(ciphertext, self.key.as_slice(), self.iv.as_slice()) {
            Ok(cleartext) => Ok(contains(cleartext.as_slice(), marker)),
            Err(_) => {
                proof {
                    assert(false);
                }
                Err(CipherError::InvalidLength)
            },
        }
    }
}

} // verus!
