//! The system boundary: encryption oracles and padding oracles, as the
//! attacker sees them, together with concrete oracles built on AES-128.
//!
//! An encryption oracle hides a key, a mode, and fixed prefix/suffix bytes;
//! it enciphers `prefix ++ data ++ suffix`, PKCS#7-padded, and answers the
//! ciphertext. A padding oracle hides a key; it deciphers a chosen buffer
//! in CBC mode and answers only whether the padding of the result is valid.

use vstd::prelude::*;
use crate::aes::{
    aes128_enc_spec, aes128_dec_spec, block_at, cbc_cipher_spec, cbc_plain_spec, ecb_cipher_spec,
    ecb_cipher_rel, encrypt_ecb, encrypt_cbc, decrypt_cbc,
};
use crate::bytes::{pkcs7_pad, valid_pkcs7, pad, valid_padding};

verus! {

/// An oracle call itself failed (the oracle rejected the input).
#[derive(Debug, PartialEq, Eq, Structural, Clone, Copy)]
pub struct OracleError;

/// Why an attack gave up.
#[derive(Debug, PartialEq, Eq, Structural, Clone, Copy)]
pub enum AttackError {
    /// An oracle call failed; the failure is handed through.
    Oracle,
    /// The block size or mode could not be determined within the probe
    /// budget.
    DetectionFailed,
    /// No candidate byte matched at this position of the recovered buffer.
    ByteNotFound { position: usize },
    /// Every guess at this position was exhausted without a valid
    /// completion.
    AttackFailed { position: usize },
}

/// A black-box encryption oracle: it holds a hidden configuration
/// (key, block size, mode, fixed prefix and suffix) and enciphers
/// `prefix ++ data ++ suffix`, PKCS#7-padded, deterministically.
pub trait EncryptionOracle {
    /// The oracle's hidden configuration is well formed.
    spec fn wf(&self) -> bool;

    /// The hidden block size.
    spec fn blocksize(&self) -> nat;

    /// The hidden bytes the oracle writes before the attacker's input.
    spec fn prefix(&self) -> Seq<u8>;

    /// The hidden bytes the oracle appends after the attacker's input.
    spec fn suffix(&self) -> Seq<u8>;

    /// Whether the mode enciphers each block independently (ECB-like).
    spec fn ecb_mode(&self) -> bool;

    /// The mode's per-block cipher map (meaningful when `ecb_mode()`).
    spec fn enc_block(&self, block: Seq<u8>) -> Seq<u8>;

    /// The per-block map inverting `enc_block`.
    spec fn dec_block(&self, block: Seq<u8>) -> Seq<u8>;

    /// The ciphertext the oracle answers for `data`: one value per input,
    /// call after call.
    spec fn full_output(&self, data: Seq<u8>) -> Seq<u8>;

    /// Which attacker inputs the oracle accepts.
    spec fn accepts(&self, data: Seq<u8>) -> bool;

    /// How much input one call takes at most.
    spec fn input_cap(&self) -> nat;

    /// Encipher `prefix ++ data ++ suffix`, PKCS#7-padded to the hidden
    /// block size. Under an ECB-like mode, each answered block is
    /// `enc_block` of the matching plaintext block, and `dec_block` leads
    /// back from it.
    fn encrypt(&self, data: &[u8]) -> (r: Result<Vec<u8>, OracleError>)
        requires
            self.wf(),
            data@.len() <= self.input_cap(),
        ensures
            r is Ok <==> self.accepts(data@),
            r is Ok ==> r->Ok_0@ == self.full_output(data@),
            r is Ok ==> r->Ok_0@.len() == pkcs7_pad(
                self.prefix() + data@ + self.suffix(),
                self.blocksize(),
            ).len(),
            pkcs7_pad(self.prefix() + data@ + self.suffix(), self.blocksize()).len()
                % self.blocksize() == 0,
            r is Ok && self.ecb_mode() ==> forall|k: int|
                0 <= k && (k + 1) * self.blocksize() <= r->Ok_0@.len() ==> {
                    &&& #[trigger] block_at(r->Ok_0@, self.blocksize(), k) == self.enc_block(
                        block_at(
                            pkcs7_pad(self.prefix() + data@ + self.suffix(), self.blocksize()),
                            self.blocksize(),
                            k,
                        ),
                    )
                    &&& self.dec_block(block_at(r->Ok_0@, self.blocksize(), k)) == block_at(
                        pkcs7_pad(self.prefix() + data@ + self.suffix(), self.blocksize()),
                        self.blocksize(),
                        k,
                    )
                },
    ;
}

/// The byte sequence an encryption oracle enciphers for attacker input
/// `data`: its hidden prefix, the input, its hidden suffix, PKCS#7-padded.
pub open spec fn oracle_plain<O: EncryptionOracle + ?Sized>(o: &O, data: Seq<u8>) -> Seq<u8> {
    pkcs7_pad(o.prefix() + data + o.suffix(), o.blocksize())
}

/// Blockwise ECB relation between what the oracle enciphered and what it
/// answered: each ciphertext block is `enc_block` of the matching plaintext
/// block, and `dec_block` leads back.
pub open spec fn oracle_ecb_rel<O: EncryptionOracle + ?Sized>(
    o: &O,
    plain: Seq<u8>,
    c: Seq<u8>,
) -> bool {
    forall|k: int|
        0 <= k && (k + 1) * o.blocksize() <= c.len() ==> {
            &&& #[trigger] block_at(c, o.blocksize(), k) == o.enc_block(
                block_at(plain, o.blocksize(), k),
            )
            &&& o.dec_block(block_at(c, o.blocksize(), k)) == block_at(plain, o.blocksize(), k)
        }
}

/// The `encrypt` contract of an ECB-mode oracle, restated over
/// `oracle_plain` and `oracle_ecb_rel`.
pub proof fn lemma_oracle_ecb_output<O: EncryptionOracle>(o: &O, data: Seq<u8>, c: Seq<u8>)
    requires
        o.ecb_mode(),
        forall|k: int|
            0 <= k && (k + 1) * o.blocksize() <= c.len() ==> {
                &&& #[trigger] block_at(c, o.blocksize(), k) == o.enc_block(
                    block_at(
                        pkcs7_pad(o.prefix() + data + o.suffix(), o.blocksize()),
                        o.blocksize(),
                        k,
                    ),
                )
                &&& o.dec_block(block_at(c, o.blocksize(), k)) == block_at(
                    pkcs7_pad(o.prefix() + data + o.suffix(), o.blocksize()),
                    o.blocksize(),
                    k,
                )
            },
    ensures
        oracle_ecb_rel(o, oracle_plain(o, data), c),
{
}

/// The bounds the attacks lean on: a plausible block size and hidden
/// affixes small enough that every probe fits in memory.
pub open spec fn oracle_bounds<O: EncryptionOracle + ?Sized>(o: &O) -> bool {
    &&& 1 <= o.blocksize() <= 128
    &&& o.prefix().len() <= 0x10000
    &&& o.suffix().len() <= 0x10000
    &&& o.input_cap() >= 0x20000
}

/// An encryption oracle that answers every input.
pub open spec fn oracle_total<O: EncryptionOracle + ?Sized>(o: &O) -> bool {
    forall|d: Seq<u8>| #[trigger] o.accepts(d)
}

/// A black-box padding oracle: it CBC-deciphers a chosen buffer under a
/// hidden key and answers only whether the result carries valid PKCS#7
/// padding.
pub trait PaddingOracle {
    /// The oracle's hidden configuration is well formed.
    spec fn wf(&self) -> bool;

    /// The block size of the hidden cipher.
    spec fn blocksize(&self) -> nat;

    /// The hidden cipher's per-block decryption map.
    spec fn dec_block(&self, block: Seq<u8>) -> Seq<u8>;

    /// CBC-decipher `ciphertext` with `iv` under the hidden key — each
    /// block through `dec_block`, XORed with the previous ciphertext block
    /// (the IV for the first) — and answer whether the plaintext ends in
    /// valid PKCS#7 padding. Nothing more leaks.
    fn check(&self, ciphertext: &[u8], iv: &[u8]) -> (r: bool)
        requires
            self.wf(),
            iv@.len() == self.blocksize(),
            ciphertext@.len() % self.blocksize() == 0,
        ensures
            r == valid_pkcs7(
                Seq::new(
                    ciphertext@.len(),
                    |i: int|
                        {
                            let b = self.blocksize() as int;
                            let k = i / b;
                            self.dec_block(block_at(ciphertext@, self.blocksize(), k))[i % b] ^ (
                            if k == 0 {
                                iv@
                            } else {
                                block_at(ciphertext@, self.blocksize(), k - 1)
                            })[i % b]
                        },
                ),
                self.blocksize(),
            ),
    ;
}

/// What the padding oracle's hidden CBC decryption yields: each block
/// deciphered with `dec_block`, then XORed with the previous ciphertext
/// block (the IV for the first).
pub open spec fn padding_oracle_plain<O: PaddingOracle + ?Sized>(
    o: &O,
    ct: Seq<u8>,
    iv: Seq<u8>,
) -> Seq<u8> {
    Seq::new(
        ct.len(),
        |i: int|
            {
                let b = o.blocksize() as int;
                let k = i / b;
                o.dec_block(block_at(ct, o.blocksize(), k))[i % b] ^ (if k == 0 {
                    iv
                } else {
                    block_at(ct, o.blocksize(), k - 1)
                })[i % b]
            },
    )
}

/// The `check` contract, restated over `padding_oracle_plain`.
pub proof fn lemma_padding_oracle_check<O: PaddingOracle>(o: &O, ct: Seq<u8>, iv: Seq<u8>, r: bool)
    requires
        r == valid_pkcs7(
            Seq::new(
                ct.len(),
                |i: int|
                    {
                        let b = o.blocksize() as int;
                        let k = i / b;
                        o.dec_block(block_at(ct, o.blocksize(), k))[i % b] ^ (if k == 0 {
                            iv
                        } else {
                            block_at(ct, o.blocksize(), k - 1)
                        })[i % b]
                    },
            ),
            o.blocksize(),
        ),
    ensures
        r == valid_pkcs7(padding_oracle_plain(o, ct, iv), o.blocksize()),
{
    assert(padding_oracle_plain(o, ct, iv) =~= Seq::new(
        ct.len(),
        |i: int|
            {
                let b = o.blocksize() as int;
                let k = i / b;
                o.dec_block(block_at(ct, o.blocksize(), k))[i % b] ^ (if k == 0 {
                    iv
                } else {
                    block_at(ct, o.blocksize(), k - 1)
                })[i % b]
            },
    ));
}

/// An AES-128 ECB oracle with a fixed hidden prefix and suffix.
pub struct EcbOracle {
    key: Vec<u8>,
    prefix: Vec<u8>,
    suffix: Vec<u8>,
}

impl EcbOracle {
    /// Fix a key, prefix and suffix once for the oracle's lifetime.
    pub fn new(key: Vec<u8>, prefix: Vec<u8>, suffix: Vec<u8>) -> (r: EcbOracle)
        requires
            key@.len() == 16,
            prefix@.len() <= 0x10000,
            suffix@.len() <= 0x10000,
        ensures
            r.wf(),
            r.blocksize() == 16,
            r.prefix() == prefix@,
            r.suffix() == suffix@,
            r.ecb_mode(),
            oracle_bounds(&r),
            oracle_total(&r),
    {
        EcbOracle { key, prefix, suffix }
    }
}

impl EncryptionOracle for EcbOracle {
    closed spec fn wf(&self) -> bool {
        &&& self.key@.len() == 16
        &&& self.prefix@.len() <= 0x10000
        &&& self.suffix@.len() <= 0x10000
    }

    closed spec fn blocksize(&self) -> nat {
        16
    }

    closed spec fn prefix(&self) -> Seq<u8> {
        self.prefix@
    }

    closed spec fn suffix(&self) -> Seq<u8> {
        self.suffix@
    }

    closed spec fn ecb_mode(&self) -> bool {
        true
    }

    closed spec fn enc_block(&self, block: Seq<u8>) -> Seq<u8> {
        aes128_enc_spec(self.key@, block)
    }

    closed spec fn dec_block(&self, block: Seq<u8>) -> Seq<u8> {
        aes128_dec_spec(self.key@, block)
    }

    closed spec fn full_output(&self, data: Seq<u8>) -> Seq<u8> {
        ecb_cipher_spec(self.key@, pkcs7_pad(self.prefix@ + data + self.suffix@, 16))
    }

    closed spec fn accepts(&self, data: Seq<u8>) -> bool {
        true
    }

    closed spec fn input_cap(&self) -> nat {
        0x10000000
    }

    fn encrypt(&self, data: &[u8]) -> (r: Result<Vec<u8>, OracleError>) {
        let mut msg: Vec<u8> = Vec::new();
        let mut p = vstd::slice::slice_to_vec(self.prefix.as_slice());
        msg.append(&mut p);
        let mut d = vstd::slice::slice_to_vec(data);
        msg.append(&mut d);
        let mut s = vstd::slice::slice_to_vec(self.suffix.as_slice());
        msg.append(&mut s);
        assert(msg@ =~= self.prefix() + data@ + self.suffix());
        let padded = pad(msg, 16);
        assert(padded@ == pkcs7_pad(self.prefix@ + data@ + self.suffix@, 16));
        match encrypt_ecb(padded.as_slice(), self.key.as_slice()) {
            Ok(c) => {
                proof {
                    assert(ecb_cipher_rel(self.key@, padded@, c@));
                }
                Ok(c)
            },
            Err(_) => {
                proof {
                    assert(false);
                }
                Err(OracleError)
            },
        }
    }
}

/// An AES-128 CBC oracle with a fixed hidden prefix and suffix: the
/// chaining mode, for telling the two apart.
pub struct CbcOracle {
    key: Vec<u8>,
    iv: Vec<u8>,
    prefix: Vec<u8>,
    suffix: Vec<u8>,
}

impl CbcOracle {
    /// Fix a key, IV, prefix and suffix once for the oracle's lifetime.
    pub fn new(key: Vec<u8>, iv: Vec<u8>, prefix: Vec<u8>, suffix: Vec<u8>) -> (r: CbcOracle)
        requires
            key@.len() == 16,
            iv@.len() == 16,
            prefix@.len() <= 0x10000,
            suffix@.len() <= 0x10000,
        ensures
            r.wf(),
            r.blocksize() == 16,
            r.prefix() == prefix@,
            r.suffix() == suffix@,
            !r.ecb_mode(),
            oracle_bounds(&r),
            oracle_total(&r),
    {
        CbcOracle { key, iv, prefix, suffix }
    }
}

impl EncryptionOracle for CbcOracle {
    closed spec fn wf(&self) -> bool {
        &&& self.key@.len() == 16
        &&& self.iv@.len() == 16
        &&& self.prefix@.len() <= 0x10000
        &&& self.suffix@.len() <= 0x10000
    }

    closed spec fn blocksize(&self) -> nat {
        16
    }

    closed spec fn prefix(&self) -> Seq<u8> {
        self.prefix@
    }

    closed spec fn suffix(&self) -> Seq<u8> {
        self.suffix@
    }

    closed spec fn ecb_mode(&self) -> bool {
        false
    }

    closed spec fn enc_block(&self, block: Seq<u8>) -> Seq<u8> {
        aes128_enc_spec(self.key@, block)
    }

    closed spec fn dec_block(&self, block: Seq<u8>) -> Seq<u8> {
        aes128_dec_spec(self.key@, block)
    }

    closed spec fn full_output(&self, data: Seq<u8>) -> Seq<u8> {
        cbc_cipher_spec(self.key@, pkcs7_pad(self.prefix@ + data + self.suffix@, 16), self.iv@)
    }

    closed spec fn accepts(&self, data: Seq<u8>) -> bool {
        true
    }

    closed spec fn input_cap(&self) -> nat {
        0x10000000
    }

    fn encrypt(&self, data: &[u8]) -> (r: Result<Vec<u8>, OracleError>) {
        let mut msg: Vec<u8> = Vec::new();
        let mut p = vstd::slice::slice_to_vec(self.prefix.as_slice());
        msg.append(&mut p);
        let mut d = vstd::slice::slice_to_vec(data);
        msg.append(&mut d);
        let mut s = vstd::slice::slice_to_vec(self.suffix.as_slice());
        msg.append(&mut s);
        assert(msg@ =~= self.prefix() + data@ + self.suffix());
        let padded = pad(msg, 16);
        assert(padded@ == pkcs7_pad(self.prefix@ + data@ + self.suffix@, 16));
        match encrypt_cbc(padded.as_slice(), self.key.as_slice(), self.iv.as_slice()) {
            Ok(c) => Ok(c),
            Err(_) => {
                proof {
                    assert(false);
                }
                Err(OracleError)
            },
        }
    }
}

/// An AES-128 CBC padding oracle: it tells whether a chosen ciphertext
/// deciphers, under its hidden key, to validly padded plaintext.
pub struct CbcPaddingOracle {
    key: Vec<u8>,
}

impl CbcPaddingOracle {
    /// Fix the hidden key once for the oracle's lifetime.
    pub fn new(key: Vec<u8>) -> (r: CbcPaddingOracle)
        requires
            key@.len() == 16,
        ensures
            r.wf(),
            r.blocksize() == 16,
    {
        CbcPaddingOracle { key }
    }
}

impl PaddingOracle for CbcPaddingOracle {
    closed spec fn wf(&self) -> bool {
        self.key@.len() == 16
    }

    closed spec fn blocksize(&self) -> nat {
        16
    }

    closed spec fn dec_block(&self, block: Seq<u8>) -> Seq<u8> {
        aes128_dec_spec(self.key@, block)
    }

    fn check(&self, ciphertext: &[u8], iv: &[u8]) -> (r: bool) {
        match decrypt_cbc(ciphertext, self.key.as_slice(), iv) {
            Ok(cleartext) => {
                let v = valid_padding(cleartext.as_slice(), 16);
                proof {
                    assert(cbc_plain_spec(self.key@, ciphertext@, iv@) =~= Seq::new(
                        ciphertext@.len(),
                        |i: int|
                            {
                                let b = self.blocksize() as int;
                                let k = i / b;
                                self.dec_block(block_at(ciphertext@, self.blocksize(), k))[i % b]
                                    ^ (if k == 0 {
                                    iv@
                                } else {
                                    block_at(ciphertext@, self.blocksize(), k - 1)
                                })[i % b]
                            },
                    ));
                }
                v
            },
            Err(_) => {
                proof {
                    assert(false);
                }
                false
            },
        }
    }
}

} // verus!
