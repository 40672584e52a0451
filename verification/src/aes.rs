//! AES-128 in ECB and CBC mode. The single-block cipher is the crypto
//! crate's; the block modes around it are verified here.

use vstd::prelude::*;
use crate::bytes::xor_zip;
use crypto::symmetriccipher::{BlockEncryptor, BlockDecryptor};

verus! {

/// What AES-128 returns when it encrypts one 16-byte block with a 16-byte
/// key. A function of key and block alone.
pub uninterp spec fn aes128_enc_spec(key: Seq<u8>, block: Seq<u8>) -> Seq<u8>;

/// What AES-128 returns when it deciphers one 16-byte block.
pub uninterp spec fn aes128_dec_spec(key: Seq<u8>, block: Seq<u8>) -> Seq<u8>;

/// Block `k` of `s`, blocks being `b` bytes wide.
pub open spec fn block_at(s: Seq<u8>, b: nat, k: int) -> Seq<u8>
    recommends
        0 <= k,
        (k + 1) * b <= s.len(),
{
    s.subrange(k * b, k * b + b)
}

/// Relies on crypto::aessafe::AesSafe128Encryptor: AES-128 encryption of a
/// single 16-byte block, a permutation (per key) of 16-byte blocks that
/// AesSafe128Decryptor inverts.
#[verifier::external_body]
fn aes128_encrypt_block(key: &[u8], block: &[u8]) -> (r: Vec<u8>)
    requires
        key@.len() == 16,
        block@.len() == 16,
    ensures
        r@ == aes128_enc_spec(key@, block@),
        r@.len() == 16,
        aes128_dec_spec(key@, r@) == block@,
{
    let enc = crypto::aessafe::AesSafe128Encryptor::new(key);
    let mut out = vec![0u8; 16];
    enc.encrypt_block(block, &mut out);
    out
}

/// Relies on crypto::aessafe::AesSafe128Decryptor: AES-128 decryption of a
/// single 16-byte block, inverting AesSafe128Encryptor under the same key.
#[verifier::external_body]
fn aes128_decrypt_block(key: &[u8], block: &[u8]) -> (r: Vec<u8>)
    requires
        key@.len() == 16,
        block@.len() == 16,
    ensures
        r@ == aes128_dec_spec(key@, block@),
        r@.len() == 16,
        aes128_enc_spec(key@, r@) == block@,
{
    let dec = crypto::aessafe::AesSafe128Decryptor::new(key);
    let mut out = vec![0u8; 16];
    dec.decrypt_block(block, &mut out);
    out
}

/// The error a cipher-mode function reports: the key (or a buffer) does not
/// have the length the cipher needs.
#[derive(Debug, PartialEq, Eq, Structural, Clone, Copy)]
pub enum CipherError {
    InvalidLength,
}

/// `c` is `plain` enciphered block by block, each block independently:
/// block `k` of `c` is the AES encryption of block `k` of `plain`, and
/// deciphering block `k` of `c` gives back block `k` of `plain`.
pub open spec fn ecb_cipher_rel(key: Seq<u8>, plain: Seq<u8>, c: Seq<u8>) -> bool {
    &&& c.len() == plain.len()
    &&& forall|k: int|
        0 <= k && (k + 1) * 16 <= plain.len() ==> {
            &&& #[trigger] block_at(c, 16, k) == aes128_enc_spec(key, block_at(plain, 16, k))
            &&& aes128_dec_spec(key, block_at(c, 16, k)) == block_at(plain, 16, k)
        }
}

/// The ECB encryption of `plain`: each block enciphered independently.
pub open spec fn ecb_cipher_spec(key: Seq<u8>, plain: Seq<u8>) -> Seq<u8> {
    Seq::new(plain.len(), |i: int| aes128_enc_spec(key, block_at(plain, 16, i / 16))[i % 16])
}

/// The ECB decryption of `c`: each block deciphered independently.
pub open spec fn ecb_plain_spec(key: Seq<u8>, c: Seq<u8>) -> Seq<u8> {
    Seq::new(c.len(), |i: int| aes128_dec_spec(key, block_at(c, 16, i / 16))[i % 16])
}

/// A buffer in the blockwise ECB relation to the ciphertext is its ECB
/// decryption.
pub proof fn lemma_ecb_rel_plain(key: Seq<u8>, plain: Seq<u8>, c: Seq<u8>)
    requires
        plain.len() % 16 == 0,
        ecb_cipher_rel(key, plain, c),
    ensures
        plain == ecb_plain_spec(key, c),
{
    let nblocks = plain.len() as int / 16;
    vstd::arithmetic::div_mod::lemma_fundamental_div_mod(plain.len() as int, 16);
    assert forall|i: int| 0 <= i < plain.len() implies plain[i] == ecb_plain_spec(key, c)[i] by {
        let j = i / 16;
        let m = i % 16;
        lemma_block_index(j, m);
        assert(0 <= j && (j + 1) * 16 <= plain.len()) by (nonlinear_arith)
            requires
                0 <= i < nblocks * 16,
                plain.len() == nblocks * 16,
                j == i / 16,
                m == i % 16,
                i == 16 * j + m,
                0 <= m < 16,
        ;
        assert(block_at(plain, 16, j)[m] == plain[i]);
        assert(aes128_dec_spec(key, block_at(c, 16, j)) == block_at(plain, 16, j));
    }
    assert(plain =~= ecb_plain_spec(key, c));
}

/// A buffer in the blockwise ECB relation to `plain` is the ECB ciphertext.
pub proof fn lemma_ecb_rel_cipher(key: Seq<u8>, plain: Seq<u8>, c: Seq<u8>)
    requires
        plain.len() % 16 == 0,
        ecb_cipher_rel(key, plain, c),
    ensures
        c == ecb_cipher_spec(key, plain),
{
    let nblocks = plain.len() as int / 16;
    vstd::arithmetic::div_mod::lemma_fundamental_div_mod(plain.len() as int, 16);
    assert forall|i: int| 0 <= i < plain.len() implies c[i] == ecb_cipher_spec(key, plain)[i] by {
        let j = i / 16;
        let m = i % 16;
        lemma_block_index(j, m);
        assert(0 <= j && (j + 1) * 16 <= plain.len()) by (nonlinear_arith)
            requires
                0 <= i < nblocks * 16,
                plain.len() == nblocks * 16,
                j == i / 16,
                m == i % 16,
                i == 16 * j + m,
                0 <= m < 16,
        ;
        assert(block_at(c, 16, j)[m] == c[i]);
    }
    assert(c =~= ecb_cipher_spec(key, plain));
}

/// Encrypt `data` (already a whole number of blocks) under AES-128 ECB.
/// Only 16-byte keys name a cipher; anything else is an error.
pub fn encrypt_ecb(data: &[u8], key: &[u8]) -> (r: Result<Vec<u8>, CipherError>)
    requires
        data@.len() % 16 == 0,
    ensures
        key@.len() == 16 ==> r is Ok && ecb_cipher_rel(key@, data@, r->Ok_0@) && r->Ok_0@
            == ecb_cipher_spec(key@, data@),
        key@.len() != 16 ==> r == Err::<Vec<u8>, CipherError>(CipherError::InvalidLength),
{
    if key.len() != 16 {
        return Err(CipherError::InvalidLength);
    }
    let mut out: Vec<u8> = Vec::new();
    let mut k: usize = 0;
    let nblocks = data.len() / 16;
    proof {
        vstd::arithmetic::div_mod::lemma_fundamental_div_mod(data@.len() as int, 16);
    }
    while k < nblocks
        invariant
            key@.len() == 16,
            nblocks == data@.len() as int / 16,
            data@.len() == nblocks * 16,
            k <= nblocks,
            data@.len() <= usize::MAX,
            out@.len() == k * 16,
            forall|j: int|
                0 <= j < k ==> {
                    &&& #[trigger] block_at(out@, 16, j) == aes128_enc_spec(
                        key@,
                        block_at(data@, 16, j),
                    )
                    &&& aes128_dec_spec(key@, block_at(out@, 16, j)) == block_at(data@, 16, j)
                },
        decreases nblocks - k,
    {
        proof {
            assert(k * 16 + 16 == (k + 1) * 16) by (nonlinear_arith);
            assert((k + 1) * 16 <= nblocks * 16) by (nonlinear_arith)
                requires
                    k + 1 <= nblocks,
            ;
            assert(k * 16 + 16 <= data@.len());
        }
        let ghost old_out = out@;
        let block = vstd::slice::slice_subrange(data, k * 16, k * 16 + 16);
        let mut c = aes128_encrypt_block(key, block);
        out.append(&mut c);
        proof {
            assert forall|j: int| 0 <= j < k + 1 implies {
                &&& #[trigger] block_at(out@, 16, j) == aes128_enc_spec(
                    key@,
                    block_at(data@, 16, j),
                )
                &&& aes128_dec_spec(key@, block_at(out@, 16, j)) == block_at(data@, 16, j)
            } by {
                if j < k {
                    assert(block_at(out@, 16, j) =~= block_at(old_out, 16, j));
                } else {
                    assert(block_at(out@, 16, j) =~= aes128_enc_spec(key@, block_at(data@, 16, j)));
                }
            }
        }
        k = k + 1;
    }
    proof {
        assert forall|j: int| 0 <= j && #[trigger] ((j + 1) * 16) <= data@.len() implies 0 <= j
            < nblocks by {
            assert((j + 1) * 16 <= nblocks * 16 ==> j + 1 <= nblocks) by (nonlinear_arith);
        }
        lemma_ecb_rel_cipher(key@, data@, out@);
    }
    Ok(out)
}

/// Decipher `data` (a whole number of blocks) under AES-128 ECB.
pub fn decrypt_ecb(data: &[u8], key: &[u8]) -> (r: Result<Vec<u8>, CipherError>)
    requires
        data@.len() % 16 == 0,
    ensures
        key@.len() == 16 ==> r is Ok && ecb_cipher_rel(key@, r->Ok_0@, data@) && r->Ok_0@
            == ecb_plain_spec(key@, data@),
        key@.len() != 16 ==> r == Err::<Vec<u8>, CipherError>(CipherError::InvalidLength),
{
    if key.len() != 16 {
        return Err(CipherError::InvalidLength);
    }
    let mut out: Vec<u8> = Vec::new();
    let mut k: usize = 0;
    let nblocks = data.len() / 16;
    proof {
        vstd::arithmetic::div_mod::lemma_fundamental_div_mod(data@.len() as int, 16);
    }
    while k < nblocks
        invariant
            key@.len() == 16,
            nblocks == data@.len() as int / 16,
            data@.len() == nblocks * 16,
            k <= nblocks,
            data@.len() <= usize::MAX,
            out@.len() == k * 16,
            forall|j: int|
                0 <= j < k ==> {
                    &&& #[trigger] block_at(data@, 16, j) == aes128_enc_spec(
                        key@,
                        block_at(out@, 16, j),
                    )
                    &&& aes128_dec_spec(key@, block_at(data@, 16, j)) == block_at(out@, 16, j)
                },
        decreases nblocks - k,
    {
        proof {
            assert(k * 16 + 16 == (k + 1) * 16) by (nonlinear_arith);
            assert((k + 1) * 16 <= nblocks * 16) by (nonlinear_arith)
                requires
                    k + 1 <= nblocks,
            ;
            assert(k * 16 + 16 <= data@.len());
        }
        let ghost old_out = out@;
        let block = vstd::slice::slice_subrange(data, k * 16, k * 16 + 16);
        let mut p = aes128_decrypt_block(key, block);
        out.append(&mut p);
        proof {
            assert forall|j: int| 0 <= j < k + 1 implies {
                &&& #[trigger] block_at(data@, 16, j) == aes128_enc_spec(
                    key@,
                    block_at(out@, 16, j),
                )
                &&& aes128_dec_spec(key@, block_at(data@, 16, j)) == block_at(out@, 16, j)
            } by {
                if j < k {
                    assert(block_at(out@, 16, j) =~= block_at(old_out, 16, j));
                } else {
                    assert(block_at(out@, 16, j) =~= aes128_dec_spec(key@, block_at(data@, 16, j)));
                    assert(block_at(data@, 16, j) =~= aes128_enc_spec(key@, block_at(out@, 16, j)));
                }
            }
        }
        k = k + 1;
    }
    proof {
        assert forall|j: int| 0 <= j && #[trigger] ((j + 1) * 16) <= data@.len() implies 0 <= j
            < nblocks by {
            assert((j + 1) * 16 <= nblocks * 16 ==> j + 1 <= nblocks) by (nonlinear_arith);
        }
        lemma_ecb_rel_plain(key@, out@, data@);
    }
    Ok(out)
}

/// Position `16 * j + m` sits in block `j` at offset `m`.
proof fn lemma_block_index(j: int, m: int)
    requires
        0 <= j,
        0 <= m < 16,
    ensures
        (16 * j + m) / 16 == j,
        (16 * j + m) % 16 == m,
{
    vstd::arithmetic::div_mod::lemma_fundamental_div_mod_converse(16 * j + m, 16, j, m);
}

/// The ciphertext block chained into block `k`: block `k - 1`, or the IV
/// for the first block.
pub open spec fn cbc_prev(ct: Seq<u8>, iv: Seq<u8>, k: int) -> Seq<u8> {
    if k == 0 {
        iv
    } else {
        block_at(ct, 16, k - 1)
    }
}

/// The CBC decryption of `ct` under `key` and `iv`: each ciphertext block
/// deciphered, then XORed with the block chained into it.
pub open spec fn cbc_plain_spec(key: Seq<u8>, ct: Seq<u8>, iv: Seq<u8>) -> Seq<u8> {
    Seq::new(
        ct.len(),
        |i: int|
            aes128_dec_spec(key, block_at(ct, 16, i / 16))[i % 16] ^ cbc_prev(
                ct,
                iv,
                i / 16,
            )[i % 16],
    )
}

/// Ciphertext block `k` of the CBC encryption of `plain`: the block cipher
/// applied to plaintext block `k` XORed with the previous ciphertext block
/// (the IV for the first).
pub open spec fn cbc_cipher_block(key: Seq<u8>, plain: Seq<u8>, iv: Seq<u8>, k: int) -> Seq<u8>
    decreases k,
{
    if k <= 0 {
        aes128_enc_spec(key, xor_zip(block_at(plain, 16, 0), iv))
    } else {
        aes128_enc_spec(
            key,
            xor_zip(block_at(plain, 16, k), cbc_cipher_block(key, plain, iv, k - 1)),
        )
    }
}

/// The CBC encryption of `plain` under `key` and `iv`.
pub open spec fn cbc_cipher_spec(key: Seq<u8>, plain: Seq<u8>, iv: Seq<u8>) -> Seq<u8> {
    Seq::new(plain.len(), |i: int| cbc_cipher_block(key, plain, iv, i / 16)[i % 16])
}

/// Encrypt `cleartext` under AES-128 CBC. The result deciphers back to
/// `cleartext`: `cbc_plain_spec` of the returned ciphertext is the input.
pub fn encrypt_cbc(cleartext: &[u8], key: &[u8], iv: &[u8]) -> (r: Result<Vec<u8>, CipherError>)
    requires
        key@.len() == iv@.len(),
        key@.len() >= 1,
        cleartext@.len() % key@.len() == 0,
    ensures
        key@.len() == 16 ==> r is Ok && r->Ok_0@ == cbc_cipher_spec(key@, cleartext@, iv@)
            && cbc_plain_spec(key@, r->Ok_0@, iv@) == cleartext@ && r->Ok_0@.len()
            == cleartext@.len(),
        key@.len() != 16 && cleartext@.len() > 0 ==> r == Err::<Vec<u8>, CipherError>(
            CipherError::InvalidLength,
        ),
        key@.len() != 16 && cleartext@.len() == 0 ==> r is Ok && r->Ok_0@.len() == 0,
{
    if cleartext.len() == 0 {
        let r: Vec<u8> = Vec::new();
        assert(r@ =~= cbc_cipher_spec(key@, cleartext@, iv@));
        assert(cbc_plain_spec(key@, r@, iv@) =~= cleartext@);
        return Ok(r);
    }
    if key.len() != 16 {
        return Err(CipherError::InvalidLength);
    }
    let ghost plain = cleartext@;
    let mut out: Vec<u8> = Vec::new();
    let mut prev: Vec<u8> = vstd::slice::slice_to_vec(iv);
    let mut k: usize = 0;
    let nblocks = cleartext.len() / 16;
    proof {
        vstd::arithmetic::div_mod::lemma_fundamental_div_mod(plain.len() as int, 16);
    }
    while k < nblocks
        invariant
            key@.len() == 16,
            iv@.len() == 16,
            nblocks == plain.len() as int / 16,
            plain.len() == nblocks * 16,
            plain.len() <= usize::MAX,
            plain == cleartext@,
            k <= nblocks,
            out@.len() == k * 16,
            prev@ == (if k == 0 {
                iv@
            } else {
                cbc_cipher_block(key@, plain, iv@, k - 1)
            }),
            prev@.len() == 16,
            forall|j: int|
                0 <= j < k ==> #[trigger] block_at(out@, 16, j) == cbc_cipher_block(
                    key@,
                    plain,
                    iv@,
                    j,
                ),
            forall|j: int|
                0 <= j < k ==> aes128_dec_spec(key@, #[trigger] block_at(out@, 16, j)) == xor_zip(
                    block_at(plain, 16, j),
                    cbc_prev(out@, iv@, j),
                ),
        decreases nblocks - k,
    {
        proof {
            assert(k * 16 + 16 == (k + 1) * 16) by (nonlinear_arith);
            assert((k + 1) * 16 <= nblocks * 16) by (nonlinear_arith)
                requires
                    k + 1 <= nblocks,
            ;
            assert(k * 16 + 16 <= plain.len());
        }
        let ghost old_out = out@;
        let ghost prev_in = prev@;
        let pblock = vstd::slice::slice_subrange(cleartext, k * 16, k * 16 + 16);
        let pvec = vstd::slice::slice_to_vec(pblock);
        let x = crate::bytes::inplace_xor(pvec, prev.as_slice());
        assert(x@ =~= xor_zip(block_at(plain, 16, k as int), prev@));
        let mut c = aes128_encrypt_block(key, x.as_slice());
        let ghost cseq = c@;
        prev = vstd::slice::slice_to_vec(c.as_slice());
        out.append(&mut c);
        proof {
            assert(cseq == cbc_cipher_block(key@, plain, iv@, k as int));
            assert forall|j: int| 0 <= j < k + 1 implies #[trigger] block_at(out@, 16, j)
                == cbc_cipher_block(key@, plain, iv@, j) by {
                if j < k {
                    assert(block_at(out@, 16, j) =~= block_at(old_out, 16, j));
                } else {
                    assert(block_at(out@, 16, j) =~= cseq);
                }
            }
            assert forall|j: int| 0 <= j < k + 1 implies aes128_dec_spec(
                key@,
                #[trigger] block_at(out@, 16, j),
            ) == xor_zip(block_at(plain, 16, j), cbc_prev(out@, iv@, j)) by {
                if j < k {
                    assert(block_at(out@, 16, j) =~= block_at(old_out, 16, j));
                    if j > 0 {
                        assert(block_at(out@, 16, j - 1) =~= block_at(old_out, 16, j - 1));
                    }
                    assert(cbc_prev(out@, iv@, j) == cbc_prev(old_out, iv@, j));
                } else {
                    assert(block_at(out@, 16, j) =~= cseq);
                    assert(aes128_dec_spec(key@, cseq) == x@);
                    if j > 0 {
                        assert(block_at(out@, 16, j - 1) =~= block_at(old_out, 16, j - 1));
                    }
                    assert(cbc_prev(out@, iv@, j) == prev_in);
                }
            }
        }
        k = k + 1;
    }
    proof {
        lemma_cbc_encrypt_finish(key@, plain, iv@, out@, nblocks as int);
    }
    Ok(out)
}

/// A buffer whose blocks follow the CBC chaining relation, and whose blocks
/// decipher back to it, is the CBC ciphertext and deciphers to the plaintext.
proof fn lemma_cbc_encrypt_finish(key: Seq<u8>, plain: Seq<u8>, iv: Seq<u8>, out: Seq<u8>, nblocks: int)
    requires
        plain.len() == nblocks * 16,
        out.len() == plain.len(),
        forall|j: int|
            0 <= j < nblocks ==> #[trigger] block_at(out, 16, j) == cbc_cipher_block(
                key,
                plain,
                iv,
                j,
            ),
        forall|j: int|
            0 <= j < nblocks ==> aes128_dec_spec(key, #[trigger] block_at(out, 16, j)) == xor_zip(
                block_at(plain, 16, j),
                cbc_prev(out, iv, j),
            ),
    ensures
        out == cbc_cipher_spec(key, plain, iv),
        cbc_plain_spec(key, out, iv) == plain,
{
    assert forall|i: int| 0 <= i < plain.len() implies out[i] == cbc_cipher_spec(
        key,
        plain,
        iv,
    )[i] by {
        let j = i / 16;
        let m = i % 16;
        lemma_block_index(j, m);
        assert(0 <= j < nblocks) by (nonlinear_arith)
            requires
                0 <= i < nblocks * 16,
                j == i / 16,
                m == i % 16,
                i == 16 * j + m,
                0 <= m < 16,
        ;
        assert(block_at(out, 16, j)[m] == out[i]);
    }
    assert(out =~= cbc_cipher_spec(key, plain, iv));
    assert forall|i: int| 0 <= i < plain.len() implies cbc_plain_spec(key, out, iv)[i] == plain[i] by {
        let j = i / 16;
        let m = i % 16;
        lemma_block_index(j, m);
        assert(0 <= j < nblocks) by (nonlinear_arith)
            requires
                0 <= i < nblocks * 16,
                j == i / 16,
                m == i % 16,
                i == 16 * j + m,
                0 <= m < 16,
        ;
        assert(aes128_dec_spec(key, block_at(out, 16, j)) == xor_zip(
            block_at(plain, 16, j),
            cbc_prev(out, iv, j),
        ));
        assert(block_at(plain, 16, j)[m] == plain[i]);
        crate::bytes::lemma_xor_cancel(plain[i], cbc_prev(out, iv, j)[m]);
    }
    assert(cbc_plain_spec(key, out, iv) =~= plain);
}

/// Decipher `ciphertext` under AES-128 CBC.
pub fn decrypt_cbc(ciphertext: &[u8], key: &[u8], iv: &[u8]) -> (r: Result<
    Vec<u8>,
    CipherError,
>)
    requires
        key@.len() == iv@.len(),
        key@.len() >= 1,
        ciphertext@.len() % key@.len() == 0,
    ensures
        key@.len() == 16 ==> r is Ok && r->Ok_0@ == cbc_plain_spec(key@, ciphertext@, iv@)
            && r->Ok_0@.len() == ciphertext@.len(),
        key@.len() != 16 && ciphertext@.len() > 0 ==> r == Err::<Vec<u8>, CipherError>(
            CipherError::InvalidLength,
        ),
        key@.len() != 16 && ciphertext@.len() == 0 ==> r is Ok && r->Ok_0@.len() == 0,
{
    if ciphertext.len() == 0 {
        let r: Vec<u8> = Vec::new();
        assert(r@ =~= cbc_plain_spec(key@, ciphertext@, iv@));
        return Ok(r);
    }
    if key.len() != 16 {
        return Err(CipherError::InvalidLength);
    }
    let ghost ct = ciphertext@;
    let mut out: Vec<u8> = Vec::new();
    let mut k: usize = 0;
    let nblocks = ciphertext.len() / 16;
    proof {
        vstd::arithmetic::div_mod::lemma_fundamental_div_mod(ct.len() as int, 16);
    }
    while k < nblocks
        invariant
            key@.len() == 16,
            iv@.len() == 16,
            nblocks == ct.len() as int / 16,
            ct.len() == nblocks * 16,
            ct.len() <= usize::MAX,
            ct == ciphertext@,
            k <= nblocks,
            out@.len() == k * 16,
            forall|i: int| 0 <= i < k * 16 ==> out@[i] == cbc_plain_spec(key@, ct, iv@)[i],
        decreases nblocks - k,
    {
        proof {
            assert(k * 16 + 16 == (k + 1) * 16) by (nonlinear_arith);
            assert((k + 1) * 16 <= nblocks * 16) by (nonlinear_arith)
                requires
                    k + 1 <= nblocks,
            ;
            assert(k * 16 + 16 <= ct.len());
        }
        let ghost old_out = out@;
        let cblock = vstd::slice::slice_subrange(ciphertext, k * 16, k * 16 + 16);
        let d = aes128_decrypt_block(key, cblock);
        let prev: &[u8] = if k == 0 {
            iv
        } else {
            vstd::slice::slice_subrange(ciphertext, k * 16 - 16, k * 16)
        };
        assert(prev@ == cbc_prev(ct, iv@, k as int)) by {
            if k > 0 {
                assert(prev@ =~= block_at(ct, 16, k as int - 1));
            }
        }
        let mut p = crate::bytes::inplace_xor(d, prev);
        out.append(&mut p);
        proof {
            assert forall|i: int| 0 <= i < (k + 1) * 16 implies out@[i] == cbc_plain_spec(
                key@,
                ct,
                iv@,
            )[i] by {
                if i >= k * 16 {
                    let m = i - k * 16;
                    lemma_block_index(k as int, m);
                    assert(i / 16 == k as int && i % 16 == m);
                    assert(out@[i] == aes128_dec_spec(key@, block_at(ct, 16, k as int))[m]
                        ^ cbc_prev(ct, iv@, k as int)[m]);
                }
            }
        }
        k = k + 1;
    }
    assert(out@ =~= cbc_plain_spec(key@, ct, iv@));
    Ok(out)
}

} // verus!
