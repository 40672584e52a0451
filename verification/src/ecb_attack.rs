//! Byte-at-a-time recovery of an oracle's hidden suffix under an ECB-like
//! mode: align the unknown byte at the end of a block, then try all 256
//! last bytes until the enciphered block matches.

use vstd::prelude::*;
use crate::oracle::{
    EncryptionOracle, AttackError, oracle_plain, oracle_bounds, oracle_total,
    lemma_oracle_ecb_output,
};
use crate::aes::block_at;
use crate::bytes::{fill_vec, eq_bytes};
use crate::detect::zeros;

verus! {

/// Where the byte at position `p` of the suffix lands: with
/// `b - 1 - p % b` filler bytes in front, it is the last byte of block
/// `p / b`, and the block holds only filler and suffix bytes before it.
proof fn lemma_aligned_blocks(s: Seq<u8>, p: int, b: int, g: u8)
    requires
        0 <= p < s.len(),
        1 <= b,
    ensures
        ({
            let sl = b - 1 - p % b;
            let q = p / b;
            &&& sl + p + 1 == (q + 1) * b
            &&& 0 <= sl < b
            &&& 0 <= q
            &&& block_at(zeros(sl as nat) + s, b as nat, q)[b - 1] == s[p]
            &&& block_at(zeros(sl as nat) + s.take(p) + seq![g], b as nat, q)[b - 1] == g
            &&& (g == s[p] ==> block_at(zeros(sl as nat) + s.take(p) + seq![g], b as nat, q)
                == block_at(zeros(sl as nat) + s, b as nat, q))
        }),
{
    let sl = b - 1 - p % b;
    let q = p / b;
    vstd::arithmetic::div_mod::lemma_fundamental_div_mod(p, b);
    vstd::arithmetic::div_mod::lemma_mod_bound(p, b);
    assert(sl + p + 1 == q * b + b);
    assert(q * b + b == (q + 1) * b) by (nonlinear_arith);
    assert(q * b >= 0) by (nonlinear_arith)
        requires
            q >= 0,
            b >= 1,
    ;
    let refmsg = zeros(sl as nat) + s;
    let probemsg = zeros(sl as nat) + s.take(p) + seq![g];
    assert(probemsg.len() == sl + p + 1);
    assert(block_at(refmsg, b as nat, q)[b - 1] == refmsg[q * b + b - 1]);
    assert(refmsg[sl + p] == s[p]);
    assert(block_at(probemsg, b as nat, q)[b - 1] == probemsg[sl + p]);
    assert(probemsg[sl + p] == g);
    if g == s[p] {
        assert forall|j: int| 0 <= j < b implies #[trigger] block_at(probemsg, b as nat, q)[j]
            == block_at(refmsg, b as nat, q)[j] by {
            let i = q * b + j;
            assert(0 <= i <= sl + p);
            if i < sl {
            } else if i < sl + p {
                assert(probemsg[i] == s.take(p)[i - sl]);
                assert(refmsg[i] == s[i - sl]);
            } else {
                assert(i == sl + p);
            }
        }
        assert(block_at(probemsg, b as nat, q) =~= block_at(refmsg, b as nat, q));
    }
}

/// Inside the message, a block of the padded plaintext is a block of the
/// message itself.
pub proof fn lemma_pad_block(m: Seq<u8>, b: nat, q: int)
    requires
        1 <= b,
        0 <= q,
        (q + 1) * b <= m.len(),
    ensures
        block_at(crate::bytes::pkcs7_pad(m, b), b, q) == block_at(m, b, q),
{
    assert(q * b >= 0) by (nonlinear_arith)
        requires
            q >= 0,
            b >= 1,
    ;
    assert(q * b + b == (q + 1) * b) by (nonlinear_arith);
    assert(block_at(crate::bytes::pkcs7_pad(m, b), b, q) =~= block_at(m, b, q));
}

/// Recover the byte of the hidden suffix that comes right after the bytes
/// in `recovered`.
fn recover_byte<O: EncryptionOracle>(oracle_fn: &O, blocksize: usize, recovered: &Vec<u8>) -> (r:
    Result<u8, AttackError>)
    requires
        oracle_fn.wf(),
        oracle_bounds(oracle_fn),
        oracle_total(oracle_fn),
        oracle_fn.ecb_mode(),
        oracle_fn.prefix().len() == 0,
        blocksize == oracle_fn.blocksize(),
        recovered@.len() < oracle_fn.suffix().len(),
        recovered@ == oracle_fn.suffix().take(recovered@.len() as int),
    ensures
        r == Ok::<u8, AttackError>(oracle_fn.suffix()[recovered@.len() as int]),
{
    let ghost s = oracle_fn.suffix();
    let ghost b = oracle_fn.blocksize() as int;
    let p = recovered.len();
    let short_len = blocksize - 1 - (p % blocksize);
    let q = p / blocksize;
    proof {
        lemma_aligned_blocks(s, p as int, b, 0u8);
    }

    // the reference: filler only, so that suffix byte `p` ends block `q`
    let reference = fill_vec(short_len, 0);
    assert(reference@ =~= zeros(short_len as nat));
    let ref_ct = match oracle_fn.encrypt(reference.as_slice()) {
        Ok(c) => c,
        Err(_) => {
            proof {
                assert(false);
            }
            return Err(AttackError::Oracle);
        },
    };
    let ghost refmsg = zeros(short_len as nat) + s;
    let ghost refplain = oracle_plain(oracle_fn, reference@);
    proof {
        assert(oracle_fn.prefix() + reference@ + s =~= refmsg);
        assert(refplain.len() >= refmsg.len());
        lemma_oracle_ecb_output(oracle_fn, reference@, ref_ct@);
        lemma_pad_block(refmsg, b as nat, q as int);
        assert((q + 1) * b <= ref_ct@.len());
        assert(q as int * b + b == (q as int + 1) * b) by (nonlinear_arith);
        assert(q * blocksize + blocksize == short_len + p + 1);
    }
    let ref_block = vstd::slice::slice_to_vec(
        vstd::slice::slice_subrange(ref_ct.as_slice(), q * blocksize, q * blocksize + blocksize),
    );
    proof {
        assert(ref_block@ =~= block_at(ref_ct@, b as nat, q as int));
        assert(block_at(ref_ct@, b as nat, q as int) == oracle_fn.enc_block(
            block_at(refmsg, b as nat, q as int),
        ));
        assert(oracle_fn.dec_block(block_at(ref_ct@, b as nat, q as int)) == block_at(
            refmsg,
            b as nat,
            q as int,
        ));
    }

    // the probe: filler, the recovered bytes, then one candidate byte
    let mut probe = fill_vec(short_len, 0);
    let mut rec = vstd::slice::slice_to_vec(recovered.as_slice());
    probe.append(&mut rec);
    probe.push(0);
    assert(probe@ =~= zeros(short_len as nat) + s.take(p as int) + seq![0u8]);

    let mut gi: usize = 0;
    while gi < 256
        invariant
            oracle_fn.wf(),
            oracle_bounds(oracle_fn),
            oracle_total(oracle_fn),
            oracle_fn.ecb_mode(),
            oracle_fn.prefix().len() == 0,
            blocksize == oracle_fn.blocksize(),
            b == oracle_fn.blocksize(),
            s == oracle_fn.suffix(),
            p == recovered@.len(),
            0 <= p < s.len(),
            short_len == b - 1 - (p as int) % b,
            q == p as int / b,
            probe@.len() == short_len + p + 1,
            probe@.len() == (q + 1) * b,
            probe@.len() == q * b + b,
            probe@.take(probe@.len() - 1) == zeros(short_len as nat) + s.take(p as int),
            ref_block@ == oracle_fn.enc_block(block_at(zeros(short_len as nat) + s, b as nat, q as int)),
            oracle_fn.dec_block(ref_block@) == block_at(zeros(short_len as nat) + s, b as nat, q as int),
            gi <= 256,
            s[p as int] >= gi,
        decreases 256 - gi,
    {
        let g = gi as u8;
        let last = probe.len() - 1;
        probe.set(last, g);
        let ghost probemsg = zeros(short_len as nat) + s.take(p as int) + seq![g];
        assert(probe@ =~= probemsg);
        let ct = match oracle_fn.encrypt(probe.as_slice()) {
            Ok(c) => c,
            Err(_) => {
                proof {
                    assert(false);
                }
                return Err(AttackError::Oracle);
            },
        };
        proof {
            lemma_aligned_blocks(s, p as int, b, g);
            assert(q as int * b + b == (q as int + 1) * b) by (nonlinear_arith);
            assert(oracle_fn.prefix() + probe@ + s =~= probemsg + s);
            lemma_oracle_ecb_output(oracle_fn, probe@, ct@);
            lemma_pad_block(probemsg + s, b as nat, q as int);
            assert(block_at(probemsg + s, b as nat, q as int) =~= block_at(
                probemsg,
                b as nat,
                q as int,
            ));
            assert((q + 1) * b <= ct@.len());
            assert(block_at(ct@, b as nat, q as int) == oracle_fn.enc_block(
                block_at(probemsg, b as nat, q as int),
            ));
            assert(oracle_fn.dec_block(block_at(ct@, b as nat, q as int)) == block_at(
                probemsg,
                b as nat,
                q as int,
            ));
        }
        let ct_block = vstd::slice::slice_subrange(
            ct.as_slice(),
            q * blocksize,
            q * blocksize + blocksize,
        );
        assert(ct_block@ =~= block_at(ct@, b as nat, q as int));
        if eq_bytes(ct_block, ref_block.as_slice()) {
            proof {
                // equal ciphertext blocks decipher to equal plaintext
                // blocks, and those agree exactly when the guess is right
                assert(block_at(probemsg, b as nat, q as int) == block_at(
                    zeros(short_len as nat) + s,
                    b as nat,
                    q as int,
                ));
                assert(block_at(probemsg, b as nat, q as int)[b - 1] == g);
                assert(block_at(zeros(short_len as nat) + s, b as nat, q as int)[b - 1] == s[p as int]);
                assert(g == s[p as int]);
            }
            return Ok(g);
        }
        proof {
            // the right guess would have matched, so this one is wrong
            if g == s[p as int] {
                assert(block_at(probemsg, b as nat, q as int) == block_at(
                    zeros(short_len as nat) + s,
                    b as nat,
                    q as int,
                ));
                assert(false);
            }
        }
        gi = gi + 1;
    }
    proof {
        assert(s[p as int] < 256);
        assert(false);
    }
    Err(AttackError::ByteNotFound { position: p })
}

/// Repeated recovery answers repeat: the recoverer's contract pins its
/// answer to the oracle's hidden suffix, so any two runs against the same
/// oracle agree byte for byte.
pub proof fn lemma_crack_idempotent<O: EncryptionOracle>(oracle_fn: &O, r1: Seq<u8>, r2: Seq<u8>)
    requires
        r1 == oracle_fn.suffix(),
        r2 == oracle_fn.suffix(),
    ensures
        r1 == r2,
{
}

/// Recover the oracle's whole hidden suffix, byte by byte, given the block
/// size and the suffix length: the returned bytes are exactly the suffix.
pub fn crack_ecb_with_known_blocksize_and_suffix<O: EncryptionOracle>(
    oracle_fn: &O,
    blocksize: usize,
    suffix_len: usize,
) -> (r: Result<Vec<u8>, AttackError>)
    requires
        oracle_fn.wf(),
        oracle_bounds(oracle_fn),
        oracle_total(oracle_fn),
        oracle_fn.ecb_mode(),
        oracle_fn.prefix().len() == 0,
        blocksize == oracle_fn.blocksize(),
        suffix_len == oracle_fn.suffix().len(),
    ensures
        r is Ok,
        r->Ok_0@ == oracle_fn.suffix(),
{
    let ghost s = oracle_fn.suffix();
    let mut decrypted_suffix: Vec<u8> = Vec::new();
    while decrypted_suffix.len() < suffix_len
        invariant
            oracle_fn.wf(),
            oracle_bounds(oracle_fn),
            oracle_total(oracle_fn),
            oracle_fn.ecb_mode(),
            oracle_fn.prefix().len() == 0,
            blocksize == oracle_fn.blocksize(),
            suffix_len == oracle_fn.suffix().len(),
            s == oracle_fn.suffix(),
            decrypted_suffix@.len() <= suffix_len,
            decrypted_suffix@ == s.take(decrypted_suffix@.len() as int),
        decreases suffix_len - decrypted_suffix@.len(),
    {
        let next = match recover_byte(oracle_fn, blocksize, &decrypted_suffix) {
            Ok(g) => g,
            Err(e) => {
                proof {
                    assert(false);
                }
                return Err(e);
            },
        };
        decrypted_suffix.push(next);
        assert(decrypted_suffix@ =~= s.take(decrypted_suffix@.len() as int));
    }
    assert(decrypted_suffix@ =~= s);
    Ok(decrypted_suffix)
}

} // verus!
