//! Locating the hidden prefix an oracle writes before attacker input.
//! Four probe blocks of a constant guarantee two aligned identical blocks
//! whatever the prefix phase; shrinking filler then pins the prefix's last
//! partial block to the byte.

use vstd::prelude::*;
use crate::oracle::{
    EncryptionOracle, AttackError, OracleError, oracle_plain, oracle_bounds, oracle_total,
    lemma_oracle_ecb_output,
};
use crate::aes::block_at;
use crate::bytes::{fill_vec, eq_bytes, pkcs7_pad};
use crate::detect::zeros;
use crate::ecb_attack::lemma_pad_block;

verus! {

/// All-one bytes: the constant the prefix probes are made of.
pub open spec fn ones(n: nat) -> Seq<u8> {
    Seq::new(n, |i: int| 1u8)
}

/// What the oracle enciphers for a probe of `count` ones.
pub open spec fn probe_msg(p: Seq<u8>, sfx: Seq<u8>, count: int) -> Seq<u8> {
    p + ones(count as nat) + sfx
}

/// The block index at which two adjacent probe blocks first coincide: the
/// first block past the prefix made of probe bytes alone.
pub open spec fn repeat_idx(pl: int, b: int) -> int {
    if pl % b == 0 {
        pl / b
    } else {
        pl / b + 1
    }
}

/// The filler count at which the two blocks watched in the second phase
/// coincide: what the prefix's partial block is missing.
pub open spec fn align_pad(pl: int, b: int) -> int {
    if pl % b == 0 {
        0
    } else {
        b - pl % b
    }
}

/// A prefix and suffix the locator can see through: no two identical
/// adjacent prefix blocks, no probe byte inside the prefix, and a suffix
/// that does not begin with the probe byte.
pub open spec fn prefix_clean(p: Seq<u8>, sfx: Seq<u8>, b: int) -> bool {
    &&& forall|k: int|
        0 <= k && (k + 2) * b <= p.len() ==> #[trigger] p.subrange(k * b, (k + 1) * b)
            != p.subrange((k + 1) * b, (k + 2) * b)
    &&& forall|j: int| 0 <= j < p.len() ==> p[j] != 1
    &&& sfx.len() >= 1
    &&& sfx[0] != 1
}

/// In the four-block probe message, adjacent blocks `i` and `i + 1`
/// coincide exactly at the repeat index.
proof fn lemma_phase1(p: Seq<u8>, sfx: Seq<u8>, b: int, i: int)
    requires
        prefix_clean(p, sfx, b),
        1 <= b,
        0 <= i <= repeat_idx(p.len() as int, b),
    ensures
        ({
            let msg = probe_msg(p, sfx, 4 * b);
            (block_at(msg, b as nat, i) == block_at(msg, b as nat, i + 1)) <==> (i == repeat_idx(
                p.len() as int,
                b,
            ))
        }),
{
    let pl = p.len() as int;
    let f = pl / b;
    let s = pl % b;
    let ex = repeat_idx(pl, b);
    let msg = probe_msg(p, sfx, 4 * b);
    vstd::arithmetic::div_mod::lemma_fundamental_div_mod(pl, b);
    vstd::arithmetic::div_mod::lemma_mod_bound(pl, b);
    assert(f >= 0) by (nonlinear_arith)
        requires
            f == pl / b,
            pl >= 0,
            b >= 1,
    ;
    assert(f * b + b == (f + 1) * b && (f + 1) * b + b == (f + 2) * b && (f + 2) * b + b == (f + 3)
        * b && (f + 3) * b + b == (f + 4) * b) by (nonlinear_arith);
    assert(msg.len() == pl + 4 * b + sfx.len());
    if i == ex {
        // both blocks sit wholly inside the run of ones
        assert(ex * b >= pl && (ex + 2) * b <= pl + 4 * b);
        assert forall|j: int| 0 <= j < b implies #[trigger] block_at(msg, b as nat, ex)[j] == 1u8
            && block_at(msg, b as nat, ex + 1)[j] == 1u8 by {
            assert(msg[ex * b + j] == 1u8);
            assert(msg[(ex + 1) * b + j] == 1u8);
        }
        assert(block_at(msg, b as nat, ex) =~= block_at(msg, b as nat, ex + 1));
    } else {
        // a block before the repeat index still shows prefix bytes
        assert(i < ex);
        assert(i * b < pl) by {
            if s == 0 {
                assert(i + 1 <= f);
                assert((i + 1) * b <= f * b) by (nonlinear_arith)
                    requires
                        i + 1 <= f,
                        b >= 1,
                ;
                assert(i * b + b == (i + 1) * b) by (nonlinear_arith);
            } else {
                assert(i <= f);
                assert(i * b <= f * b) by (nonlinear_arith)
                    requires
                        i <= f,
                        b >= 1,
                ;
            }
        }
        assert(i * b + b == (i + 1) * b && (i + 1) * b + b == (i + 2) * b) by (nonlinear_arith);
        assert((i + 2) * b <= (ex + 1) * b) by (nonlinear_arith)
            requires
                i + 1 <= ex,
                b >= 1,
        ;
        assert((ex + 1) * b <= pl + 4 * b);
        if (i + 2) * b <= pl {
            // two whole prefix blocks: distinct by assumption
            assert(block_at(msg, b as nat, i) =~= p.subrange(i * b, (i + 1) * b));
            assert(block_at(msg, b as nat, i + 1) =~= p.subrange((i + 1) * b, (i + 2) * b));
            assert(block_at(msg, b as nat, i) != block_at(msg, b as nat, i + 1));
        } else if (i + 1) * b >= pl {
            // the next block is all ones; this one opens with a prefix byte
            assert(msg[i * b] == p[i * b]);
            assert(p[i * b] != 1u8);
            assert(msg[(i + 1) * b] == 1u8);
            assert(block_at(msg, b as nat, i)[0] != block_at(msg, b as nat, i + 1)[0]);
        } else {
            // the next block straddles the prefix edge: at the offset where
            // it turns to ones, this block still shows a prefix byte
            let j = pl - (i + 1) * b;
            assert(0 < j < b);
            assert(b <= (i + 1) * b) by (nonlinear_arith)
                requires
                    0 <= i,
                    b >= 1,
            ;
            assert(msg[(i + 1) * b + j] == 1u8);
            assert(i * b + j == pl - b);
            assert(0 <= pl - b < pl);
            assert(msg[i * b + j] == p[pl - b]);
            assert(p[pl - b] != 1u8);
            assert(block_at(msg, b as nat, i)[j] != block_at(msg, b as nat, i + 1)[j]);
        }
    }
}

/// In the second phase, with `pad` filler ones before two whole probe
/// blocks, the two watched blocks coincide exactly at the aligning count.
proof fn lemma_phase2(p: Seq<u8>, sfx: Seq<u8>, b: int, pad: int)
    requires
        prefix_clean(p, sfx, b),
        1 <= b <= 255,
        0 <= pad <= align_pad(p.len() as int, b),
    ensures
        ({
            let plain = pkcs7_pad(probe_msg(p, sfx, 2 * b + pad), b as nat);
            let ex = repeat_idx(p.len() as int, b);
            &&& (ex + 2) * b <= plain.len()
            &&& ((block_at(plain, b as nat, ex) == block_at(plain, b as nat, ex + 1)) <==> (pad
                == align_pad(p.len() as int, b)))
        }),
{
    let pl = p.len() as int;
    let f = pl / b;
    let s = pl % b;
    let ex = repeat_idx(pl, b);
    let ap = align_pad(pl, b);
    let msg = probe_msg(p, sfx, 2 * b + pad);
    let plain = pkcs7_pad(msg, b as nat);
    vstd::arithmetic::div_mod::lemma_fundamental_div_mod(pl, b);
    vstd::arithmetic::div_mod::lemma_mod_bound(pl, b);
    assert(f >= 0) by (nonlinear_arith)
        requires
            f == pl / b,
            pl >= 0,
            b >= 1,
    ;
    assert(f * b + b == (f + 1) * b && (f + 1) * b + b == (f + 2) * b && (f + 2) * b + b == (f + 3)
        * b) by (nonlinear_arith);
    assert(msg.len() == pl + 2 * b + pad + sfx.len());
    assert(plain.len() == msg.len() + crate::bytes::pad_len(msg.len(), b as nat));
    vstd::arithmetic::div_mod::lemma_mod_bound(msg.len() as int, b);
    // the padded message reaches past the two watched blocks
    assert((ex + 2) * b <= plain.len()) by {
        if s == 0 {
            assert((ex + 2) * b == pl + 2 * b);
        } else {
            // everything after the prefix's whole blocks is a positive
            // multiple of the block size
            let rest = plain.len() - (f + 2) * b;
            assert(plain.len() % (b as nat) == 0) by {
                let q2 = msg.len() as int / b;
                vstd::arithmetic::div_mod::lemma_fundamental_div_mod(msg.len() as int, b);
                assert((q2 + 1) * b == b * q2 + b) by (nonlinear_arith);
                assert(msg.len() + (b - msg.len() as int % b) == (q2 + 1) * b);
                vstd::arithmetic::div_mod::lemma_mod_multiples_basic(q2 + 1, b);
            }
            assert(rest == plain.len() - (f + 2) * b);
            assert(rest >= s + sfx.len() + 1) by {
                assert(plain.len() >= msg.len() + 1);
                assert((f + 2) * b == pl - s + 2 * b);
                assert(pad >= 0);
            }
            assert(rest % b == 0) by {
                let qp = plain.len() as int / b;
                vstd::arithmetic::div_mod::lemma_fundamental_div_mod(plain.len() as int, b);
                assert(rest == (qp - (f + 2)) * b) by (nonlinear_arith)
                    requires
                        plain.len() == b * qp + (plain.len() as int % b),
                        plain.len() as int % b == 0,
                        rest == plain.len() - (f + 2) * b,
                ;
                vstd::arithmetic::div_mod::lemma_mod_multiples_basic(qp - (f + 2), b);
            }
            assert(rest >= b) by {
                if rest < b {
                    vstd::arithmetic::div_mod::lemma_small_mod(rest as nat, b as nat);
                }
            }
            assert((ex + 2) * b == (f + 3) * b == (f + 2) * b + b);
        }
    }
    if pad == ap {
        // both watched blocks sit wholly in the run of ones
        assert(ex * b >= pl && (ex + 2) * b <= pl + 2 * b + pad) by {
            if s == 0 {
                assert(ex * b == pl);
            } else {
                assert(ex * b == pl - s + b);
                assert((ex + 2) * b == pl - s + 3 * b && pad == b - s);
            }
        }
        assert forall|j: int| 0 <= j < b implies #[trigger] block_at(plain, b as nat, ex)[j] == 1u8
            && block_at(plain, b as nat, ex + 1)[j] == 1u8 by {
            assert(plain[ex * b + j] == msg[ex * b + j]);
            assert(msg[ex * b + j] == 1u8);
            assert(plain[(ex + 1) * b + j] == msg[(ex + 1) * b + j]);
            assert(msg[(ex + 1) * b + j] == 1u8);
        }
        assert(block_at(plain, b as nat, ex) =~= block_at(plain, b as nat, ex + 1));
    } else {
        // too little filler: where the first watched block still shows a
        // one, the second already shows the suffix's first byte
        assert(s != 0 && pad < b - s);
        let j = s + pad;
        assert(0 < j < b);
        assert(ex == f + 1);
        assert((ex) * b + j == pl + b + pad);
        assert(pl <= pl + b + pad < pl + 2 * b + pad);
        assert(plain[ex * b + j] == msg[ex * b + j]);
        assert(msg[pl + b + pad] == 1u8);
        assert((ex + 1) * b + j == pl + 2 * b + pad);
        assert(plain[(ex + 1) * b + j] == msg[pl + 2 * b + pad]);
        assert(msg[pl + 2 * b + pad] == sfx[0]);
        assert(block_at(plain, b as nat, ex)[j] != block_at(plain, b as nat, ex + 1)[j]);
    }
}

/// Find the length of the oracle's hidden prefix: four probe blocks reveal
/// the first block boundary past it, then shrinking filler pins the byte
/// offset. Exact for any prefix free of probe bytes and of repeated
/// adjacent blocks, and any suffix not opening with the probe byte.
pub fn find_prefix_len<O: EncryptionOracle>(oracle_fn: &O, blocksize: usize) -> (r: Result<
    usize,
    AttackError,
>)
    requires
        oracle_fn.wf(),
        oracle_bounds(oracle_fn),
        oracle_total(oracle_fn),
        oracle_fn.ecb_mode(),
        blocksize == oracle_fn.blocksize(),
        prefix_clean(oracle_fn.prefix(), oracle_fn.suffix(), oracle_fn.blocksize() as int),
    ensures
        r == Ok::<usize, AttackError>(oracle_fn.prefix().len() as usize),
{
    let ghost p = oracle_fn.prefix();
    let ghost sfx = oracle_fn.suffix();
    let ghost b = oracle_fn.blocksize() as int;
    let ghost pl = p.len() as int;
    let ghost ex = repeat_idx(pl, b);
    let ghost ap = align_pad(pl, b);
    proof {
        vstd::arithmetic::div_mod::lemma_fundamental_div_mod(pl, b);
        vstd::arithmetic::div_mod::lemma_mod_bound(pl, b);
        assert(pl / b >= 0) by (nonlinear_arith)
            requires
                pl >= 0,
                b >= 1,
        ;
    }

    // phase one: four whole blocks of ones, scan for the first repeat
    let probe = fill_vec(4 * blocksize, 1);
    assert(probe@ =~= ones((4 * b) as nat));
    let c = match oracle_fn.encrypt(probe.as_slice()) {
        Ok(c) => c,
        Err(_) => {
            proof {
                assert(false);
            }
            return Err(AttackError::Oracle);
        },
    };
    let ghost msg1 = probe_msg(p, sfx, 4 * b);
    let ghost plain1 = oracle_plain(oracle_fn, probe@);
    proof {
        assert(p + probe@ + sfx =~= msg1);
        lemma_oracle_ecb_output(oracle_fn, probe@, c@);
        assert(c@.len() == plain1.len());
        assert(plain1.len() >= msg1.len());
        lemma_phase1(p, sfx, b, 0);
        assert((ex + 2) * b <= pl + 4 * b) by {
            if pl % b == 0 {
                assert((ex + 2) * b == pl + 2 * b) by (nonlinear_arith)
                    requires
                        ex == pl / b,
                        pl == b * (pl / b),
                ;
            } else {
                assert((ex + 2) * b == (pl / b) * b + 3 * b && (pl / b) * b >= 0) by (
                nonlinear_arith)
                    requires
                        ex == pl / b + 1,
                        pl / b >= 0,
                        b >= 1,
                ;
                assert((pl / b) * b <= pl) by (nonlinear_arith)
                    requires
                        pl == b * (pl / b) + pl % b,
                        pl % b >= 0,
                ;
            }
        }
    }
    let mut i: usize = 0;
    proof {
        assert(0 * b == 0) by (nonlinear_arith);
        assert(1 * b == b) by (nonlinear_arith);
        assert(2 * b == b + b) by (nonlinear_arith);
    }
    let block_i = vstd::slice::slice_subrange(c.as_slice(), 0, blocksize);
    let block_i1 = vstd::slice::slice_subrange(c.as_slice(), blocksize, 2 * blocksize);
    let mut matched = eq_bytes(block_i, block_i1);
    proof {
        assert(block_i@ =~= block_at(c@, b as nat, 0));
        assert(block_i1@ =~= block_at(c@, b as nat, 1));
        assert(plain1 == pkcs7_pad(msg1, b as nat));
        assert(2 * b <= (ex + 2) * b) by (nonlinear_arith)
            requires
                ex >= 0,
                b >= 1,
        ;
        assert((ex + 2) * b <= c@.len());
        lemma_pad_block(msg1, b as nat, 0);
        lemma_pad_block(msg1, b as nat, 1);
        lemma_cipher_pair(oracle_fn, plain1, c@, 0);
        assert(matched <==> 0 == ex);
    }
    while !matched
        invariant
            oracle_fn.wf(),
            oracle_bounds(oracle_fn),
            oracle_total(oracle_fn),
            oracle_fn.ecb_mode(),
            blocksize == b,
            b == oracle_fn.blocksize(),
            p == oracle_fn.prefix(),
            sfx == oracle_fn.suffix(),
            pl == p.len(),
            ex == repeat_idx(pl, b),
            prefix_clean(p, sfx, b),
            1 <= b <= 128,
            0 <= i <= ex,
            (ex + 2) * b <= c@.len(),
            (ex + 2) * b <= pl + 4 * b,
            c@.len() <= usize::MAX,
            plain1 == oracle_plain(oracle_fn, ones((4 * b) as nat)),
            c@ == oracle_fn.full_output(ones((4 * b) as nat)),
            crate::oracle::oracle_ecb_rel(oracle_fn, plain1, c@),
            plain1.len() == c@.len(),
            msg1 == probe_msg(p, sfx, 4 * b),
            plain1 == pkcs7_pad(msg1, b as nat),
            matched <==> i == ex,
        decreases ex - i,
    {
        i = i + 1;
        proof {
            assert(i * b + b == (i + 1) * b && (i + 1) * b + b == (i + 2) * b) by (
            nonlinear_arith);
            assert((i + 2) * b <= (ex + 2) * b) by (nonlinear_arith)
                requires
                    i <= ex,
                    b >= 1,
            ;
            assert(i * b >= 0) by (nonlinear_arith)
                requires
                    i >= 0,
                    b >= 1,
            ;
        }
        let bi = vstd::slice::slice_subrange(c.as_slice(), i * blocksize, i * blocksize
            + blocksize);
        let bi1 = vstd::slice::slice_subrange(
            c.as_slice(),
            (i + 1) * blocksize,
            (i + 1) * blocksize + blocksize,
        );
        matched = eq_bytes(bi, bi1);
        proof {
            assert(bi@ =~= block_at(c@, b as nat, i as int));
            assert(bi1@ =~= block_at(c@, b as nat, i as int + 1));
            assert((i + 2) * b <= pl + 4 * b);
            assert(pl + 4 * b <= msg1.len());
            lemma_pad_block(msg1, b as nat, i as int);
            lemma_pad_block(msg1, b as nat, i as int + 1);
            lemma_phase1(p, sfx, b, i as int);
            lemma_cipher_pair(oracle_fn, plain1, c@, i as int);
            assert(matched <==> i == ex);
        }
    }
    let prefix_blocks = i;

    // phase two: shrink the filler until the watched pair coincides
    let mut pad_count: usize = 0;
    while pad_count < blocksize
        invariant
            oracle_fn.wf(),
            oracle_bounds(oracle_fn),
            oracle_total(oracle_fn),
            oracle_fn.ecb_mode(),
            blocksize == b,
            b == oracle_fn.blocksize(),
            p == oracle_fn.prefix(),
            sfx == oracle_fn.suffix(),
            pl == p.len(),
            ex == repeat_idx(pl, b),
            ap == align_pad(pl, b),
            prefix_clean(p, sfx, b),
            1 <= b <= 128,
            prefix_blocks == ex,
            0 <= ap < b,
            0 <= pad_count <= ap,
        decreases ap - pad_count,
    {
        let probe2 = fill_vec(2 * blocksize + pad_count, 1);
        assert(probe2@ =~= ones((2 * b + pad_count) as nat));
        let c2 = match oracle_fn.encrypt(probe2.as_slice()) {
            Ok(c2) => c2,
            Err(_) => {
                proof {
                    assert(false);
                }
                return Err(AttackError::Oracle);
            },
        };
        let ghost msg2 = probe_msg(p, sfx, 2 * b + pad_count);
        let ghost plain2 = pkcs7_pad(msg2, b as nat);
        proof {
            vstd::arithmetic::div_mod::lemma_fundamental_div_mod(pl, b);
            vstd::arithmetic::div_mod::lemma_mod_bound(pl, b);
            assert(pl / b >= 0) by (nonlinear_arith)
                requires
                    pl >= 0,
                    b >= 1,
            ;
            assert(p + probe2@ + sfx =~= msg2);
            lemma_oracle_ecb_output(oracle_fn, probe2@, c2@);
            assert(oracle_plain(oracle_fn, probe2@) == plain2);
            assert(c2@.len() == plain2.len());
            lemma_phase2(p, sfx, b, pad_count as int);
            assert((ex + 2) * b <= c2@.len());
            assert(ex * b + b == (ex + 1) * b && (ex + 1) * b + b == (ex + 2) * b) by (
            nonlinear_arith);
            assert(ex * b >= 0) by (nonlinear_arith)
                requires
                    ex >= 0,
                    b >= 1,
            ;
        }
        let bi = vstd::slice::slice_subrange(
            c2.as_slice(),
            prefix_blocks * blocksize,
            prefix_blocks * blocksize + blocksize,
        );
        let bi1 = vstd::slice::slice_subrange(
            c2.as_slice(),
            (prefix_blocks + 1) * blocksize,
            (prefix_blocks + 1) * blocksize + blocksize,
        );
        let matched2 = eq_bytes(bi, bi1);
        proof {
            assert(bi@ =~= block_at(c2@, b as nat, ex));
            assert(bi1@ =~= block_at(c2@, b as nat, ex + 1));
            lemma_cipher_pair(oracle_fn, plain2, c2@, prefix_blocks as int);
            assert(matched2 <==> pad_count == ap);
        }
        if matched2 {
            proof {
                if pl % b == 0 {
                    assert(ex * b == pl) by (nonlinear_arith)
                        requires
                            ex == pl / b,
                            pl == b * (pl / b),
                    ;
                } else {
                    assert(ex * b - ap == pl && ex * b >= ap) by (nonlinear_arith)
                        requires
                            ex == pl / b + 1,
                            ap == b - pl % b,
                            pl == b * (pl / b) + pl % b,
                            pl / b >= 0,
                            0 < pl % b < b,
                    ;
                }
                assert(prefix_blocks * blocksize - pad_count == pl);
            }
            return Ok(prefix_blocks * blocksize - pad_count);
        }
        pad_count = pad_count + 1;
    }
    proof {
        assert(false);
    }
    Err(AttackError::DetectionFailed)
}

/// Two cipher blocks of one answer coincide exactly when the plaintext
/// blocks under them do: `enc_block` forward, `dec_block` back.
proof fn lemma_cipher_pair<O: EncryptionOracle>(o: &O, plain: Seq<u8>, c: Seq<u8>, i: int)
    requires
        crate::oracle::oracle_ecb_rel(o, plain, c),
        0 <= i,
        (i + 2) * o.blocksize() <= c.len(),
    ensures
        (block_at(c, o.blocksize(), i) == block_at(c, o.blocksize(), i + 1)) <==> (block_at(
            plain,
            o.blocksize(),
            i,
        ) == block_at(plain, o.blocksize(), i + 1)),
{
    let b = o.blocksize() as int;
    assert((i + 1) * b <= (i + 2) * b) by (nonlinear_arith)
        requires
            b >= 0,
    ;
    assert(block_at(c, o.blocksize(), i) == o.enc_block(block_at(plain, o.blocksize(), i)));
    assert(o.dec_block(block_at(c, o.blocksize(), i)) == block_at(plain, o.blocksize(), i));
    assert(block_at(c, o.blocksize(), i + 1) == o.enc_block(block_at(plain, o.blocksize(), i + 1)));
    assert(o.dec_block(block_at(c, o.blocksize(), i + 1)) == block_at(plain, o.blocksize(), i + 1));
}

/// Repeated location answers repeat: the locator's contract pins its
/// answer to the hidden prefix's length, so any two runs against the same
/// oracle agree.
pub proof fn lemma_find_prefix_len_idempotent<O: EncryptionOracle>(
    oracle_fn: &O,
    r1: Result<usize, AttackError>,
    r2: Result<usize, AttackError>,
)
    requires
        r1 == Ok::<usize, AttackError>(oracle_fn.prefix().len() as usize),
        r2 == Ok::<usize, AttackError>(oracle_fn.prefix().len() as usize),
    ensures
        r1 == r2,
{
}

/// How many filler bytes round the hidden prefix up to whole blocks.
pub open spec fn round_up_len(pl: int, b: int) -> int {
    (b - pl % b) % b
}

/// Stripping the rounded-up prefix from the padded plaintext leaves
/// exactly the padded prefix-free plaintext: the tail bytes agree, and so
/// do the padding lengths, since whole blocks vanished.
proof fn lemma_adapter_plain(ip: Seq<u8>, data: Seq<u8>, sfx: Seq<u8>, b: int)
    requires
        1 <= b <= 255,
    ensures
        ({
            let k = round_up_len(ip.len() as int, b);
            let c = ip.len() + k;
            &&& 0 <= k < b
            &&& c % b == 0
            &&& pkcs7_pad(Seq::<u8>::empty() + data + sfx, b as nat) == pkcs7_pad(
                ip + (zeros(k as nat) + data) + sfx,
                b as nat,
            ).skip(c)
        }),
{
    let pl = ip.len() as int;
    let k = round_up_len(pl, b);
    let c = pl + k;
    vstd::arithmetic::div_mod::lemma_fundamental_div_mod(pl, b);
    vstd::arithmetic::div_mod::lemma_mod_bound(pl, b);
    let q = pl / b;
    assert(q >= 0) by (nonlinear_arith)
        requires
            q == pl / b,
            pl >= 0,
            b >= 1,
    ;
    if pl % b == 0 {
        vstd::arithmetic::div_mod::lemma_mod_self_0(b);
        assert(k == 0);
        assert(c == b * q);
        assert(c % b == 0) by {
            assert(b * q == q * b) by (nonlinear_arith);
            vstd::arithmetic::div_mod::lemma_mod_multiples_basic(q, b);
        }
    } else {
        vstd::arithmetic::div_mod::lemma_small_mod((b - pl % b) as nat, b as nat);
        assert(k == b - pl % b);
        assert(c == b * q + b);
        assert(c % b == 0) by {
            assert(b * q + b == (q + 1) * b) by (nonlinear_arith);
            vstd::arithmetic::div_mod::lemma_mod_multiples_basic(q + 1, b);
        }
    }
    let my_msg = Seq::<u8>::empty() + data + sfx;
    let in_msg = ip + (zeros(k as nat) + data) + sfx;
    assert(in_msg.len() == c + my_msg.len());
    let lm = my_msg.len() as int;
    assert(in_msg.len() as int % b == lm % b) by {
        vstd::arithmetic::div_mod::lemma_add_mod_noop(c, lm, b);
        vstd::arithmetic::div_mod::lemma_mod_twice(lm, b);
    }
    assert(crate::bytes::pad_len(in_msg.len(), b as nat) == crate::bytes::pad_len(
        my_msg.len(),
        b as nat,
    ));
    let my_plain = pkcs7_pad(my_msg, b as nat);
    let in_plain = pkcs7_pad(in_msg, b as nat);
    assert(in_plain.len() == c + my_plain.len());
    assert forall|x: int| 0 <= x < my_plain.len() implies my_plain[x] == in_plain[c + x] by {
        if x < lm {
            assert(my_plain[x] == my_msg[x]);
            assert(in_plain[c + x] == in_msg[c + x]);
            if x < data.len() {
                assert(my_msg[x] == data[x]);
                assert(in_msg[c + x] == (zeros(k as nat) + data)[k + x]);
            } else {
                assert(my_msg[x] == sfx[x - data.len()]);
                assert(in_msg[c + x] == sfx[c + x - ip.len() - (k + data.len())]);
            }
        }
    }
    assert(my_plain =~= in_plain.skip(c));
}

/// A block of the tail left after dropping `d` whole blocks is the block
/// `d` further in.
proof fn lemma_skip_block(sq: Seq<u8>, b: nat, d: int, k: int)
    requires
        b >= 1,
        0 <= d,
        0 <= k,
        (d + k + 1) * b <= sq.len(),
    ensures
        block_at(sq.skip(d * b), b, k) == block_at(sq, b, d + k),
{
    assert((d + k) * b == d * b + k * b && (d + k + 1) * b == (d + k) * b + b && k * b + b == (k
        + 1) * b && d * b >= 0 && k * b >= 0) by (nonlinear_arith)
        requires
            0 <= d,
            0 <= k,
            b >= 1,
    ;
    assert(block_at(sq.skip(d * b), b, k) =~= block_at(sq, b, d + k));
}

/// An oracle wrapped so that its hidden prefix disappears: every call
/// rounds the prefix up to whole blocks with filler and strips those
/// blocks from the answer, so downstream attacks see a prefix-free oracle
/// with the same block size, mode and suffix.
pub struct PrefixFreeOracle<O: EncryptionOracle> {
    inner: O,
    prefix_len: usize,
    blocksize: usize,
}

impl<O: EncryptionOracle> PrefixFreeOracle<O> {
    /// Wrap `inner`, whose hidden prefix is `prefix_len` bytes long.
    pub fn new(inner: O, prefix_len: usize, blocksize: usize) -> (r: PrefixFreeOracle<O>)
        requires
            inner.wf(),
            oracle_bounds(&inner),
            inner.input_cap() >= 0x20080,
            prefix_len == inner.prefix().len(),
            blocksize == inner.blocksize(),
        ensures
            r.wf(),
            r.blocksize() == inner.blocksize(),
            r.prefix() == Seq::<u8>::empty(),
            r.suffix() == inner.suffix(),
            r.ecb_mode() == inner.ecb_mode(),
            oracle_bounds(&r),
            oracle_total(&inner) ==> oracle_total(&r),
    {
        let r = PrefixFreeOracle { inner, prefix_len, blocksize };
        proof {
            if oracle_total(&r.inner) {
                assert forall|d: Seq<u8>| #[trigger] r.accepts(d) by {
                    assert(r.inner.accepts(
                        zeros(
                            round_up_len(
                                r.inner.prefix().len() as int,
                                r.inner.blocksize() as int,
                            ) as nat,
                        ) + d,
                    ));
                }
            }
        }
        r
    }
}

impl<O: EncryptionOracle> EncryptionOracle for PrefixFreeOracle<O> {
    closed spec fn wf(&self) -> bool {
        &&& self.inner.wf()
        &&& 1 <= self.inner.blocksize() <= 128
        &&& self.inner.prefix().len() <= 0x10000
        &&& self.inner.suffix().len() <= 0x10000
        &&& self.inner.input_cap() >= 0x20080
        &&& self.prefix_len == self.inner.prefix().len()
        &&& self.blocksize == self.inner.blocksize()
    }

    closed spec fn blocksize(&self) -> nat {
        self.inner.blocksize()
    }

    closed spec fn prefix(&self) -> Seq<u8> {
        Seq::<u8>::empty()
    }

    closed spec fn suffix(&self) -> Seq<u8> {
        self.inner.suffix()
    }

    closed spec fn ecb_mode(&self) -> bool {
        self.inner.ecb_mode()
    }

    closed spec fn enc_block(&self, block: Seq<u8>) -> Seq<u8> {
        self.inner.enc_block(block)
    }

    closed spec fn dec_block(&self, block: Seq<u8>) -> Seq<u8> {
        self.inner.dec_block(block)
    }

    closed spec fn full_output(&self, data: Seq<u8>) -> Seq<u8> {
        let k = round_up_len(self.inner.prefix().len() as int, self.inner.blocksize() as int);
        self.inner.full_output(zeros(k as nat) + data).skip(self.inner.prefix().len() + k)
    }

    closed spec fn accepts(&self, data: Seq<u8>) -> bool {
        let k = round_up_len(self.inner.prefix().len() as int, self.inner.blocksize() as int);
        self.inner.accepts(zeros(k as nat) + data)
    }

    closed spec fn input_cap(&self) -> nat {
        if self.inner.input_cap() >= 128 {
            (self.inner.input_cap() - 128) as nat
        } else {
            0
        }
    }

    fn encrypt(&self, data: &[u8]) -> (r: Result<Vec<u8>, OracleError>) {
        let ghost b = self.inner.blocksize() as int;
        let ghost pl = self.inner.prefix().len() as int;
        let ghost kk = round_up_len(pl, b);
        let round_up_bytes: usize = (self.blocksize - self.prefix_len % self.blocksize)
            % self.blocksize;
        proof {
            vstd::arithmetic::div_mod::lemma_mod_bound(pl, b);
            assert(round_up_bytes == kk);
        }
        let mut padded_data = fill_vec(round_up_bytes, 0);
        let mut d = vstd::slice::slice_to_vec(data);
        padded_data.append(&mut d);
        assert(padded_data@ =~= zeros(kk as nat) + data@);
        let ghost in_msg = self.inner.prefix() + padded_data@ + self.inner.suffix();
        let ghost in_plain = pkcs7_pad(in_msg, b as nat);
        let ghost my_plain = pkcs7_pad(
            Seq::<u8>::empty() + data@ + self.inner.suffix(),
            b as nat,
        );
        proof {
            lemma_adapter_plain(self.inner.prefix(), data@, self.inner.suffix(), b);
            crate::bytes::lemma_pkcs7_pad_len(
                (Seq::<u8>::empty() + data@ + self.inner.suffix()).len(),
                b as nat,
            );
        }
        match self.inner.encrypt(padded_data.as_slice()) {
            Ok(c) => {
                let chop = self.prefix_len + round_up_bytes;
                proof {
                    assert(c@.len() == in_plain.len());
                    assert(my_plain == in_plain.skip(pl + kk));
                    assert(chop == pl + kk);
                    assert(chop <= c@.len());
                }
                let out = vstd::slice::slice_to_vec(
                    vstd::slice::slice_subrange(c.as_slice(), chop, c.len()),
                );
                proof {
                    assert(out@ =~= c@.skip(pl + kk));
                    assert(out@ == self.full_output(data@));
                    assert(out@.len() == my_plain.len());
                    if self.inner.ecb_mode() {
                        let bs = self.inner.blocksize();
                        let cc = pl + kk;
                        vstd::arithmetic::div_mod::lemma_fundamental_div_mod(cc, b);
                        let dd = cc / b;
                        assert(dd >= 0) by (nonlinear_arith)
                            requires
                                dd == cc / b,
                                cc >= 0,
                                b >= 1,
                        ;
                        assert(cc == b * dd);
                        assert(cc == dd * b) by (nonlinear_arith)
                            requires
                                cc == b * dd,
                        ;
                        assert forall|k2: int|
                            0 <= k2 && (k2 + 1) * bs <= out@.len() implies {
                            &&& #[trigger] block_at(out@, bs, k2) == self.enc_block(
                                block_at(my_plain, bs, k2),
                            )
                            &&& self.dec_block(block_at(out@, bs, k2)) == block_at(
                                my_plain,
                                bs,
                                k2,
                            )
                        } by {
                            assert((dd + k2 + 1) * bs == dd * bs + (k2 + 1) * bs) by (
                            nonlinear_arith);
                            assert((dd + k2 + 1) * bs <= c@.len());
                            lemma_skip_block(c@, bs, dd, k2);
                            lemma_skip_block(in_plain, bs, dd, k2);
                            assert(out@ == c@.skip(dd * b));
                            assert(my_plain == in_plain.skip(dd * b));
                            assert(block_at(c@, bs, dd + k2) == self.inner.enc_block(
                                block_at(in_plain, bs, dd + k2),
                            ));
                            assert(self.inner.dec_block(block_at(c@, bs, dd + k2)) == block_at(
                                in_plain,
                                bs,
                                dd + k2,
                            ));
                        }
                    }
                }
                Ok(out)
            },
            Err(_) => {
                proof {
                    assert(!self.inner.accepts(padded_data@));
                }
                Err(OracleError)
            },
        }
    }
}

} // verus!
