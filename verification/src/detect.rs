//! Block-size and mode detection: probe an encryption oracle with inputs
//! of growing length and read the block size off the jumps in the
//! ciphertext length; feed it two identical blocks to recognise a
//! block-independent (ECB-like) mode.

use vstd::prelude::*;
use crate::oracle::{EncryptionOracle, AttackError, oracle_plain, oracle_bounds, oracle_total};
use crate::aes::{block_at, encrypt_ecb, encrypt_cbc, CipherError};
use crate::bytes::{fill_vec, eq_bytes, pad, random_bytes, rand_u8};

verus! {

/// The ciphertext length an oracle with `h` hidden bytes answers for a
/// probe of `n` attacker bytes: the message length, PKCS#7-rounded up to
/// the next multiple of `b`.
pub open spec fn probe_out_len(h: int, n: int, b: int) -> int {
    h + n + (b - (h + n) % b)
}

/// How the answered length moves as the probe grows: it stays put until
/// the probe fills the last block, then jumps by one block.
proof fn lemma_probe_phase(h: int, b: int, n: int)
    requires
        0 <= h,
        1 <= b,
        0 <= n <= b - h % b,
    ensures
        n < b - h % b ==> probe_out_len(h, n, b) == probe_out_len(h, 0, b),
        n == b - h % b ==> probe_out_len(h, n, b) == probe_out_len(h, 0, b) + b,
{
    let r0 = h % b;
    vstd::arithmetic::div_mod::lemma_mod_bound(h, b);
    vstd::arithmetic::div_mod::lemma_add_mod_noop(h, n, b);
    if n < b {
        vstd::arithmetic::div_mod::lemma_small_mod(n as nat, b as nat);
    } else {
        assert(n == b && r0 == 0);
        vstd::arithmetic::div_mod::lemma_mod_self_0(b);
    }
    if r0 + n < b {
        vstd::arithmetic::div_mod::lemma_small_mod((r0 + n) as nat, b as nat);
        vstd::arithmetic::div_mod::lemma_mod_twice(h, b);
    } else {
        assert(r0 + (n % b) == if n < b {
            r0 + n
        } else {
            r0
        });
        if n == b - r0 && r0 > 0 {
            vstd::arithmetic::div_mod::lemma_mod_twice(h, b);
            assert((r0 + n) == b);
            vstd::arithmetic::div_mod::lemma_mod_self_0(b);
        }
    }
}

/// One block past the first jump, the answered length jumps again.
proof fn lemma_probe_phase2(h: int, b: int, m: int)
    requires
        0 <= h,
        1 <= b,
        0 <= m <= b,
    ensures
        m < b ==> probe_out_len(h, (b - h % b) + m, b) == probe_out_len(h, 0, b) + b,
        m == b ==> probe_out_len(h, (b - h % b) + m, b) == probe_out_len(h, 0, b) + 2 * b,
{
    let r0 = h % b;
    let i1 = b - r0;
    let q = h / b;
    vstd::arithmetic::div_mod::lemma_mod_bound(h, b);
    vstd::arithmetic::div_mod::lemma_fundamental_div_mod(h, b);
    assert(h + i1 == (q + 1) * b) by (nonlinear_arith)
        requires
            h == q * b + r0,
            i1 == b - r0,
    ;
    if m < b {
        assert((h + i1 + m) % b == m) by {
            vstd::arithmetic::div_mod::lemma_fundamental_div_mod_converse(
                (q + 1) * b + m,
                b,
                q + 1,
                m,
            );
        }
    } else {
        assert((h + i1 + m) % b == 0) by {
            assert((q + 1) * b + b == (q + 2) * b) by (nonlinear_arith);
            vstd::arithmetic::div_mod::lemma_fundamental_div_mod_converse(
                (q + 2) * b,
                b,
                q + 2,
                0,
            );
        }
    }
}

/// Ask the oracle for the ciphertext of `probe` and keep only its length.
fn probe_len<O: EncryptionOracle>(oracle_fn: &O, probe: &Vec<u8>) -> (r: Result<
    usize,
    AttackError,
>)
    requires
        oracle_fn.wf(),
        oracle_bounds(oracle_fn),
        oracle_total(oracle_fn),
        probe@.len() <= 0x10000,
    ensures
        r is Ok,
        r->Ok_0 == probe_out_len(
            oracle_fn.prefix().len() + oracle_fn.suffix().len() as int,
            probe@.len() as int,
            oracle_fn.blocksize() as int,
        ),
{
    let ghost h = oracle_fn.prefix().len() + oracle_fn.suffix().len();
    let ghost b = oracle_fn.blocksize();
    match oracle_fn.encrypt(probe.as_slice()) {
        Ok(c) => {
            proof {
                let msg = oracle_fn.prefix() + probe@ + oracle_fn.suffix();
                assert(msg.len() == h + probe@.len());
                assert(oracle_plain(oracle_fn, probe@).len() == msg.len() + crate::bytes::pad_len(
                    msg.len(),
                    b,
                ));
                vstd::arithmetic::div_mod::lemma_mod_bound(msg.len() as int, b as int);
            }
            Ok(c.len())
        },
        Err(_) => {
            proof {
                assert(oracle_fn.accepts(probe@));
                assert(false);
            }
            Err(AttackError::Oracle)
        },
    }
}

/// Feed the oracle inputs of length 0, 1, 2, … and watch the ciphertext
/// length. The gap between the first jump and the second is exactly the
/// hidden block size.
pub fn find_blocksize<O: EncryptionOracle>(oracle_fn: &O) -> (r: Result<usize, AttackError>)
    requires
        oracle_fn.wf(),
        oracle_bounds(oracle_fn),
        oracle_total(oracle_fn),
    ensures
        r == Ok::<usize, AttackError>(oracle_fn.blocksize() as usize),
{
    let ghost h = oracle_fn.prefix().len() as int + oracle_fn.suffix().len() as int;
    let ghost b = oracle_fn.blocksize() as int;
    let ghost i1 = b - h % b;
    proof {
        vstd::arithmetic::div_mod::lemma_mod_bound(h, b);
    }
    let mut probe: Vec<u8> = Vec::new();
    let initial_size = match probe_len(oracle_fn, &probe) {
        Ok(n) => n,
        Err(e) => {
            proof {
                assert(false);
            }
            return Err(e);
        },
    };
    // walk to the first length jump
    let mut i: usize = 1;
    probe.push(0);
    let mut cur = match probe_len(oracle_fn, &probe) {
        Ok(n) => n,
        Err(e) => {
            proof {
                assert(false);
            }
            return Err(e);
        },
    };
    while cur == initial_size
        invariant
            oracle_fn.wf(),
            oracle_bounds(oracle_fn),
            oracle_total(oracle_fn),
            h == oracle_fn.prefix().len() + oracle_fn.suffix().len(),
            b == oracle_fn.blocksize(),
            i1 == b - h % b,
            1 <= b <= 128,
            0 <= h,
            1 <= i1 <= b,
            probe@.len() == i,
            1 <= i <= i1,
            cur == probe_out_len(h, i as int, b),
            initial_size == probe_out_len(h, 0, b),
        decreases i1 - i,
    {
        proof {
            lemma_probe_phase(h, b, i as int);
        }
        if i >= 512 {
            proof {
                assert(false);
            }
            return Err(AttackError::DetectionFailed);
        }
        i = i + 1;
        probe.push(0);
        cur = match probe_len(oracle_fn, &probe) {
            Ok(n) => n,
            Err(e) => {
                proof {
                    assert(false);
                }
                return Err(e);
            },
        };
    }
    proof {
        lemma_probe_phase(h, b, i as int);
        assert(i == i1);
    }
    let first_overflow = i;
    let second_base = cur;
    // walk to the second length jump, one block later
    while cur == second_base
        invariant
            oracle_fn.wf(),
            oracle_bounds(oracle_fn),
            oracle_total(oracle_fn),
            h == oracle_fn.prefix().len() + oracle_fn.suffix().len(),
            b == oracle_fn.blocksize(),
            i1 == b - h % b,
            1 <= b <= 128,
            0 <= h,
            1 <= i1 <= b,
            first_overflow == i1,
            probe@.len() == i,
            i1 <= i <= i1 + b,
            cur == probe_out_len(h, i as int, b),
            second_base == probe_out_len(h, 0, b) + b,
        decreases i1 + b - i,
    {
        proof {
            lemma_probe_phase2(h, b, i - i1);
        }
        if i >= 512 {
            proof {
                assert(false);
            }
            return Err(AttackError::DetectionFailed);
        }
        i = i + 1;
        probe.push(0);
        cur = match probe_len(oracle_fn, &probe) {
            Ok(n) => n,
            Err(e) => {
                proof {
                    assert(false);
                }
                return Err(e);
            },
        };
    }
    proof {
        lemma_probe_phase2(h, b, i - i1);
        assert(i == i1 + b);
    }
    Ok(i - first_overflow)
}

/// Repeated detection answers repeat: the block-size detector's contract
/// pins its answer to the oracle's hidden block size, so any two runs
/// against the same oracle agree.
pub proof fn lemma_find_blocksize_idempotent<O: EncryptionOracle>(
    oracle_fn: &O,
    r1: Result<usize, AttackError>,
    r2: Result<usize, AttackError>,
)
    requires
        r1 == Ok::<usize, AttackError>(oracle_fn.blocksize() as usize),
        r2 == Ok::<usize, AttackError>(oracle_fn.blocksize() as usize),
    ensures
        r1 == r2,
{
}

/// All-zero bytes.
pub open spec fn zeros(n: nat) -> Seq<u8> {
    Seq::new(n, |i: int| 0u8)
}

/// Feed the oracle two identical blocks and compare the two matching
/// ciphertext blocks: under a block-independent mode they coincide.
/// This is a necessary test, not a sufficient one: a chaining mode could
/// coincide by accident, with negligible probability.
pub fn is_ecb<O: EncryptionOracle>(oracle_fn: &O, blocksize: usize) -> (r: bool)
    requires
        oracle_fn.wf(),
        oracle_bounds(oracle_fn),
        oracle_total(oracle_fn),
        blocksize == oracle_fn.blocksize(),
    ensures
        r == (block_at(oracle_fn.full_output(zeros(2 * oracle_fn.blocksize())), oracle_fn.blocksize(), 0)
            == block_at(oracle_fn.full_output(zeros(2 * oracle_fn.blocksize())), oracle_fn.blocksize(), 1)),
        oracle_fn.ecb_mode() && oracle_fn.prefix().len() == 0 ==> r,
{
    let ghost b = oracle_fn.blocksize();
    let probe = fill_vec(2 * blocksize, 0);
    assert(probe@ =~= zeros(2 * b));
    let c = match oracle_fn.encrypt(probe.as_slice()) {
        Ok(c) => c,
        Err(_) => {
            proof {
                assert(false);
            }
            return false;
        },
    };
    proof {
        let plain = oracle_plain(oracle_fn, probe@);
        assert(plain.len() >= oracle_fn.prefix().len() + 2 * b);
        vstd::arithmetic::div_mod::lemma_mod_bound(
            (oracle_fn.prefix().len() + 2 * b + oracle_fn.suffix().len()) as int,
            b as int,
        );
    }
    let block0 = vstd::slice::slice_subrange(c.as_slice(), 0, blocksize);
    let block1 = vstd::slice::slice_subrange(c.as_slice(), blocksize, 2 * blocksize);
    let r = eq_bytes(block0, block1);
    proof {
        let cv = c@;
        assert(block0@ =~= block_at(cv, b, 0));
        assert(block1@ =~= block_at(cv, b, 1));
        if oracle_fn.ecb_mode() && oracle_fn.prefix().len() == 0 {
            let plain = oracle_plain(oracle_fn, probe@);
            assert(block_at(plain, b, 0) =~= block_at(plain, b, 1));
            assert(block_at(cv, b, 0) == block_at(cv, b, 1));
        }
    }
    r
}

/// With no hidden prefix, the first ciphertext-length jump pins the length
/// of the hidden suffix: the bytes added so far filled the suffix's last
/// block exactly.
pub fn length_of_suffix<O: EncryptionOracle>(oracle_fn: &O, blocksize: usize) -> (r: Result<
    usize,
    AttackError,
>)
    requires
        oracle_fn.wf(),
        oracle_bounds(oracle_fn),
        oracle_total(oracle_fn),
        oracle_fn.prefix().len() == 0,
        blocksize == oracle_fn.blocksize(),
    ensures
        r == Ok::<usize, AttackError>(oracle_fn.suffix().len() as usize),
{
    let ghost h = oracle_fn.suffix().len() as int;
    let ghost b = oracle_fn.blocksize() as int;
    let ghost i1 = b - h % b;
    proof {
        vstd::arithmetic::div_mod::lemma_mod_bound(h, b);
    }
    let mut probe: Vec<u8> = Vec::new();
    let initial_size = match probe_len(oracle_fn, &probe) {
        Ok(n) => n,
        Err(e) => {
            proof {
                assert(false);
            }
            return Err(e);
        },
    };
    let mut i: usize = 1;
    probe.push(1);
    let mut cur = match probe_len(oracle_fn, &probe) {
        Ok(n) => n,
        Err(e) => {
            proof {
                assert(false);
            }
            return Err(e);
        },
    };
    while cur == initial_size
        invariant
            oracle_fn.wf(),
            oracle_bounds(oracle_fn),
            oracle_total(oracle_fn),
            oracle_fn.prefix().len() == 0,
            h == oracle_fn.suffix().len(),
            b == oracle_fn.blocksize(),
            blocksize == b,
            i1 == b - h % b,
            1 <= b <= 128,
            0 <= h,
            1 <= i1 <= b,
            probe@.len() == i,
            1 <= i <= i1,
            cur == probe_out_len(h, i as int, b),
            initial_size == probe_out_len(h, 0, b),
        decreases i1 - i,
    {
        proof {
            lemma_probe_phase(h, b, i as int);
        }
        if i > blocksize {
            proof {
                assert(false);
            }
            return Err(AttackError::DetectionFailed);
        }
        i = i + 1;
        probe.push(1);
        cur = match probe_len(oracle_fn, &probe) {
            Ok(n) => n,
            Err(e) => {
                proof {
                    assert(false);
                }
                return Err(e);
            },
        };
    }
    proof {
        lemma_probe_phase(h, b, i as int);
        assert(i == i1);
        assert(initial_size == h + i1);
    }
    Ok(initial_size - i)
}

/// What the one-shot throwaway-key oracle reports: the ciphertext it
/// produced and which mode it chose, so a caller can check a detector
/// against the truth.
pub struct OracleResults {
    pub ciphertext: Vec<u8>,
    pub is_ecb: bool,
}

/// Encrypt `data` under a key, IV, mode and random 6–10 byte affixes all
/// drawn fresh for this one call: the classic detection exercise. Nothing
/// holds of the result beyond its shape: block-aligned and long enough
/// for the input plus at least 13 hidden bytes.
pub fn oracle(data: &[u8]) -> (r: Result<OracleResults, CipherError>)
    requires
        data@.len() + 64 < usize::MAX,
    ensures
        r is Ok,
        r->Ok_0.ciphertext@.len() >= data@.len() + 13,
        r->Ok_0.ciphertext@.len() % 16 == 0,
{
    let key = random_bytes(16);
    let iv = random_bytes(16);
    let prefix_len = (rand_u8() % 5) as usize + 6;
    let suffix_len = (rand_u8() % 5) as usize + 6;
    let prefix = random_bytes(prefix_len);
    let suffix = random_bytes(suffix_len);

    let mut cleartext: Vec<u8> = Vec::new();
    let mut p = prefix;
    cleartext.append(&mut p);
    let mut d = vstd::slice::slice_to_vec(data);
    cleartext.append(&mut d);
    let mut s = suffix;
    cleartext.append(&mut s);
    let padded = pad(cleartext, 16);

    let use_cbc = rand_u8() % 2 == 0;
    if use_cbc {
        match encrypt_cbc(padded.as_slice(), key.as_slice(), iv.as_slice()) {
            Ok(results) => Ok(OracleResults { ciphertext: results, is_ecb: false }),
            Err(_) => {
                proof {
                    assert(false);
                }
                Err(CipherError::InvalidLength)
            },
        }
    } else {
        match encrypt_ecb(padded.as_slice(), key.as_slice()) {
            Ok(results) => Ok(OracleResults { ciphertext: results, is_ecb: true }),
            Err(_) => {
                proof {
                    assert(false);
                }
                Err(CipherError::InvalidLength)
            },
        }
    }
}

} // verus!
