//! Plaintext recovery from a CBC padding oracle alone: forge the block
//! chained into the target so that a guessed byte, together with the bytes
//! already recovered, decrypts to uniform padding, and let the oracle's
//! verdict confirm or refute the guess. A guess the oracle accepts can
//! still be a coincidence, so the search backtracks; what survives to a
//! full block is provably the true plaintext.

use vstd::prelude::*;
use crate::oracle::{PaddingOracle, AttackError, padding_oracle_plain};
use crate::aes::block_at;
use crate::bytes::valid_pkcs7;

verus! {

/// The plaintext of one CBC block: the block deciphered, then XORed with
/// the ciphertext block (or IV) chained into it.
pub open spec fn cbc_block_plain<O: PaddingOracle + ?Sized>(
    o: &O,
    target: Seq<u8>,
    pre: Seq<u8>,
) -> Seq<u8> {
    Seq::new(o.blocksize(), |i: int| o.dec_block(target)[i] ^ pre[i])
}

/// What the target block decrypts to under a forged previous block that
/// claims `acc` as the block's tail plaintext: the true head of `t`, then
/// each claimed byte folded towards the pad value `acc.len()`.
pub open spec fn forced_tail(t: Seq<u8>, acc: Seq<u8>, b: int) -> Seq<u8> {
    let n = acc.len() as int;
    t.take(b - n) + Seq::new(acc.len(), |j: int| (t[b - n + j] ^ acc[j]) ^ (n as u8))
}

/// The oracle accepts the forged query whose claimed tail is `acc`.
pub open spec fn level_ok(t: Seq<u8>, acc: Seq<u8>, b: int) -> bool {
    valid_pkcs7(forced_tail(t, acc, b), b as nat)
}

/// The oracle accepted every step that led to `acc`: each suffix of `acc`,
/// shortest first, passed its forged query.
pub open spec fn levels_ok(t: Seq<u8>, acc: Seq<u8>, b: int) -> bool {
    forall|k: int| 1 <= k <= acc.len() ==> level_ok(t, #[trigger] acc.skip(acc.len() - k), b)
}

/// XOR facts the attack turns on.
proof fn lemma_xor_eq(x: u8, y: u8)
    by (bit_vector)
    ensures
        (x ^ y == 0) == (x == y),
        x ^ x == 0,
        (x ^ y) ^ y == x,
        0u8 ^ x == x,
        x ^ 0u8 == x,
{
}

/// A wrong last byte dooms some later level: if the last claimed byte is
/// off, the value the forgery forces at some deeper level is 0 or past the
/// block size, which no valid padding allows. Needs a block size divisible
/// by four, as the common sizes are.
proof fn lemma_bad_level(u: u8, b: u8)
    by (bit_vector)
    requires
        1 <= (u ^ 1) <= b,
        u ^ 1 != 1,
        b % 4 == 0,
        4 <= b,
    ensures
        ({
            let n: u8 = if 2 <= u && u <= b {
                u
            } else {
                2
            };
            2 <= n <= b && (u ^ n == 0 || u ^ n > b)
        }),
{
}

/// The true tail always passes: claiming the real plaintext bytes forces a
/// tail of `n` bytes of value `n`, which is valid padding.
pub proof fn lemma_true_level(t: Seq<u8>, b: int, n: int)
    requires
        t.len() == b,
        1 <= n <= b <= 255,
    ensures
        level_ok(t, t.skip(b - n), b),
{
    let acc = t.skip(b - n);
    let s = forced_tail(t, acc, b);
    assert forall|j: int| 0 <= j < n implies #[trigger] s[b - n + j] == n as u8 by {
        assert(acc[j] == t[b - n + j]);
        lemma_xor_eq(t[b - n + j], t[b - n + j]);
        lemma_xor_eq(n as u8, t[b - n + j]);
        assert((t[b - n + j] ^ t[b - n + j]) ^ (n as u8) == 0u8 ^ (n as u8));
    }
    assert(s.len() == b);
    vstd::arithmetic::div_mod::lemma_mod_self_0(b);
    assert(s.last() == n as u8);
    assert(valid_pkcs7(s, b as nat));
}

/// Soundness of the backtracking search: a full block every one of whose
/// levels the oracle accepted is the true plaintext block. A wrong byte
/// anywhere either contradicts the level that accepted it or dooms a
/// deeper level, so only the truth survives to depth `b`.
pub proof fn lemma_levels_sound(t: Seq<u8>, p: Seq<u8>, b: int)
    requires
        4 <= b <= 255,
        b % 4 == 0,
        t.len() == b,
        p.len() == b,
        levels_ok(t, p, b),
    ensures
        p == t,
{
    // the last byte first: level 1 pins its forced value between 1 and b
    let u = t[b - 1] ^ p[b - 1];
    let acc1 = p.skip(b - 1);
    assert(level_ok(t, acc1, b));
    let s1 = forced_tail(t, acc1, b);
    assert(acc1[0] == p[b - 1]);
    assert(s1.last() == u ^ 1);
    assert(1 <= (u ^ 1) <= b);
    if u ^ 1 != 1 {
        // a wrong last byte: some deeper level forces an impossible value
        let nb: u8 = if 2 <= u && u <= b {
            u
        } else {
            2
        };
        lemma_bad_level(u, b as u8);
        let n = nb as int;
        let accn = p.skip(b - n);
        assert(level_ok(t, accn, b));
        let sn = forced_tail(t, accn, b);
        assert(accn[n - 1] == p[b - 1]);
        assert(sn.last() == u ^ nb);
        assert(1 <= (u ^ nb) <= b);
        assert(false);
    }
    assert(u == 0) by {
        assert(u ^ 1 == 1);
        assert(u ^ 1 == 1 ==> u == 0) by (bit_vector);
    }
    lemma_xor_eq(t[b - 1], p[b - 1]);
    assert(t[b - 1] == p[b - 1]);
    // the full-depth level then forces every byte to agree
    let accb = p.skip(0);
    assert(accb =~= p);
    assert(level_ok(t, p, b));
    let sb = forced_tail(t, p, b);
    assert(sb.last() == (t[b - 1] ^ p[b - 1]) ^ (b as u8));
    assert(sb.last() == b as u8) by {
        lemma_xor_eq(t[b - 1], p[b - 1]);
        assert((t[b - 1] ^ p[b - 1]) == 0);
        lemma_xor_eq(b as u8, 0u8);
    }
    assert(b as u8 as int == b);
    let m = b as u8;
    assert forall|j: int| 0 <= j < b implies p[j] == t[j] by {
        let x = t[j] ^ p[j];
        assert(sb[j] == x ^ m);
        assert(sb.len() - sb.last() <= j < sb.len());
        assert(sb[j] == sb.last());
        assert(x ^ m == m);
        lemma_xor_eq(x, m);
        lemma_xor_eq(m, m);
        assert(x == (x ^ m) ^ m);
        assert(x == 0);
        lemma_xor_eq(t[j], p[j]);
    }
    assert(p =~= t);
}

/// The previous block, forged: the head kept, the byte under test folded
/// through pad value and guess, each already-claimed byte folded through
/// pad value and claim.
pub open spec fn forge_spec(pre: Seq<u8>, tail: Seq<u8>, g: u8) -> Seq<u8> {
    let b = pre.len() as int;
    let n = tail.len() + 1;
    pre.take(b - n) + seq![(pre[b - n] ^ (n as u8)) ^ g] + Seq::new(
        tail.len(),
        |j: int| (pre[b - n + 1 + j] ^ tail[j]) ^ (n as u8),
    )
}

/// Build the forged previous block for one guess: `cleartext` holds the
/// bytes already claimed for the tail of the target block.
pub fn assemble_attack_block(pre_block: &[u8], cleartext: &[u8], guess: u8) -> (r: Vec<u8>)
    requires
        cleartext@.len() < pre_block@.len() <= 255,
    ensures
        r@ == forge_spec(pre_block@, cleartext@, guess),
        r@.len() == pre_block@.len(),
{
    let n = cleartext.len() + 1;
    let guess_pos = pre_block.len() - n;
    let mut out: Vec<u8> = Vec::new();
    let mut i: usize = 0;
    while i < guess_pos
        invariant
            i <= guess_pos,
            guess_pos < pre_block@.len(),
            out@ == pre_block@.take(i as int),
        decreases guess_pos - i,
    {
        out.push(pre_block[i]);
        i = i + 1;
        assert(out@ =~= pre_block@.take(i as int));
    }
    out.push(pre_block[guess_pos] ^ (n as u8) ^ guess);
    let mut j: usize = 0;
    while j < cleartext.len()
        invariant
            j <= cleartext@.len(),
            cleartext@.len() < pre_block@.len() <= 255,
            n == cleartext@.len() + 1,
            guess_pos == pre_block@.len() - n,
            out@ == pre_block@.take(guess_pos as int) + seq![
                (pre_block@[guess_pos as int] ^ (n as u8)) ^ guess,
            ] + Seq::new(j as nat, |j2: int| (pre_block@[guess_pos + 1 + j2] ^ cleartext@[j2]) ^ (
            n as u8)),
        decreases cleartext@.len() - j,
    {
        out.push(pre_block[guess_pos + 1 + j] ^ cleartext[j] ^ (n as u8));
        j = j + 1;
        assert(out@ =~= pre_block@.take(guess_pos as int) + seq![
            (pre_block@[guess_pos as int] ^ (n as u8)) ^ guess,
        ] + Seq::new(j as nat, |j2: int| (pre_block@[guess_pos + 1 + j2] ^ cleartext@[j2]) ^ (
        n as u8)));
    }
    assert(out@ =~= forge_spec(pre_block@, cleartext@, guess));
    out
}

/// XOR regrouping for the byte under test.
proof fn lemma_shuffle_guess(d: u8, p: u8, n: u8, g: u8)
    by (bit_vector)
    ensures
        d ^ ((p ^ n) ^ g) == ((d ^ p) ^ g) ^ n,
{
}

/// XOR regrouping for an already-claimed byte.
proof fn lemma_shuffle_tail(d: u8, p: u8, a: u8, n: u8)
    by (bit_vector)
    ensures
        d ^ ((p ^ a) ^ n) == ((d ^ p) ^ a) ^ n,
{
}

/// What the oracle decrypts when the forged block is handed to it as the
/// block chained into `target`: the true plaintext head, and the claimed
/// tail folded towards the pad value — the forced tail for `g` prepended
/// to the claims.
pub proof fn lemma_forge_plain<O: PaddingOracle>(
    o: &O,
    target: Seq<u8>,
    pre: Seq<u8>,
    tail: Seq<u8>,
    g: u8,
)
    requires
        1 <= o.blocksize() <= 255,
        pre.len() == o.blocksize(),
        target.len() == o.blocksize(),
        tail.len() < o.blocksize(),
    ensures
        padding_oracle_plain(o, target, forge_spec(pre, tail, g)) == forced_tail(
            cbc_block_plain(o, target, pre),
            seq![g] + tail,
            o.blocksize() as int,
        ),
{
    let b = o.blocksize() as int;
    let n = tail.len() + 1;
    let t = cbc_block_plain(o, target, pre);
    let forged = forge_spec(pre, tail, g);
    let acc2 = seq![g] + tail;
    let lhs = padding_oracle_plain(o, target, forged);
    let rhs = forced_tail(t, acc2, b);
    let d = o.dec_block(target);
    assert(forged.len() == b);
    assert forall|i: int| 0 <= i < b implies lhs[i] == rhs[i] by {
        vstd::arithmetic::div_mod::lemma_small_mod(i as nat, b as nat);
        vstd::arithmetic::div_mod::lemma_basic_div(i, b);
        assert(block_at(target, o.blocksize(), 0) =~= target);
        assert(lhs[i] == d[i] ^ forged[i]);
        if i < b - n {
            assert(forged[i] == pre[i]);
            assert(rhs[i] == t[i]);
        } else if i == b - n {
            assert(forged[i] == (pre[i] ^ (n as u8)) ^ g);
            assert(rhs[i] == (t[i] ^ g) ^ (n as u8));
            lemma_shuffle_guess(d[i], pre[i], n as u8, g);
        } else {
            let j = i - (b - n);
            assert(forged[i] == (pre[i] ^ tail[j - 1]) ^ (n as u8));
            assert(acc2[j] == tail[j - 1]);
            assert(rhs[i] == (t[i] ^ tail[j - 1]) ^ (n as u8));
            lemma_shuffle_tail(d[i], pre[i], tail[j - 1], n as u8);
        }
    }
    assert(lhs =~= rhs);
}

/// Recover the remaining head of the target block, the bytes in
/// `cleartext` already claimed for its tail: try every byte, keep those
/// the oracle blesses, and backtrack out of coincidences. What comes back
/// `Some` is the block's true plaintext; when the claimed tail is the true
/// one the search cannot fail.
pub fn decrypt_remaining_block_one<O: PaddingOracle>(
    oracle: &O,
    attack_ciphertext: &[u8],
    iv: &[u8],
    cleartext: &Vec<u8>,
) -> (r: Option<Vec<u8>>)
    requires
        oracle.wf(),
        4 <= oracle.blocksize() <= 255,
        oracle.blocksize() % 4 == 0,
        attack_ciphertext@.len() == oracle.blocksize(),
        iv@.len() == oracle.blocksize(),
        cleartext@.len() < oracle.blocksize(),
        levels_ok(
            cbc_block_plain(oracle, attack_ciphertext@, iv@),
            cleartext@,
            oracle.blocksize() as int,
        ),
    ensures
        r is Some ==> r->0@ == cbc_block_plain(oracle, attack_ciphertext@, iv@),
        cleartext@ == cbc_block_plain(oracle, attack_ciphertext@, iv@).skip(
            oracle.blocksize() - cleartext@.len(),
        ) ==> r is Some,
    decreases oracle.blocksize() - cleartext@.len(),
{
    let ghost t = cbc_block_plain(oracle, attack_ciphertext@, iv@);
    let ghost b = oracle.blocksize() as int;
    let blocksize = iv.len();
    let ghost m = cleartext@.len() as int;
    proof {
        vstd::arithmetic::div_mod::lemma_mod_self_0(b);
    }
    let mut gi: usize = 0;
    while gi < 256
        invariant
            oracle.wf(),
            4 <= b <= 255,
            b % 4 == 0,
            b == oracle.blocksize(),
            blocksize == b,
            attack_ciphertext@.len() == b,
            iv@.len() == b,
            m == cleartext@.len(),
            m < b,
            t == cbc_block_plain(oracle, attack_ciphertext@, iv@),
            t.len() == b,
            levels_ok(t, cleartext@, b),
            gi <= 256,
            cleartext@ == t.skip(b - m) ==> t[b - m - 1] >= gi,
        decreases 256 - gi,
    {
        let g = gi as u8;
        let forged = assemble_attack_block(iv, cleartext.as_slice(), g);
        proof {
            vstd::arithmetic::div_mod::lemma_mod_self_0(b);
        }
        let ok = oracle.check(attack_ciphertext, forged.as_slice());
        let ghost acc2 = seq![g] + cleartext@;
        proof {
            crate::oracle::lemma_padding_oracle_check(
                oracle,
                attack_ciphertext@,
                forged@,
                ok,
            );
            lemma_forge_plain(oracle, attack_ciphertext@, iv@, cleartext@, g);
            assert(ok == level_ok(t, acc2, b));
        }
        if ok {
            let mut acc_new: Vec<u8> = Vec::new();
            acc_new.push(g);
            let mut rest = vstd::slice::slice_to_vec(cleartext.as_slice());
            acc_new.append(&mut rest);
            assert(acc_new@ =~= acc2);
            proof {
                assert forall|k: int| 1 <= k <= acc2.len() implies level_ok(
                    t,
                    #[trigger] acc2.skip(acc2.len() - k),
                    b,
                ) by {
                    if k < acc2.len() {
                        assert(acc2.skip(acc2.len() - k) =~= cleartext@.skip(
                            cleartext@.len() - k,
                        ));
                    } else {
                        assert(acc2.skip(0) =~= acc2);
                    }
                }
                assert(levels_ok(t, acc2, b));
            }
            if acc_new.len() == blocksize {
                proof {
                    lemma_levels_sound(t, acc_new@, b);
                }
                return Some(acc_new);
            }
            let deeper = decrypt_remaining_block_one(oracle, attack_ciphertext, iv, &acc_new);
            match deeper {
                Some(c) => {
                    return Some(c);
                },
                None => {
                    proof {
                        if cleartext@ == t.skip(b - m) && g == t[b - m - 1] {
                            assert(acc_new@ =~= t.skip(b - (m + 1)));
                            assert(false);
                        }
                    }
                },
            }
        } else {
            proof {
                if cleartext@ == t.skip(b - m) && g == t[b - m - 1] {
                    assert(acc2 =~= t.skip(b - (m + 1)));
                    lemma_true_level(t, b, m + 1);
                    assert(false);
                }
            }
        }
        gi = gi + 1;
    }
    proof {
        if cleartext@ == t.skip(b - m) {
            assert(t[b - m - 1] < 256);
            assert(false);
        }
    }
    None
}

/// Block `k` of the full CBC decryption is the single-block plaintext of
/// ciphertext block `k` under the block chained into it.
proof fn lemma_plain_block_slice<O: PaddingOracle>(o: &O, ct: Seq<u8>, iv: Seq<u8>, k: int)
    requires
        1 <= o.blocksize(),
        0 <= k,
        (k + 1) * o.blocksize() <= ct.len(),
    ensures
        padding_oracle_plain(o, ct, iv).subrange(
            k * o.blocksize(),
            k * o.blocksize() + o.blocksize(),
        ) == cbc_block_plain(
            o,
            block_at(ct, o.blocksize(), k),
            if k == 0 {
                iv
            } else {
                block_at(ct, o.blocksize(), k - 1)
            },
        ),
{
    let b = o.blocksize() as int;
    assert(k * b + b == (k + 1) * b) by (nonlinear_arith);
    assert(k * b >= 0) by (nonlinear_arith)
        requires
            k >= 0,
            b >= 1,
    ;
    let lhs = padding_oracle_plain(o, ct, iv).subrange(k * b, k * b + b);
    let rhs = cbc_block_plain(
        o,
        block_at(ct, o.blocksize(), k),
        if k == 0 {
            iv
        } else {
            block_at(ct, o.blocksize(), k - 1)
        },
    );
    assert forall|m: int| 0 <= m < b implies lhs[m] == rhs[m] by {
        let i = k * b + m;
        vstd::arithmetic::div_mod::lemma_fundamental_div_mod_converse(i, b, k, m);
        assert(lhs[m] == padding_oracle_plain(o, ct, iv)[i]);
        assert(i / b == k && i % b == m);
    }
    assert(lhs =~= rhs);
}

/// Recover the plaintext of the first ciphertext block by forging the IV.
/// The search cannot fail, so the whole block comes back.
pub fn decrypt_block_one<O: PaddingOracle>(oracle: &O, ciphertext: &[u8], iv: &[u8]) -> (r: Vec<
    u8,
>)
    requires
        oracle.wf(),
        4 <= oracle.blocksize() <= 255,
        oracle.blocksize() % 4 == 0,
        iv@.len() == oracle.blocksize(),
        ciphertext@.len() >= oracle.blocksize(),
    ensures
        r@ == cbc_block_plain(
            oracle,
            ciphertext@.subrange(0, oracle.blocksize() as int),
            iv@,
        ),
{
    let ghost b = oracle.blocksize() as int;
    let blocksize = iv.len();
    let target = vstd::slice::slice_subrange(ciphertext, 0, blocksize);
    let ghost t = cbc_block_plain(oracle, target@, iv@);
    let empty: Vec<u8> = Vec::new();
    proof {
        assert(empty@ =~= t.skip(b));
    }
    match decrypt_remaining_block_one(oracle, target, iv, &empty) {
        Some(c) => c,
        None => {
            proof {
                assert(false);
            }
            Vec::new()
        },
    }
}

/// Recover the plaintext of ciphertext block `block_num` (not the first)
/// by forging the block before it; `block_cleartext` holds tail bytes
/// already claimed for it. A `Some` answer is the block's true plaintext;
/// with a truly-claimed tail the search cannot fail.
pub fn decrypt_block<O: PaddingOracle>(
    oracle: &O,
    block_num: usize,
    ciphertext: &[u8],
    iv: &[u8],
    block_cleartext: &[u8],
) -> (r: Option<Vec<u8>>)
    requires
        oracle.wf(),
        4 <= oracle.blocksize() <= 255,
        oracle.blocksize() % 4 == 0,
        iv@.len() == oracle.blocksize(),
        1 <= block_num,
        (block_num + 1) * oracle.blocksize() <= ciphertext@.len(),
        block_cleartext@.len() < oracle.blocksize(),
        levels_ok(
            cbc_block_plain(
                oracle,
                block_at(ciphertext@, oracle.blocksize(), block_num as int),
                block_at(ciphertext@, oracle.blocksize(), block_num as int - 1),
            ),
            block_cleartext@,
            oracle.blocksize() as int,
        ),
    ensures
        r is Some ==> r->0@ == cbc_block_plain(
            oracle,
            block_at(ciphertext@, oracle.blocksize(), block_num as int),
            block_at(ciphertext@, oracle.blocksize(), block_num as int - 1),
        ),
        block_cleartext@ == cbc_block_plain(
            oracle,
            block_at(ciphertext@, oracle.blocksize(), block_num as int),
            block_at(ciphertext@, oracle.blocksize(), block_num as int - 1),
        ).skip(oracle.blocksize() - block_cleartext@.len()) ==> r is Some,
{
    let ghost b = oracle.blocksize() as int;
    let blocksize = iv.len();
    let total = ciphertext.len();
    proof {
        assert(ciphertext@.len() == total);
        assert((block_num - 1) * b + b == block_num as int * b) by (nonlinear_arith);
        assert(block_num as int * b + b == (block_num + 1) * b) by (nonlinear_arith);
        assert((block_num - 1) * b >= 0) by (nonlinear_arith)
            requires
                block_num >= 1,
                b >= 1,
        ;
        assert((block_num + 1) * b <= ciphertext@.len());
        assert((block_num - 1) * b + b <= ciphertext@.len());
    }
    let prev_start = (block_num - 1) * blocksize;
    let prev = vstd::slice::slice_subrange(ciphertext, prev_start, prev_start + blocksize);
    let target_start = block_num * blocksize;
    let target = vstd::slice::slice_subrange(ciphertext, target_start, target_start + blocksize);
    proof {
        assert(prev@ =~= block_at(ciphertext@, oracle.blocksize(), block_num as int - 1));
        assert(target@ =~= block_at(ciphertext@, oracle.blocksize(), block_num as int));
    }
    let clr = vstd::slice::slice_to_vec(block_cleartext);
    decrypt_remaining_block_one(oracle, target, prev, &clr)
}

/// Recover the plaintext of every block after the first and append it to
/// the first block's plaintext.
pub fn decrypt_remaining_blocks<O: PaddingOracle>(
    oracle: &O,
    ciphertext: &[u8],
    iv: &[u8],
    block_1_cleartext: &[u8],
) -> (r: Vec<u8>)
    requires
        oracle.wf(),
        4 <= oracle.blocksize() <= 255,
        oracle.blocksize() % 4 == 0,
        iv@.len() == oracle.blocksize(),
        ciphertext@.len() % oracle.blocksize() == 0,
        ciphertext@.len() >= oracle.blocksize(),
    ensures
        r@ == block_1_cleartext@ + padding_oracle_plain(oracle, ciphertext@, iv@).skip(
            oracle.blocksize() as int,
        ),
{
    let ghost b = oracle.blocksize() as int;
    let ghost plain = padding_oracle_plain(oracle, ciphertext@, iv@);
    let blocksize = iv.len();
    let mut cleartext = vstd::slice::slice_to_vec(block_1_cleartext);
    let nblocks = ciphertext.len() / blocksize;
    proof {
        vstd::arithmetic::div_mod::lemma_fundamental_div_mod(ciphertext@.len() as int, b);
        assert(blocksize == b);
        assert(nblocks == ciphertext@.len() as int / b);
        assert(ciphertext@.len() as int % b == 0);
        assert(ciphertext@.len() == nblocks * b);
        assert(nblocks >= 1) by (nonlinear_arith)
            requires
                nblocks * b >= b,
                b >= 1,
        ;
        assert(1 * b == b) by (nonlinear_arith);
        assert(cleartext@ =~= block_1_cleartext@ + plain.subrange(b, 1 * b));
    }
    let mut block_num: usize = 1;
    while block_num < nblocks
        invariant
            oracle.wf(),
            4 <= b <= 255,
            b % 4 == 0,
            b == oracle.blocksize(),
            blocksize == b,
            iv@.len() == b,
            ciphertext@.len() == nblocks * b,
            ciphertext@.len() <= usize::MAX,
            b <= ciphertext@.len(),
            nblocks >= 1,
            plain == padding_oracle_plain(oracle, ciphertext@, iv@),
            plain.len() == ciphertext@.len(),
            1 <= block_num <= nblocks,
            cleartext@ == block_1_cleartext@ + plain.subrange(b, block_num as int * b),
        decreases nblocks - block_num,
    {
        proof {
            assert(block_num as int * b + b == (block_num + 1) * b) by (nonlinear_arith);
            assert((block_num + 1) * b <= nblocks * b) by (nonlinear_arith)
                requires
                    block_num + 1 <= nblocks,
                    b >= 1,
            ;
        }
        let ghost tk = cbc_block_plain(
            oracle,
            block_at(ciphertext@, oracle.blocksize(), block_num as int),
            block_at(ciphertext@, oracle.blocksize(), block_num as int - 1),
        );
        let empty: Vec<u8> = Vec::new();
        proof {
            assert(tk.len() == b);
            assert(empty@ =~= tk.skip(b));
        }
        let clear_block = match decrypt_block(
            oracle,
            block_num,
            ciphertext,
            iv,
            empty.as_slice(),
        ) {
            Some(c) => c,
            None => {
                proof {
                    assert(false);
                }
                Vec::new()
            },
        };
        proof {
            lemma_plain_block_slice(oracle, ciphertext@, iv@, block_num as int);
            assert(clear_block@ == plain.subrange(
                block_num as int * b,
                block_num as int * b + b,
            ));
        }
        let mut cb = clear_block;
        cleartext.append(&mut cb);
        proof {
            assert(b <= block_num as int * b) by (nonlinear_arith)
                requires
                    block_num >= 1,
                    b >= 1,
            ;
            assert(plain.subrange(b, block_num as int * b + b) =~= plain.subrange(
                b,
                block_num as int * b,
            ) + plain.subrange(block_num as int * b, block_num as int * b + b));
            assert(cleartext@ =~= block_1_cleartext@ + plain.subrange(
                b,
                block_num as int * b + b,
            ));
        }
        block_num = block_num + 1;
        proof {
            assert(block_num as int * b == (block_num - 1) * b + b) by (nonlinear_arith);
            assert(cleartext@ == block_1_cleartext@ + plain.subrange(b, block_num as int * b));
        }
    }
    proof {
        assert(plain.subrange(b, nblocks as int * b) =~= plain.skip(b));
        assert(cleartext@ =~= block_1_cleartext@ + plain.skip(b));
    }
    cleartext
}

/// Repeated recovery answers repeat: the attack's contract pins its answer
/// to what the oracle's hidden key decrypts the ciphertext to, so any two
/// runs against the same oracle and ciphertext agree bit for bit.
pub proof fn lemma_decrypt_idempotent<O: PaddingOracle>(
    oracle: &O,
    ct: Seq<u8>,
    iv: Seq<u8>,
    r1: Seq<u8>,
    r2: Seq<u8>,
)
    requires
        r1 == padding_oracle_plain(oracle, ct, iv),
        r2 == padding_oracle_plain(oracle, ct, iv),
    ensures
        r1 == r2,
{
}

/// Recover the whole plaintext of a CBC ciphertext from the padding oracle
/// alone: bit for bit what the hidden key decrypts it to, PKCS#7 padding
/// still in place.
pub fn decrypt<O: PaddingOracle>(oracle: &O, ciphertext: &[u8], iv: &[u8]) -> (r: Vec<u8>)
    requires
        oracle.wf(),
        4 <= oracle.blocksize() <= 255,
        oracle.blocksize() % 4 == 0,
        iv@.len() == oracle.blocksize(),
        ciphertext@.len() % oracle.blocksize() == 0,
    ensures
        r@ == padding_oracle_plain(oracle, ciphertext@, iv@),
{
    let ghost b = oracle.blocksize() as int;
    let ghost plain = padding_oracle_plain(oracle, ciphertext@, iv@);
    if ciphertext.len() == 0 {
        let r: Vec<u8> = Vec::new();
        assert(r@ =~= plain);
        return r;
    }
    proof {
        if ciphertext@.len() < b {
            vstd::arithmetic::div_mod::lemma_small_mod(
                ciphertext@.len() as nat,
                oracle.blocksize(),
            );
        }
    }
    let block_one = decrypt_block_one(oracle, ciphertext, iv);
    proof {
        assert(1 * b == b) by (nonlinear_arith);
        lemma_plain_block_slice(oracle, ciphertext@, iv@, 0);
        assert(block_at(ciphertext@, oracle.blocksize(), 0) =~= ciphertext@.subrange(0, b));
        assert(block_one@ == plain.subrange(0, b));
    }
    let r = decrypt_remaining_blocks(oracle, ciphertext, iv, block_one.as_slice());
    proof {
        assert(r@ =~= plain);
    }
    r
}

} // verus!
