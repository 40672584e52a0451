//! Byte-level utilities: XOR combinators, Hamming weight and distance,
//! and PKCS#7 padding.

use vstd::prelude::*;
use rand::Rng;

verus! {

/// Relies on rand::thread_rng and rand::Rng::gen: one random byte. Nothing
/// can be promised of the value.
#[verifier::external_body]
pub fn rand_u8() -> u8 {
    let mut rng1 = rand::thread_rng();
    rng1.gen::<u8>()
}

/// `n` random bytes.
pub fn random_bytes(n: usize) -> (r: Vec<u8>)
    ensures
        r@.len() == n,
{
    let mut out: Vec<u8> = Vec::new();
    let mut i: usize = 0;
    while i < n
        invariant
            i <= n,
            out@.len() == i,
        decreases n - i,
    {
        out.push(rand_u8());
        i = i + 1;
    }
    out
}

/// Every byte of `s` XORed with the single key byte `k`.
pub open spec fn xor1_spec(s: Seq<u8>, k: u8) -> Seq<u8> {
    Seq::new(s.len(), |i: int| s[i] ^ k)
}

/// Pointwise XOR of `a` with `b`, as long as `a`.
pub open spec fn xor_zip(a: Seq<u8>, b: Seq<u8>) -> Seq<u8>
    recommends
        b.len() >= a.len(),
{
    Seq::new(a.len(), |i: int| a[i] ^ b[i])
}

/// `s` XORed with the key repeated cyclically.
pub open spec fn repeat_xor_spec(s: Seq<u8>, key: Seq<u8>) -> Seq<u8>
    recommends
        key.len() > 0,
{
    Seq::new(s.len(), |i: int| s[i] ^ key[i % (key.len() as int)])
}

pub fn xor1(bytes: &[u8], byte: u8) -> (r: Vec<u8>)
    ensures
        r@ == xor1_spec(bytes@, byte),
{
    let mut dest: Vec<u8> = Vec::new();
    let mut i: usize = 0;
    while i < bytes.len()
        invariant
            i <= bytes@.len(),
            dest@ == xor1_spec(bytes@, byte).take(i as int),
        decreases bytes@.len() - i,
    {
        dest.push(bytes[i] ^ byte);
        i = i + 1;
        assert(dest@ =~= xor1_spec(bytes@, byte).take(i as int));
    }
    assert(dest@ =~= xor1_spec(bytes@, byte));
    dest
}

/// XOR `bytes` with `key` repeated cyclically. An empty key leaves
/// nothing to cycle, so the result is empty.
pub fn repeat_xor(bytes: &[u8], key: &[u8]) -> (r: Vec<u8>)
    ensures
        key@.len() > 0 ==> r@ == repeat_xor_spec(bytes@, key@),
        key@.len() == 0 ==> r@.len() == 0,
{
    let mut dest: Vec<u8> = Vec::new();
    if key.len() == 0 {
        return dest;
    }
    let mut i: usize = 0;
    while i < bytes.len()
        invariant
            key@.len() > 0,
            i <= bytes@.len(),
            dest@ == repeat_xor_spec(bytes@, key@).take(i as int),
        decreases bytes@.len() - i,
    {
        dest.push(bytes[i] ^ key[i % key.len()]);
        i = i + 1;
        assert(dest@ =~= repeat_xor_spec(bytes@, key@).take(i as int));
    }
    assert(dest@ =~= repeat_xor_spec(bytes@, key@));
    dest
}

/// XOR each byte of `a` with the byte of `b` at the same position,
/// reusing `a`'s buffer.
pub fn inplace_xor(a: Vec<u8>, b: &[u8]) -> (r: Vec<u8>)
    requires
        b@.len() >= a@.len(),
    ensures
        r@ == xor_zip(a@, b@),
{
    let mut a = a;
    let ghost orig = a@;
    let mut i: usize = 0;
    while i < a.len()
        invariant
            i <= orig.len(),
            a@.len() == orig.len(),
            b@.len() >= orig.len(),
            forall|j: int| i <= j < orig.len() ==> a@[j] == orig[j],
            forall|j: int| 0 <= j < i ==> a@[j] == xor_zip(orig, b@)[j],
        decreases orig.len() - i,
    {
        let x = a[i] ^ b[i];
        a.set(i, x);
        i = i + 1;
    }
    assert(a@ =~= xor_zip(orig, b@));
    a
}

/// A vector of `n` copies of `byte`.
pub fn fill_vec(n: usize, byte: u8) -> (r: Vec<u8>)
    ensures
        r@ == Seq::new(n as nat, |i: int| byte),
{
    let mut out: Vec<u8> = Vec::new();
    let mut i: usize = 0;
    while i < n
        invariant
            i <= n,
            out@ == Seq::new(i as nat, |j: int| byte),
        decreases n - i,
    {
        out.push(byte);
        i = i + 1;
        assert(out@ =~= Seq::new(i as nat, |j: int| byte));
    }
    out
}

/// Whether two byte slices hold the same bytes.
pub fn eq_bytes(a: &[u8], b: &[u8]) -> (r: bool)
    ensures
        r == (a@ == b@),
{
    if a.len() != b.len() {
        assert(a@ != b@);
        return false;
    }
    let mut i: usize = 0;
    while i < a.len()
        invariant
            a@.len() == b@.len(),
            i <= a@.len(),
            forall|j: int| 0 <= j < i ==> a@[j] == b@[j],
        decreases a@.len() - i,
    {
        if a[i] != b[i] {
            assert(a@ != b@);
            return false;
        }
        i = i + 1;
    }
    proof {
        assert(a@ =~= b@);
    }
    true
}

/// XORing with the same byte twice gives the first argument back.
pub proof fn lemma_xor_cancel(a: u8, b: u8)
    by (bit_vector)
    ensures
        (a ^ b) ^ b == a,
        (b ^ a) ^ b == a,
        b ^ (b ^ a) == a,
{
}

/// Number of set bits, written as the sum of the 32 individual bits.
pub open spec fn popcount32(x: u32) -> int {
    ((x >> 0u32) & 1) + ((x >> 1u32) & 1) + ((x >> 2u32) & 1) + ((x >> 3u32) & 1)
        + ((x >> 4u32) & 1) + ((x >> 5u32) & 1) + ((x >> 6u32) & 1) + ((x >> 7u32) & 1)
        + ((x >> 8u32) & 1) + ((x >> 9u32) & 1) + ((x >> 10u32) & 1) + ((x >> 11u32) & 1)
        + ((x >> 12u32) & 1) + ((x >> 13u32) & 1) + ((x >> 14u32) & 1) + ((x >> 15u32) & 1)
        + ((x >> 16u32) & 1) + ((x >> 17u32) & 1) + ((x >> 18u32) & 1) + ((x >> 19u32) & 1)
        + ((x >> 20u32) & 1) + ((x >> 21u32) & 1) + ((x >> 22u32) & 1) + ((x >> 23u32) & 1)
        + ((x >> 24u32) & 1) + ((x >> 25u32) & 1) + ((x >> 26u32) & 1) + ((x >> 27u32) & 1)
        + ((x >> 28u32) & 1) + ((x >> 29u32) & 1) + ((x >> 30u32) & 1) + ((x >> 31u32) & 1)
}

/// Sum of the bit differences between `a` and `b`, position by position,
/// over the length of `a`.
pub open spec fn hamming_distance_spec(a: Seq<u8>, b: Seq<u8>) -> int
    recommends
        b.len() >= a.len(),
    decreases a.len(),
{
    if a.len() == 0 {
        0
    } else {
        hamming_distance_spec(a.drop_last(), b) + popcount32((a.last() ^ b[a.len() - 1]) as u32)
    }
}

/// Population count of a 32-bit word, by the divide-and-conquer bit trick.
pub fn hamming_weight(val: u32) -> (r: u32)
    ensures
        r == popcount32(val),
{
    assert(((val >> 1u32) & 0x55555555u32) <= val) by (bit_vector);
    let v1 = val - ((val >> 1u32) & 0x55555555);
    assert((v1 & 0x33333333u32) + ((v1 >> 2u32) & 0x33333333u32) < 0x100000000) by (bit_vector);
    let v2 = (v1 & 0x33333333) + ((v1 >> 2u32) & 0x33333333);
    assert(v2 + (v2 >> 4u32) < 0x100000000) by (bit_vector)
        requires
            v2 == (v1 & 0x33333333u32) + ((v1 >> 2u32) & 0x33333333u32),
    ;
    let m = (v2 + (v2 >> 4u32)) & 0xF0F0F0F;
    let r = m.wrapping_mul(0x1010101) >> 24u32;
    proof {
        lemma_popcount32_swar(val, v1, v2, m);
    }
    r
}

proof fn lemma_popcount32_swar(val: u32, v1: u32, v2: u32, m: u32)
    by (bit_vector)
    requires
        v1 == val - ((val >> 1u32) & 0x55555555u32),
        v2 == (v1 & 0x33333333u32) + ((v1 >> 2u32) & 0x33333333u32),
        m == ((v2 + (v2 >> 4u32)) as u32) & 0xF0F0F0Fu32,
    ensures
        (((m as int * 0x1010101) % 0x100000000) as u32) >> 24u32 == popcount32(val),
{
}

/// Bounds on the population count: at most one per bit position looked at.
proof fn lemma_popcount32_bounds(x: u32)
    by (bit_vector)
    ensures
        0 <= popcount32(x) <= 32,
        x < 256 ==> popcount32(x) <= 8,
{
}

/// Sum over the positions of `a` of the number of differing bits between
/// `a` and `b` there.
pub fn hamming_distance(a: &[u8], b: &[u8]) -> (r: u32)
    requires
        b@.len() >= a@.len(),
        a@.len() * 8 <= u32::MAX,
    ensures
        r == hamming_distance_spec(a@, b@),
{
    let mut total: u32 = 0;
    let mut i: usize = 0;
    while i < a.len()
        invariant
            i <= a@.len(),
            b@.len() >= a@.len(),
            a@.len() * 8 <= u32::MAX,
            total == hamming_distance_spec(a@.take(i as int), b@),
            total <= i * 8,
        decreases a@.len() - i,
    {
        let x: u32 = (a[i] ^ b[i]) as u32;
        proof {
            lemma_popcount32_bounds(x);
            assert(a@.take(i + 1).drop_last() =~= a@.take(i as int));
            assert(a@.take(i + 1).last() == a@[i as int]);
        }
        let w = hamming_weight(x);
        total = total + w;
        i = i + 1;
    }
    proof {
        assert(a@.take(a@.len() as int) =~= a@);
    }
    total
}

/// Length of the PKCS#7 padding appended to a message of length `len`
/// with block size `b`: between 1 and `b`, bringing the total to a
/// multiple of `b`.
pub open spec fn pad_len(len: nat, b: nat) -> nat
    recommends
        b > 0,
{
    (b - (len % b)) as nat
}

/// The message followed by `pad_len` bytes, each holding the pad length.
pub open spec fn pkcs7_pad(s: Seq<u8>, b: nat) -> Seq<u8>
    recommends
        0 < b <= 255,
{
    s + Seq::new(pad_len(s.len(), b), |i: int| pad_len(s.len(), b) as u8)
}

/// Whether `s` ends in valid PKCS#7 padding for block size `b`: a multiple
/// of `b` long, nonempty, and its last byte, between 1 and `b`, counts
/// trailing copies of itself.
pub open spec fn valid_pkcs7(s: Seq<u8>, b: nat) -> bool {
    &&& s.len() > 0
    &&& s.len() % b == 0
    &&& 1 <= s.last() <= b
    &&& forall|i: int| s.len() - s.last() <= i < s.len() ==> s[i] == s.last()
}

/// A padded message is a whole number of blocks, and the padding adds
/// between one byte and one block.
pub proof fn lemma_pkcs7_pad_len(len: nat, b: nat)
    requires
        0 < b,
    ensures
        (len + pad_len(len, b)) % b == 0,
        1 <= pad_len(len, b) <= b,
{
    let q = len as int / (b as int);
    vstd::arithmetic::div_mod::lemma_fundamental_div_mod(len as int, b as int);
    vstd::arithmetic::div_mod::lemma_mod_bound(len as int, b as int);
    assert((q + 1) * (b as int) == (b as int) * q + b) by (nonlinear_arith);
    assert(len + pad_len(len, b) == (q + 1) * (b as int));
    vstd::arithmetic::div_mod::lemma_mod_multiples_basic(q + 1, b as int);
}

/// PKCS#7-pad `bytes` up to a multiple of `blocksize`.
pub fn pad(bytes: Vec<u8>, blocksize: usize) -> (r: Vec<u8>)
    requires
        0 < blocksize <= 255,
        bytes@.len() + blocksize < usize::MAX,
    ensures
        r@ == pkcs7_pad(bytes@, blocksize as nat),
        r@.len() == bytes@.len() + pad_len(bytes@.len(), blocksize as nat),
        r@.len() % (blocksize as nat) == 0,
{
    let mut bytes = bytes;
    let ghost orig = bytes@;
    let padding_bytes: usize = blocksize - (bytes.len() % blocksize);
    let ghost p = pad_len(orig.len(), blocksize as nat);
    let mut j: usize = 0;
    while j < padding_bytes
        invariant
            j <= padding_bytes,
            padding_bytes == p,
            1 <= padding_bytes <= blocksize <= 255,
            orig.len() + blocksize < usize::MAX,
            bytes@ == orig + Seq::new(j as nat, |i: int| p as u8),
        decreases padding_bytes - j,
    {
        bytes.push(padding_bytes as u8);
        j = j + 1;
        assert(bytes@ =~= orig + Seq::new(j as nat, |i: int| p as u8));
    }
    proof {
        assert(bytes@ =~= pkcs7_pad(orig, blocksize as nat));
        assert((orig.len() + p) % (blocksize as nat) == 0) by {
            let b = blocksize as int;
            let q = orig.len() as int / b;
            vstd::arithmetic::div_mod::lemma_fundamental_div_mod(orig.len() as int, b);
            assert((q + 1) * b == q * b + b) by (nonlinear_arith);
            assert(orig.len() + p == (q + 1) * b);
            vstd::arithmetic::div_mod::lemma_mod_multiples_basic(q + 1, b);
        }
    }
    bytes
}

/// Strip PKCS#7 padding: remove as many trailing bytes as the last byte
/// says. An empty buffer comes back unchanged.
pub fn unpad(bytes: Vec<u8>) -> (r: Vec<u8>)
    requires
        bytes@.len() > 0 ==> 1 <= bytes@.last() <= bytes@.len(),
    ensures
        bytes@.len() == 0 ==> r@ == bytes@,
        bytes@.len() > 0 ==> r@ == bytes@.take(bytes@.len() - bytes@.last()),
{
    let mut bytes = bytes;
    let ghost orig = bytes@;
    if bytes.len() == 0 {
        return bytes;
    }
    let n = bytes[bytes.len() - 1] as usize;
    let new_len = bytes.len() - n;
    bytes.truncate(new_len);
    assert(orig.subrange(0, new_len as int) =~= orig.take(orig.len() - orig.last()));
    bytes
}

/// Whether `bytes` ends in valid PKCS#7 padding for `blocksize`.
pub fn valid_padding(bytes: &[u8], blocksize: usize) -> (r: bool)
    requires
        0 < blocksize <= 255,
    ensures
        r == valid_pkcs7(bytes@, blocksize as nat),
{
    let bytes_len = bytes.len();
    if bytes_len == 0 || bytes_len % blocksize != 0 {
        return false;
    }
    let pad_value = bytes[bytes_len - 1];
    if pad_value == 0 || pad_value > blocksize as u8 {
        return false;
    }
    proof {
        if bytes_len < blocksize {
            vstd::arithmetic::div_mod::lemma_small_mod(bytes_len as nat, blocksize as nat);
        }
    }
    let mut i: usize = bytes_len - pad_value as usize;
    while i < bytes_len
        invariant
            bytes_len == bytes@.len(),
            bytes_len - pad_value <= i <= bytes_len,
            0 < pad_value <= bytes_len,
            pad_value == bytes@.last(),
            forall|j: int| bytes_len - pad_value <= j < i ==> bytes@[j] == bytes@.last(),
        decreases bytes_len - i,
    {
        if bytes[i] != pad_value {
            return false;
        }
        i = i + 1;
    }
    true
}

} // verus!
