//! Helpers for frequency work on ciphertext collections: byte histograms,
//! transposition by key position, the shortest buffer of a batch, and the
//! byte-to-letter mapping by English letter frequency.

use vstd::prelude::*;

verus! {

/// How often `v` occurs in `s`.
pub open spec fn count_byte(s: Seq<u8>, v: u8) -> int
    decreases s.len(),
{
    if s.len() == 0 {
        0
    } else {
        count_byte(s.drop_last(), v) + if s.last() == v {
            1int
        } else {
            0int
        }
    }
}

/// One counter per byte value: slot `v` holds how often `v` occurs.
pub fn byte_histogram(bytes: &[u8]) -> (r: Vec<usize>)
    ensures
        r@.len() == 256,
        forall|v: int| 0 <= v < 256 ==> (#[trigger] r@[v]) == count_byte(bytes@, v as u8),
{
    let mut histogram: Vec<usize> = Vec::new();
    let mut z: usize = 0;
    while z < 256
        invariant
            z <= 256,
            histogram@.len() == z,
            forall|v: int| 0 <= v < z ==> (#[trigger] histogram@[v]) == 0,
        decreases 256 - z,
    {
        histogram.push(0);
        z = z + 1;
    }
    let mut i: usize = 0;
    proof {
        assert forall|v: int| 0 <= v < 256 implies (#[trigger] histogram@[v]) == count_byte(
            bytes@.take(0),
            v as u8,
        ) by {
            assert(bytes@.take(0) =~= Seq::<u8>::empty());
        }
    }
    while i < bytes.len()
        invariant
            i <= bytes@.len(),
            histogram@.len() == 256,
            forall|v: int|
                0 <= v < 256 ==> (#[trigger] histogram@[v]) == count_byte(
                    bytes@.take(i as int),
                    v as u8,
                ),
            forall|v: int| 0 <= v < 256 ==> (#[trigger] histogram@[v]) <= i,
        decreases bytes@.len() - i,
    {
        let b = bytes[i] as usize;
        let cur = histogram[b];
        histogram.set(b, cur + 1);
        i = i + 1;
        proof {
            assert forall|v: int| 0 <= v < 256 implies (#[trigger] histogram@[v]) == count_byte(
                bytes@.take(i as int),
                v as u8,
            ) by {
                assert(bytes@.take(i as int).drop_last() =~= bytes@.take(i - 1));
                assert(bytes@.take(i as int).last() == bytes@[i - 1]);
            }
        }
    }
    proof {
        assert(bytes@.take(bytes@.len() as int) =~= bytes@);
    }
    histogram
}

/// The bytes of each key-aligned column: element `k` of column `i` is the
/// byte at position `k * keysize + i`.
pub open spec fn column_spec(data: Seq<u8>, ks: int, i: int) -> Seq<u8>
    recommends
        ks >= 1,
        0 <= i < ks,
{
    Seq::new(
        if i >= data.len() {
            0
        } else {
            (((data.len() - i - 1) / ks) + 1) as nat
        },
        |k: int| data[k * ks + i],
    )
}

/// Split `data` into `keysize` columns, one per key position: the bytes
/// that the same key byte would have touched.
pub fn transpose(data: &[u8], keysize: usize) -> (r: Vec<Vec<u8>>)
    requires
        keysize >= 1,
        data@.len() + keysize <= usize::MAX,
    ensures
        r@.len() == keysize,
        forall|i: int| 0 <= i < keysize ==> (#[trigger] r@[i]@) == column_spec(data@, keysize as int, i),
{
    let mut transposed: Vec<Vec<u8>> = Vec::new();
    let ghost ks = keysize as int;
    let mut i: usize = 0;
    while i < keysize
        invariant
            keysize >= 1,
            ks == keysize,
            i <= keysize,
            data@.len() + keysize <= usize::MAX,
            transposed@.len() == i,
            forall|i2: int|
                0 <= i2 < i ==> (#[trigger] transposed@[i2]@) == column_spec(data@, ks, i2),
        decreases keysize - i,
    {
        let mut col: Vec<u8> = Vec::new();
        let mut j: usize = i;
        let mut t: usize = 0;
        while j < data.len()
            invariant
                keysize >= 1,
                ks == keysize,
                i < keysize,
                data@.len() + keysize <= usize::MAX,
                j == t * ks + i,
                col@.len() == t,
                forall|k: int| 0 <= k < t ==> (#[trigger] col@[k]) == data@[k * ks + i],
                t >= 1 ==> (t - 1) * ks + i < data@.len(),
            decreases data@.len() + keysize - j,
        {
            col.push(data[j]);
            proof {
                assert(t * ks + i < data@.len());
                assert((t + 1) * ks + i == t * ks + i + ks) by (nonlinear_arith);
                assert(t <= t * ks) by (nonlinear_arith)
                    requires
                        ks >= 1,
                        t >= 0,
                ;
            }
            j = j + keysize;
            t = t + 1;
        }
        proof {
            let n = data@.len() as int;
            if i < n {
                // `t` steps of `ks` from `i` stop exactly past the end
                assert(t >= 1) by {
                    if t == 0 {
                        assert(j == i);
                    }
                }
                let q = (n - i - 1) / ks;
                let rr = (n - i - 1) % ks;
                vstd::arithmetic::div_mod::lemma_fundamental_div_mod(n - i - 1, ks);
                vstd::arithmetic::div_mod::lemma_mod_bound(n - i - 1, ks);
                assert((t - 1) * ks + i <= n - 1 && n - 1 < t * ks + i);
                assert(t - 1 == q) by (nonlinear_arith)
                    requires
                        n - i - 1 == ks * q + rr,
                        0 <= rr < ks,
                        (t - 1) * ks <= n - 1 - i < t * ks,
                        ks >= 1,
                ;
                assert(col@.len() == ((n - i - 1) / ks) + 1);
            } else {
                assert(t == 0) by {
                    if t >= 1 {
                        assert((t - 1) * ks >= 0) by (nonlinear_arith)
                            requires
                                t >= 1,
                                ks >= 1,
                        ;
                    }
                }
            }
            assert(col@ =~= column_spec(data@, ks, i as int));
        }
        transposed.push(col);
        i = i + 1;
    }
    transposed
}

/// The index of the first shortest buffer in the batch.
pub fn shortest_vec(vecs: &Vec<Vec<u8>>) -> (r: usize)
    requires
        vecs@.len() >= 1,
    ensures
        0 <= r < vecs@.len(),
        forall|i: int| 0 <= i < vecs@.len() ==> vecs@[r as int]@.len() <= (#[trigger] vecs@[i]@).len(),
        forall|i: int| 0 <= i < r ==> vecs@[r as int]@.len() < (#[trigger] vecs@[i]@).len(),
{
    let mut min_len = vecs[0].len();
    let mut shortest_index: usize = 0;
    let mut i: usize = 1;
    while i < vecs.len()
        invariant
            1 <= i <= vecs@.len(),
            shortest_index < i,
            min_len == vecs@[shortest_index as int]@.len(),
            forall|k: int| 0 <= k < i ==> min_len <= (#[trigger] vecs@[k]@).len(),
            forall|k: int| 0 <= k < shortest_index ==> min_len < (#[trigger] vecs@[k]@).len(),
        decreases vecs@.len() - i,
    {
        if vecs[i].len() < min_len {
            min_len = vecs[i].len();
            shortest_index = i;
        }
        i = i + 1;
    }
    shortest_index
}

/// The letters of English, most frequent first.
pub open spec fn letters_by_freq() -> Seq<char> {
    "etaoinshrdlcumwfgypbvkjxqz"@
}

/// Pair each byte, in the order given, with the next most frequent English
/// letter, as far as the letters reach.
pub fn make_mapping(bytes_by_frequency: &[u8]) -> (r: Vec<(u8, char)>)
    ensures
        r@.len() == vstd::math::min(bytes_by_frequency@.len() as int, 26),
        forall|k: int|
            0 <= k < r@.len() ==> (#[trigger] r@[k]).0 == bytes_by_frequency@[k] && r@[k].1
                == letters_by_freq()[k],
{
    let letters = "etaoinshrdlcumwfgypbvkjxqz";
    proof {
        reveal_strlit("etaoinshrdlcumwfgypbvkjxqz");
        assert(letters@.len() == 26);
    }
    let n = if bytes_by_frequency.len() < 26 {
        bytes_by_frequency.len()
    } else {
        26
    };
    let mut out: Vec<(u8, char)> = Vec::new();
    let mut k: usize = 0;
    while k < n
        invariant
            n <= bytes_by_frequency@.len(),
            n <= 26,
            letters@ == letters_by_freq(),
            letters@.len() == 26,
            k <= n,
            out@.len() == k,
            forall|k2: int|
                0 <= k2 < k ==> (#[trigger] out@[k2]).0 == bytes_by_frequency@[k2] && out@[k2].1
                    == letters_by_freq()[k2],
        decreases n - k,
    {
        let c = letters.get_char(k);
        out.push((bytes_by_frequency[k], c));
        k = k + 1;
    }
    out
}

/// Strictly before in frequency order: a smaller count, or the same count
/// and a smaller byte.
pub open spec fn freq_lt(histogram: Seq<usize>, a: u8, b: u8) -> bool {
    ||| histogram[a as int] < histogram[b as int]
    ||| (histogram[a as int] == histogram[b as int] && a < b)
}

/// The byte values `0` to `254` that occur at all, most frequent first;
/// equally frequent bytes come larger first.
pub fn bytes_by_frequency(histogram: &[usize]) -> (r: Vec<u8>)
    requires
        histogram@.len() == 256,
    ensures
        forall|i: int|
            0 <= i < r@.len() ==> (#[trigger] r@[i]) < 255 && histogram@[r@[i] as int] != 0,
        forall|i: int, j: int| 0 <= i < j < r@.len() ==> freq_lt(histogram@, r@[j], r@[i]),
        forall|v: u8| v < 255 && histogram@[v as int] != 0 ==> r@.contains(v),
{
    let mut out: Vec<u8> = Vec::new();
    let mut bi: usize = 0;
    while bi < 255
        invariant
            histogram@.len() == 256,
            bi <= 255,
            forall|i: int|
                0 <= i < out@.len() ==> (#[trigger] out@[i]) < bi && histogram@[out@[i] as int]
                    != 0,
            forall|i: int, j: int| 0 <= i < j < out@.len() ==> freq_lt(histogram@, out@[j], out@[i]),
            forall|v: u8| v < bi && histogram@[v as int] != 0 ==> out@.contains(v),
            out@.len() <= bi,
        decreases 255 - bi,
    {
        let b = bi as u8;
        if histogram[bi] != 0 {
            // walk past the entries that outrank `b`, then put it in place
            let mut pos: usize = 0;
            while pos < out.len() && (histogram[out[pos] as usize] > histogram[bi]
                || (histogram[out[pos] as usize] == histogram[bi] && out[pos] > b))
                invariant
                    histogram@.len() == 256,
                    bi < 255,
                    b == bi,
                    pos <= out@.len(),
                    forall|i: int|
                        0 <= i < out@.len() ==> (#[trigger] out@[i]) < bi
                            && histogram@[out@[i] as int] != 0,
                    forall|i: int, j: int|
                        0 <= i < j < out@.len() ==> freq_lt(histogram@, out@[j], out@[i]),
                    forall|i: int| 0 <= i < pos ==> freq_lt(histogram@, b, #[trigger] out@[i]),
                decreases out@.len() - pos,
            {
                pos = pos + 1;
            }
            let ghost old_out = out@;
            out.insert(pos, b);
            proof {
                // everything before `pos` outranks `b`; everything after
                // ranks below it, because `b` ranks below out[pos] is false
                // and the list was sorted
                assert forall|i: int, j: int|
                    0 <= i < j < out@.len() implies freq_lt(histogram@, out@[j], out@[i]) by {
                    if j < pos {
                    } else if i < pos && j == pos {
                    } else if i < pos && j > pos {
                        assert(out@[j] == old_out[j - 1]);
                    } else if i == pos {
                        assert(out@[j] == old_out[j - 1]);
                        assert(freq_lt(histogram@, old_out[j - 1], b)) by {
                            if j - 1 == pos as int {
                            } else {
                                assert(freq_lt(histogram@, old_out[j - 1], old_out[pos as int]));
                            }
                        }
                    } else {
                        assert(out@[i] == old_out[i - 1]);
                        assert(out@[j] == old_out[j - 1]);
                    }
                }
                assert forall|v: u8| v < bi + 1 && histogram@[v as int] != 0 implies out@.contains(
                    v,
                ) by {
                    if v < bi {
                        let k = choose|k: int| 0 <= k < old_out.len() && old_out[k] == v;
                        if k < pos {
                            assert(out@[k] == v);
                        } else {
                            assert(out@[k + 1] == v);
                        }
                    } else {
                        assert(out@[pos as int] == v);
                    }
                }
            }
        }
        bi = bi + 1;
        proof {
            assert forall|v: u8| v < bi && histogram@[v as int] != 0 implies out@.contains(v) by {
            }
        }
    }
    out
}

} // verus!
