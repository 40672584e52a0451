//! The profile-cookie exercise: parse `key=value` cookies, build quoted
//! profiles, and encrypt them under ECB with a fixed key.

use vstd::prelude::*;
use crate::aes::{encrypt_ecb, decrypt_ecb, ecb_cipher_spec, CipherError};
use crate::bytes::{pad, unpad, pkcs7_pad};

verus! {

/// The first position of `c` in `s`, or the length when `c` is absent.
pub open spec fn find_char(s: Seq<char>, c: char) -> int
    decreases s.len(),
{
    if s.len() == 0 {
        0
    } else if s[0] == c {
        0
    } else {
        1 + find_char(s.skip(1), c)
    }
}

/// `find_char` points at the first occurrence: everything before it
/// differs from `c`, and it sits on `c` or past the end.
pub proof fn lemma_find_char(s: Seq<char>, c: char)
    ensures
        0 <= find_char(s, c) <= s.len(),
        forall|i: int| 0 <= i < find_char(s, c) ==> s[i] != c,
        find_char(s, c) < s.len() ==> s[find_char(s, c)] == c,
    decreases s.len(),
{
    if s.len() == 0 {
    } else if s[0] == c {
    } else {
        lemma_find_char(s.skip(1), c);
        assert forall|i: int| 0 <= i < find_char(s, c) implies s[i] != c by {
            if i > 0 {
                assert(s.skip(1)[i - 1] == s[i]);
            }
        }
        if find_char(s, c) < s.len() {
            assert(s.skip(1)[find_char(s, c) - 1] == s[find_char(s, c)]);
        }
    }
}

/// `s` cut at every occurrence of `sep`: the separators vanish, empty
/// pieces stay.
pub open spec fn split_char(s: Seq<char>, sep: char) -> Seq<Seq<char>>
    decreases s.len(),
{
    let f = find_char(s, sep);
    if 0 <= f < s.len() {
        seq![s.take(f)] + split_char(s.skip(f + 1), sep)
    } else {
        seq![s]
    }
}

/// The key and value of one `key=value` field; a field without exactly
/// one `=`, or with nothing before it, carries none.
pub open spec fn pair_of(field: Seq<char>) -> Option<(Seq<char>, Seq<char>)> {
    let parts = split_char(field, '=');
    if parts.len() == 2 && parts[0].len() > 0 {
        Some((parts[0], parts[1]))
    } else {
        None
    }
}

/// The position of `k` among the keys of `m`, or the length when absent.
pub open spec fn key_index(m: Seq<(Seq<char>, Seq<char>)>, k: Seq<char>) -> int
    decreases m.len(),
{
    if m.len() == 0 {
        0
    } else if m[0].0 == k {
        0
    } else {
        1 + key_index(m.skip(1), k)
    }
}

/// `key_index` points at the first entry with that key.
pub proof fn lemma_key_index(m: Seq<(Seq<char>, Seq<char>)>, k: Seq<char>)
    ensures
        0 <= key_index(m, k) <= m.len(),
        forall|i: int| 0 <= i < key_index(m, k) ==> m[i].0 != k,
        key_index(m, k) < m.len() ==> m[key_index(m, k)].0 == k,
    decreases m.len(),
{
    if m.len() == 0 {
    } else if m[0].0 == k {
    } else {
        lemma_key_index(m.skip(1), k);
        assert forall|i: int| 0 <= i < key_index(m, k) implies m[i].0 != k by {
            if i > 0 {
                assert(m.skip(1)[i - 1] == m[i]);
            }
        }
        if key_index(m, k) < m.len() {
            assert(m.skip(1)[key_index(m, k) - 1] == m[key_index(m, k)]);
        }
    }
}

/// `m` with `kv` put in: over the entry already holding that key, or at
/// the end.
pub open spec fn map_insert(
    m: Seq<(Seq<char>, Seq<char>)>,
    kv: (Seq<char>, Seq<char>),
) -> Seq<(Seq<char>, Seq<char>)> {
    let j = key_index(m, kv.0);
    if j < m.len() {
        m.update(j, kv)
    } else {
        m.push(kv)
    }
}

/// The entries a list of fields parses to, first to last, a later value
/// overriding an earlier one under the same key.
pub open spec fn entries_of(fields: Seq<Seq<char>>) -> Seq<(Seq<char>, Seq<char>)>
    decreases fields.len(),
{
    if fields.len() == 0 {
        Seq::empty()
    } else {
        let prev = entries_of(fields.drop_last());
        match pair_of(fields.last()) {
            Some(kv) => map_insert(prev, kv),
            None => prev,
        }
    }
}

/// What a whole cookie parses to.
pub open spec fn cookie_entries(s: Seq<char>) -> Seq<(Seq<char>, Seq<char>)> {
    entries_of(split_char(s, '&'))
}

/// Inserting keeps the keys pairwise distinct.
proof fn lemma_map_insert_unique(m: Seq<(Seq<char>, Seq<char>)>, kv: (Seq<char>, Seq<char>))
    requires
        forall|i: int, j: int| 0 <= i < j < m.len() ==> m[i].0 != m[j].0,
    ensures
        forall|i: int, j: int|
            0 <= i < j < map_insert(m, kv).len() ==> map_insert(m, kv)[i].0 != map_insert(
                m,
                kv,
            )[j].0,
{
    lemma_key_index(m, kv.0);
    let j = key_index(m, kv.0);
    let r = map_insert(m, kv);
    if j < m.len() {
        assert forall|a: int, b: int| 0 <= a < b < r.len() implies r[a].0 != r[b].0 by {
            if a == j {
                assert(m[b].0 != m[j].0);
            } else if b == j {
                assert(m[a].0 != k_of(m, j));
            }
        }
    } else {
        assert forall|a: int, b: int| 0 <= a < b < r.len() implies r[a].0 != r[b].0 by {
            if b == m.len() as int {
                assert(m[a].0 != kv.0);
            }
        }
    }
}

/// The key of entry `j`.
spec fn k_of(m: Seq<(Seq<char>, Seq<char>)>, j: int) -> Seq<char> {
    m[j].0
}

/// Every parse has pairwise distinct keys.
pub proof fn lemma_entries_unique(fields: Seq<Seq<char>>)
    ensures
        forall|i: int, j: int|
            0 <= i < j < entries_of(fields).len() ==> entries_of(fields)[i].0 != entries_of(
                fields,
            )[j].0,
    decreases fields.len(),
{
    if fields.len() > 0 {
        lemma_entries_unique(fields.drop_last());
        match pair_of(fields.last()) {
            Some(kv) => {
                lemma_map_insert_unique(entries_of(fields.drop_last()), kv);
            },
            None => {},
        }
    }
}

/// A parsed cookie: its `key=value` entries, each key once.
pub struct CookieMap {
    pairs: Vec<(String, String)>,
}

impl CookieMap {
    /// The entries, as character sequences.
    pub closed spec fn entries(&self) -> Seq<(Seq<char>, Seq<char>)> {
        Seq::new(self.pairs@.len(), |i: int| (self.pairs@[i].0@, self.pairs@[i].1@))
    }

    /// How many distinct keys the cookie carried.
    pub fn len(&self) -> (r: usize)
        ensures
            r == self.entries().len(),
    {
        self.pairs.len()
    }

    /// Whether some entry carries this key.
    pub fn contains_key(&self, key: &str) -> (r: bool)
        ensures
            r == exists|i: int|
                0 <= i < self.entries().len() && (#[trigger] self.entries()[i]).0 == key@,
    {
        let mut i: usize = 0;
        while i < self.pairs.len()
            invariant
                i <= self.pairs@.len(),
                forall|j: int| 0 <= j < i ==> (#[trigger] self.pairs@[j].0@) != key@,
        decreases self.pairs@.len() - i,
        {
            if eq_str(self.pairs[i].0.as_str(), key) {
                proof {
                    assert((self.entries()[i as int]).0 == key@);
                }
                return true;
            }
            i = i + 1;
        }
        proof {
            assert forall|i: int|
                0 <= i < self.entries().len() implies (#[trigger] self.entries()[i]).0
                != key@ by {
                assert((self.entries()[i]).0 == self.pairs@[i].0@);
            }
        }
        false
    }
}

/// Whether two strings hold the same characters.
fn eq_str(a: &str, b: &str) -> (r: bool)
    ensures
        r == (a@ == b@),
{
    let an = a.unicode_len();
    let bn = b.unicode_len();
    if an != bn {
        assert(a@ != b@);
        return false;
    }
    let mut i: usize = 0;
    while i < an
        invariant
            an == a@.len(),
            a@.len() == b@.len(),
            i <= an,
            forall|j: int| 0 <= j < i ==> a@[j] == b@[j],
        decreases an - i,
    {
        if a.get_char(i) != b.get_char(i) {
            assert(a@ != b@);
            return false;
        }
        i = i + 1;
    }
    proof {
        assert(a@ =~= b@);
    }
    true
}

/// The piece of `s` from `from` up to the next `sep`, and the position
/// just past that separator (or past the end).
fn scan_field(s: &str, from: usize, sep: char) -> (r: (String, usize))
    requires
        from <= s@.len(),
        s@.len() < usize::MAX,
    ensures
        r.0@ == s@.skip(from as int).take(find_char(s@.skip(from as int), sep)),
        r.1 == from + find_char(s@.skip(from as int), sep) + 1,
    decreases s@.len() - from,
{
    let ghost rest = s@.skip(from as int);
    let n = s.unicode_len();
    let mut out = String::new();
    let mut i: usize = from;
    proof {
        lemma_find_char(rest, sep);
    }
    while i < n && s.get_char(i) != sep
        invariant
            from <= i <= n,
            n == s@.len(),
            rest == s@.skip(from as int),
            forall|j: int| 0 <= j < i - from ==> rest[j] != sep,
            out@ == rest.take(i - from),
        decreases n - i,
    {
        let c = s.get_char(i);
        out.append(char_to_str(c).as_str());
        i = i + 1;
        assert(out@ =~= rest.take(i - from));
    }
    proof {
        lemma_find_char(rest, sep);
        if i < n {
            assert(rest[i - from] == sep);
            assert(find_char(rest, sep) == i - from) by {
                lemma_find_char_at(rest, sep, i - from);
            }
        } else {
            assert(find_char(rest, sep) == rest.len()) by {
                lemma_find_char_at_end(rest, sep);
            }
        }
    }
    (out, i + 1)
}

/// A one-character string.
fn char_to_str(c: char) -> (r: String)
    ensures
        r@ == seq![c],
{
    let mut s = String::new();
    proof {
        assert(s@ =~= Seq::<char>::empty());
    }
    string_push_char(&mut s, c);
    assert(s@ =~= seq![c]);
    s
}

/// Relies on String::push: it appends exactly the one character.
#[verifier::external_body]
fn string_push_char(s: &mut String, c: char)
    ensures
        final(s)@ == old(s)@ + seq![c],
{
    s.push(c);
}

/// When everything before `k` differs from `c` and `k` holds `c`, the
/// first occurrence is `k`.
proof fn lemma_find_char_at(s: Seq<char>, c: char, k: int)
    requires
        0 <= k < s.len(),
        forall|i: int| 0 <= i < k ==> s[i] != c,
        s[k] == c,
    ensures
        find_char(s, c) == k,
    decreases k,
{
    if k > 0 {
        assert(s[0] != c);
        lemma_find_char_at(s.skip(1), c, k - 1);
        assert(s.skip(1)[k - 1] == s[k]);
        assert(forall|i: int| 0 <= i < k - 1 ==> s.skip(1)[i] == s[i + 1]);
    }
}

/// When no position holds `c`, the first occurrence is the length.
proof fn lemma_find_char_at_end(s: Seq<char>, c: char)
    requires
        forall|i: int| 0 <= i < s.len() ==> s[i] != c,
    ensures
        find_char(s, c) == s.len(),
    decreases s.len(),
{
    if s.len() > 0 {
        lemma_find_char_at_end(s.skip(1), c);
        assert(forall|i: int| 0 <= i < s.len() - 1 ==> s.skip(1)[i] == s[i + 1]);
    }
}

/// Parse a cookie into its `key=value` entries: fields split on `&`, a
/// field counts only with exactly one `=` and a nonempty key, and a later
/// value replaces an earlier one under the same key.
pub fn parse_cookie(cookie: &str) -> (r: CookieMap)
    requires
        cookie@.len() < 0x10000000,
    ensures
        r.entries() == cookie_entries(cookie@),
{
    let n = cookie.unicode_len();
    let mut pairs: Vec<(String, String)> = Vec::new();
    let mut pos: usize = 0;
    let mut fields: Vec<String> = Vec::new();
    proof {
        assert(cookie@.skip(0) =~= cookie@);
        assert(Seq::new(0, |i: int| fields@[i]@) + split_char(cookie@, '&') =~= split_char(
            cookie@,
            '&',
        ));
    }
    // first cut the cookie into fields
    while pos <= n
        invariant
            n == cookie@.len(),
            n < 0x10000000,
            pos <= n + 1,
            split_char(cookie@, '&') == Seq::new(fields@.len(), |i: int| fields@[i]@) + (if pos
                <= n {
                split_char(cookie@.skip(pos as int), '&')
            } else {
                Seq::<Seq<char>>::empty()
            }),
        decreases n + 1 - pos,
    {
        let ghost done = Seq::new(fields@.len(), |i: int| fields@[i]@);
        let ghost oldpos = pos as int;
        let (field, next) = scan_field(cookie, pos, '&');
        fields.push(field);
        pos = next;
        proof {
            let rest = cookie@.skip(oldpos);
            lemma_find_char(rest, '&');
            let f = find_char(rest, '&');
            let done2 = Seq::new(fields@.len(), |i: int| fields@[i]@);
            assert(done2 =~= done.push(field@));
            if f < rest.len() {
                assert(split_char(rest, '&') == seq![rest.take(f)] + split_char(
                    rest.skip(f + 1),
                    '&',
                ));
                assert(rest.skip(f + 1) =~= cookie@.skip(oldpos + f + 1));
                assert(split_char(cookie@, '&') =~= done2 + split_char(
                    cookie@.skip(pos as int),
                    '&',
                ));
            } else {
                assert(field@ =~= rest);
                assert(split_char(rest, '&') == seq![rest]);
                assert(split_char(cookie@, '&') =~= done2);
            }
        }
    }
    proof {
        assert(split_char(cookie@, '&') =~= Seq::new(fields@.len(), |i: int| fields@[i]@));
        lemma_split_piece_len(cookie@, '&');
        assert forall|i: int| 0 <= i < fields@.len() implies (#[trigger] fields@[i]@).len()
            <= n by {
            assert(fields@[i]@ == split_char(cookie@, '&')[i]);
        }
    }
    // then fold the fields into the map, later keys replacing earlier
    let mut k: usize = 0;
    while k < fields.len()
        invariant
            k <= fields@.len(),
            n == cookie@.len(),
            n < 0x10000000,
            split_char(cookie@, '&') == Seq::new(fields@.len(), |i: int| fields@[i]@),
            forall|i: int| 0 <= i < fields@.len() ==> (#[trigger] fields@[i]@).len() <= n,
            forall|i: int, j: int|
                0 <= i < j < pairs@.len() ==> (#[trigger] pairs@[i].0@) != (#[trigger] pairs@[j].0@),
            Seq::new(pairs@.len(), |i: int| (pairs@[i].0@, pairs@[i].1@)) == entries_of(
                Seq::new(k as nat, |i: int| fields@[i]@),
            ),
        decreases fields@.len() - k,
    {
        let field = &fields[k];
        let (key, eq_next) = scan_field(field.as_str(), 0, '=');
        let ghost fv = field@;
        proof {
            assert(fv.skip(0) =~= fv);
            lemma_find_char(fv, '=');
        }
        if eq_next <= field.unicode_len() && key.unicode_len() > 0 {
            // one '=' found and the key is nonempty; the value must hold
            // no further '='
            let (value, v_next) = scan_field(field.as_str(), eq_next, '=');
            proof {
                lemma_find_char(fv.skip(eq_next as int), '=');
            }
            if v_next > field.unicode_len() {
                proof {
                    let f1 = find_char(fv, '=');
                    assert(split_char(fv, '=') =~= seq![fv.take(f1)] + split_char(
                        fv.skip(f1 + 1),
                        '=',
                    ));
                    assert(split_char(fv.skip(f1 + 1), '=') =~= seq![fv.skip(f1 + 1)]);
                    assert(pair_of(fv) == Some((key@, value@)));
                }
                insert_pair(&mut pairs, key, value);
            } else {
                proof {
                    lemma_three_parts(fv);
                }
            }
        } else {
            proof {
                let f1 = find_char(fv, '=');
                if f1 >= fv.len() {
                    assert(split_char(fv, '=') =~= seq![fv]);
                    assert(pair_of(fv) is None);
                } else {
                    assert(fv.take(f1).len() == 0);
                    assert(pair_of(fv) is None);
                }
            }
        }
        k = k + 1;
        proof {
            assert(Seq::new(k as nat, |i: int| fields@[i]@).drop_last() =~= Seq::new(
                (k - 1) as nat,
                |i: int| fields@[i]@,
            ));
            assert(Seq::new(k as nat, |i: int| fields@[i]@).last() == fields@[k - 1]@);
        }
    }
    proof {
        assert(Seq::new(fields@.len(), |i: int| fields@[i]@) =~= Seq::new(
            fields@.len(),
            |i: int| fields@[i]@,
        ));
    }
    let r = CookieMap { pairs };
    proof {
        assert(r.entries() =~= cookie_entries(cookie@));
    }
    r
}

/// A field with a second `=` in its value splits in three and carries no
/// pair.
proof fn lemma_three_parts(fv: Seq<char>)
    requires
        find_char(fv, '=') < fv.len(),
        find_char(fv.skip(find_char(fv, '=') + 1), '=') < fv.skip(find_char(fv, '=') + 1).len(),
    ensures
        pair_of(fv) is None,
{
    let f1 = find_char(fv, '=');
    let rest = fv.skip(f1 + 1);
    let f2 = find_char(rest, '=');
    lemma_find_char(fv, '=');
    lemma_find_char(rest, '=');
    assert(split_char(fv, '=') == seq![fv.take(f1)] + split_char(rest, '='));
    assert(split_char(rest, '=') == seq![rest.take(f2)] + split_char(rest.skip(f2 + 1), '='));
    assert(split_char(rest.skip(f2 + 1), '=').len() >= 1) by {
        lemma_split_nonempty(rest.skip(f2 + 1));
    }
    assert(split_char(fv, '=').len() >= 3);
}

/// A split always has at least one piece.
proof fn lemma_split_nonempty(s: Seq<char>)
    ensures
        split_char(s, '=').len() >= 1,
{
    lemma_find_char(s, '=');
}

/// No piece of a split outgrows the string it was cut from.
proof fn lemma_split_piece_len(s: Seq<char>, sep: char)
    ensures
        forall|i: int|
            0 <= i < split_char(s, sep).len() ==> (#[trigger] split_char(s, sep)[i]).len()
                <= s.len(),
    decreases s.len(),
{
    lemma_find_char(s, sep);
    let f = find_char(s, sep);
    if 0 <= f < s.len() {
        lemma_split_piece_len(s.skip(f + 1), sep);
        assert forall|i: int|
            0 <= i < split_char(s, sep).len() implies (#[trigger] split_char(s, sep)[i]).len()
            <= s.len() by {
            if i > 0 {
                assert(split_char(s, sep)[i] == split_char(s.skip(f + 1), sep)[i - 1]);
            }
        }
    }
}

/// Put one parsed pair into the map, replacing the entry that already
/// carries the key.
fn insert_pair(pairs: &mut Vec<(String, String)>, key: String, value: String)
    requires
        forall|i: int, j: int|
            0 <= i < j < old(pairs)@.len() ==> (#[trigger] old(pairs)@[i].0@) != (#[trigger] old(
                pairs,
            )@[j].0@),
    ensures
        forall|i: int, j: int|
            0 <= i < j < final(pairs)@.len() ==> (#[trigger] final(pairs)@[i].0@)
                != (#[trigger] final(pairs)@[j].0@),
        Seq::new(final(pairs)@.len(), |i: int| (final(pairs)@[i].0@, final(pairs)@[i].1@))
            == map_insert(
            Seq::new(old(pairs)@.len(), |i: int| (old(pairs)@[i].0@, old(pairs)@[i].1@)),
            (key@, value@),
        ),
{
    let ghost m = Seq::new(pairs@.len(), |i: int| (pairs@[i].0@, pairs@[i].1@));
    proof {
        assert(m =~~= Seq::new(
            old(pairs)@.len(),
            |i: int| (old(pairs)@[i].0@, old(pairs)@[i].1@),
        ));
        lemma_key_index(m, key@);
    }
    let mut i: usize = 0;
    while i < pairs.len()
        invariant
            i <= pairs@.len(),
            pairs@ == old(pairs)@,
            m == Seq::new(pairs@.len(), |i2: int| (pairs@[i2].0@, pairs@[i2].1@)),
            m == Seq::new(old(pairs)@.len(), |i2: int| (old(pairs)@[i2].0@, old(pairs)@[i2].1@)),
            forall|a: int, b: int|
                0 <= a < b < pairs@.len() ==> (#[trigger] pairs@[a].0@)
                    != (#[trigger] pairs@[b].0@),
            forall|j: int| 0 <= j < i ==> (#[trigger] pairs@[j].0@) != key@,
        decreases pairs@.len() - i,
    {
        if eq_str(pairs[i].0.as_str(), key.as_str()) {
            proof {
                assert(m[i as int].0 == key@);
                lemma_key_index_is(m, key@, i as int);
            }
            let ghost before = pairs@;
            pairs.set(i, (key, value));
            proof {
                assert(Seq::new(pairs@.len(), |i2: int| (pairs@[i2].0@, pairs@[i2].1@))
                    =~~= map_insert(m, (key@, value@)));
                assert forall|a: int, b: int|
                    0 <= a < b < pairs@.len() implies (#[trigger] pairs@[a].0@)
                    != (#[trigger] pairs@[b].0@) by {
                    if a == i {
                        assert(before[b].0@ != before[i as int].0@);
                    } else if b == i {
                        assert(before[a].0@ != before[i as int].0@);
                    }
                }
            }
            return ;
        }
        i = i + 1;
    }
    proof {
        lemma_key_index_absent(m, key@);
    }
    let ghost before = pairs@;
    pairs.push((key, value));
    proof {
        assert(Seq::new(pairs@.len(), |i2: int| (pairs@[i2].0@, pairs@[i2].1@)) =~~= map_insert(
            m,
            (key@, value@),
        ));
        assert forall|a: int, b: int|
            0 <= a < b < pairs@.len() implies (#[trigger] pairs@[a].0@)
            != (#[trigger] pairs@[b].0@) by {
            if b == before.len() as int {
                assert(before[a].0@ != key@);
            }
        }
    }
}

/// When everything before `k` misses the key and `k` carries it, the key
/// sits at `k`.
proof fn lemma_key_index_is(m: Seq<(Seq<char>, Seq<char>)>, key: Seq<char>, k: int)
    requires
        0 <= k < m.len(),
        forall|i: int| 0 <= i < k ==> m[i].0 != key,
        m[k].0 == key,
    ensures
        key_index(m, key) == k,
    decreases k,
{
    if k > 0 {
        assert(m[0].0 != key);
        lemma_key_index_is(m.skip(1), key, k - 1);
        assert(m.skip(1)[k - 1] == m[k]);
        assert(forall|i: int| 0 <= i < k - 1 ==> m.skip(1)[i] == m[i + 1]);
    }
}

/// When no entry carries the key, the index is the length.
proof fn lemma_key_index_absent(m: Seq<(Seq<char>, Seq<char>)>, key: Seq<char>)
    requires
        forall|i: int| 0 <= i < m.len() ==> m[i].0 != key,
    ensures
        key_index(m, key) == m.len(),
    decreases m.len(),
{
    if m.len() > 0 {
        lemma_key_index_absent(m.skip(1), key);
        assert(forall|i: int| 0 <= i < m.len() - 1 ==> m.skip(1)[i] == m[i + 1]);
    }
}

/// `s` with every `=` and `&` dropped.
pub open spec fn strip_spec(s: Seq<char>) -> Seq<char>
    decreases s.len(),
{
    if s.len() == 0 {
        Seq::empty()
    } else {
        strip_spec(s.drop_last()) + (if s.last() == '=' || s.last() == '&' {
            Seq::empty()
        } else {
            seq![s.last()]
        })
    }
}

/// Drop the cookie metacharacters `=` and `&` from a string.
pub fn strip_metas(s: &str) -> (r: String)
    ensures
        r@ == strip_spec(s@),
{
    let n = s.unicode_len();
    let mut out = String::new();
    proof {
        assert(out@ =~= strip_spec(s@.take(0)));
    }
    let mut i: usize = 0;
    while i < n
        invariant
            n == s@.len(),
            i <= n,
            out@ == strip_spec(s@.take(i as int)),
        decreases n - i,
    {
        let c = s.get_char(i);
        if c != '=' && c != '&' {
            string_push_char(&mut out, c);
        }
        i = i + 1;
        proof {
            assert(s@.take(i as int).drop_last() =~= s@.take(i - 1));
            assert(out@ =~= strip_spec(s@.take(i as int)));
        }
    }
    proof {
        assert(s@.take(n as int) =~= s@);
    }
    out
}

/// The profile cookie for an email address, the metacharacters stripped
/// out of it first.
pub fn profile_for(email: &str) -> (r: String)
    ensures
        r@ == "email="@ + strip_spec(email@) + "&uid=10&role=user"@,
{
    let mut out = String::from_str("email=");
    let stripped = strip_metas(email);
    out.append(stripped.as_str());
    out.append("&uid=10&role=user");
    out
}

/// ASCII characters, one byte each.
pub open spec fn chars_to_bytes(s: Seq<char>) -> Seq<u8> {
    Seq::new(s.len(), |i: int| s[i] as u8)
}

/// What String::from_utf8_lossy draws from a byte string: a function of
/// the bytes alone.
pub uninterp spec fn utf8_lossy_of(b: Seq<u8>) -> Seq<char>;

/// Relies on String::from_utf8_lossy: deterministic in the bytes, and
/// bytes below 128 come back as exactly those characters.
#[verifier::external_body]
fn utf8_lossy(b: &[u8]) -> (r: String)
    ensures
        r@ == utf8_lossy_of(b@),
        (forall|i: int| 0 <= i < b@.len() ==> b@[i] < 128) ==> r@ == Seq::new(
            b@.len(),
            |i: int| b@[i] as char,
        ),
{
    String::from_utf8_lossy(b).to_string()
}

/// The profile service: it hands out ECB encryptions of profile cookies
/// under a fixed hidden key, and parses what comes back.
pub struct ProfileOracle {
    key: Vec<u8>,
}

impl ProfileOracle {
    /// The hidden key has the cipher's size.
    pub closed spec fn wf(&self) -> bool {
        self.key@.len() == 16
    }

    /// The hidden key.
    pub closed spec fn spec_key(&self) -> Seq<u8> {
        self.key@
    }

    /// Fix the hidden key once for the service's lifetime.
    pub fn new(key: Vec<u8>) -> (r: ProfileOracle)
        requires
            key@.len() == 16,
        ensures
            r.wf(),
            r.spec_key() == key@,
    {
        ProfileOracle { key }
    }

    /// Pad and encrypt a buffer under the hidden key.
    pub fn encrypt(&self, data: &[u8]) -> (r: Vec<u8>)
        requires
            self.wf(),
            data@.len() < 0x10000000,
        ensures
            r@ == ecb_cipher_spec(self.spec_key(), pkcs7_pad(data@, 16)),
    {
        let cleartext = vstd::slice::slice_to_vec(data);
        let padded = pad(cleartext, 16);
        match encrypt_ecb(padded.as_slice(), self.key.as_slice()) {
            Ok(c) => c,
            Err(_) => {
                proof {
                    assert(false);
                }
                Vec::new()
            },
        }
    }

    /// The encrypted profile cookie for an email address. For a profile of
    /// plain ASCII the ciphertext is pinned byte for byte; an address that
    /// drives the profile outside ASCII is refused.
    pub fn oracle(&self, email: &str) -> (r: Result<Vec<u8>, CipherError>)
        requires
            self.wf(),
            email@.len() < 0x1000000,
        ensures
            ({
                let profile = "email="@ + strip_spec(email@) + "&uid=10&role=user"@;
                &&& (r is Ok <==> is_ascii_seq(profile))
                &&& r is Ok ==> r->Ok_0@ == ecb_cipher_spec(
                    self.spec_key(),
                    pkcs7_pad(chars_to_bytes(profile), 16),
                )
            }),
    {
        let ghost profile_chars = "email="@ + strip_spec(email@) + "&uid=10&role=user"@;
        let profile = profile_for(email);
        proof {
            lemma_strip_len(email@);
        }
        let pstr = profile.as_str();
        if !pstr.is_ascii() {
            return Err(CipherError::InvalidLength);
        }
        let bytes = pstr.as_bytes();
        proof {
            vstd::string::is_ascii_spec_bytes(pstr);
            assert(bytes@ =~= chars_to_bytes(profile_chars));
            reveal_strlit("email=");
            reveal_strlit("&uid=10&role=user");
            assert(bytes@.len() < 0x10000000);
        }
        Ok(self.encrypt(bytes))
    }

    /// Decrypt a ciphertext under the hidden key, strip the padding, and
    /// parse the plaintext as a cookie. A plaintext that does not end in a
    /// plausible pad count, or that overflows the parser, is refused.
    pub fn decrypt(&self, ciphertext: &[u8]) -> (r: Result<CookieMap, CipherError>)
        requires
            self.wf(),
            ciphertext@.len() % 16 == 0,
        ensures
            ({
                let plain = crate::aes::ecb_plain_spec(self.spec_key(), ciphertext@);
                let unpadded = if plain.len() == 0 {
                    plain
                } else {
                    plain.take(plain.len() - plain.last())
                };
                &&& (r is Ok <==> (plain.len() == 0 || 1 <= plain.last() <= plain.len())
                    && utf8_lossy_of(unpadded).len() < 0x10000000)
                &&& r is Ok ==> r->Ok_0.entries() == cookie_entries(utf8_lossy_of(unpadded))
            }),
    {
        let cleartext = match decrypt_ecb(ciphertext, self.key.as_slice()) {
            Ok(c) => c,
            Err(_) => {
                proof {
                    assert(false);
                }
                return Err(CipherError::InvalidLength);
            },
        };
        if cleartext.len() > 0 {
            let last = cleartext[cleartext.len() - 1];
            if last == 0 || last as usize > cleartext.len() {
                return Err(CipherError::InvalidLength);
            }
        }
        let stripped = unpad(cleartext);
        let cookie = utf8_lossy(stripped.as_slice());
        if cookie.unicode_len() >= 0x10000000 {
            return Err(CipherError::InvalidLength);
        }
        Ok(parse_cookie(cookie.as_str()))
    }
}

/// A sequence of ASCII characters.
pub open spec fn is_ascii_seq(s: Seq<char>) -> bool {
    vstd::utf8::is_ascii_chars(s)
}

/// Stripping never lengthens a string.
proof fn lemma_strip_len(s: Seq<char>)
    ensures
        strip_spec(s).len() <= s.len(),
    decreases s.len(),
{
    if s.len() > 0 {
        lemma_strip_len(s.drop_last());
    }
}

} // verus!
