//! The MT19937 pseudo-random generator: 624 words of state, a twist that
//! refreshes them in place, and a tempering of each word on the way out.

use vstd::prelude::*;

verus! {

/// The generator: its state words and the index of the next word to hand
/// out.
pub struct Mt19937 {
    mt: Vec<u32>,
    index: usize,
}

/// The output tempering: four shift-and-mask mixes of one state word.
pub open spec fn temper(y0: u32) -> u32 {
    let y1 = y0 ^ (y0 >> 11u32);
    let y2 = y1 ^ ((y1 << 7u32) & 2636928640u32);
    let y3 = y2 ^ ((y2 << 15u32) & 4022730752u32);
    y3 ^ (y3 >> 18u32)
}

/// State word `i` as seeding leaves it: the seed itself first, then a
/// wrapping multiply of the previous word folded with its high bits and
/// the position.
pub open spec fn mt_init_elem(seed: u32, i: int) -> u32
    decreases i,
{
    if i <= 0 {
        seed
    } else {
        let prev = mt_init_elem(seed, i - 1);
        let a = ((prev ^ (prev >> 30u32)) + i) % 0x100000000;
        ((1812433253 * a) % 0x100000000) as u32
    }
}

/// One twisted word, read from the state as it stands when the twist
/// reaches position `i`.
pub open spec fn twist_cell(t: Seq<u32>, i: int) -> u32 {
    let y = (((t[i] & 0x80000000u32) + (t[(i + 1) % 624] & 0x7fffffffu32)) as u32);
    let v = t[(i + 397) % 624] ^ (y >> 1u32);
    if y % 2 != 0 {
        v ^ 0x9908b0df
    } else {
        v
    }
}

/// The state after the twist has refreshed positions `0..i`, in place and
/// in order.
pub open spec fn twist_step(s: Seq<u32>, i: int) -> Seq<u32>
    decreases i,
{
    if i <= 0 {
        s
    } else {
        let t = twist_step(s, i - 1);
        t.update(i - 1, twist_cell(t, i - 1))
    }
}

/// The state after a whole twist.
pub open spec fn twist_spec(s: Seq<u32>) -> Seq<u32> {
    twist_step(s, 624)
}

impl Mt19937 {
    /// 624 state words, and an index that never runs past them.
    pub closed spec fn wf(&self) -> bool {
        &&& self.mt@.len() == 624
        &&& self.index <= 624
    }

    /// The state words.
    pub closed spec fn state(&self) -> Seq<u32> {
        self.mt@
    }

    /// The index of the next word to hand out.
    pub closed spec fn position(&self) -> int {
        self.index as int
    }
}

/// Seed a fresh generator.
#[verifier::rlimit(40)]
pub fn init(seed: u32) -> (r: Mt19937)
    ensures
        r.wf(),
        r.position() == 0,
        forall|i: int| 0 <= i < 624 ==> (#[trigger] r.state()[i]) == mt_init_elem(seed, i),
{
    let mut mt: Vec<u32> = Vec::new();
    mt.push(seed);
    let mut i: usize = 1;
    while i < 624
        invariant
            1 <= i <= 624,
            mt@.len() == i,
            forall|j: int| 0 <= j < i ==> (#[trigger] mt@[j]) == mt_init_elem(seed, j),
        decreases 624 - i,
    {
        let prev = mt[i - 1];
        let a = (prev ^ (prev >> 30u32)).wrapping_add(i as u32);
        let v = 1812433253u32.wrapping_mul(a);
        proof {
            let x = prev ^ (prev >> 30u32);
            let sum = x + i;
            if sum <= u32::MAX {
                vstd::arithmetic::div_mod::lemma_small_mod(sum as nat, 0x100000000 as nat);
            } else {
                vstd::arithmetic::div_mod::lemma_fundamental_div_mod_converse(
                    sum as int,
                    0x100000000,
                    1,
                    sum - 0x100000000,
                );
            }
            assert(a == sum % 0x100000000);
            assert(v == mt_init_elem(seed, i as int));
        }
        mt.push(v);
        i = i + 1;
    }
    Mt19937 { mt, index: 0 }
}

/// Refresh every state word in place, in order.
fn twist(mt: &mut Mt19937)
    requires
        old(mt).wf(),
    ensures
        final(mt).wf(),
        final(mt).state() == twist_spec(old(mt).state()),
        final(mt).position() == 0,
{
    let ghost orig = mt.mt@;
    let mut i: usize = 0;
    while i < 624
        invariant
            i <= 624,
            mt.mt@.len() == 624,
            mt.mt@ == twist_step(orig, i as int),
        decreases 624 - i,
    {
        let a0 = mt.mt[i];
        let b0 = mt.mt[(i + 1) % 624];
        let hi = a0 & 0x80000000;
        let lo = b0 & 0x7fffffff;
        assert(hi + lo < 0x100000000) by (bit_vector)
            requires
                hi == a0 & 0x80000000u32,
                lo == b0 & 0x7fffffffu32,
        ;
        let y = hi + lo;
        let mut v = mt.mt[(i + 397) % 624] ^ (y >> 1u32);
        if y % 2 != 0 {
            v = v ^ 0x9908b0df;
        }
        proof {
            assert(v == twist_cell(mt.mt@, i as int));
        }
        mt.mt.set(i, v);
        i = i + 1;
    }
    mt.index = 0;
}

/// Hand out the next tempered word, twisting first when the state is used
/// up.
pub fn next(mt: &mut Mt19937) -> (r: u32)
    requires
        old(mt).wf(),
    ensures
        final(mt).wf(),
        old(mt).position() < 624 ==> final(mt).state() == old(mt).state() && final(mt).position()
            == old(mt).position() + 1 && r == temper(old(mt).state()[old(mt).position()]),
        old(mt).position() >= 624 ==> final(mt).state() == twist_spec(old(mt).state())
            && final(mt).position() == 1 && r == temper(twist_spec(old(mt).state())[0]),
{
    if mt.index >= 624 {
        twist(mt);
    }
    let mut y = mt.mt[mt.index];
    y = y ^ (y >> 11u32);
    y = y ^ ((y << 7u32) & 2636928640);
    y = y ^ ((y << 15u32) & 4022730752);
    y = y ^ (y >> 18u32);
    mt.index = mt.index + 1;
    y
}

} // verus!
