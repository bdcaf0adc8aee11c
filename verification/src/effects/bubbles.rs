//! Bubbles: characters rise in bubbles that float down onto the text, pop,
//! and send each character home.
use vstd::prelude::*;

use crate::effects::random::{
    high32, lemma_xorshift_shuffled_multiset, swap_items, xorshift64, xorshift_shuffle,
    xorshift_shuffled,
};
use crate::graphics::{from_hex_splits_char, hex_or_white, Color};

verus! {

/// The bubbles effect.
#[derive(Clone, Copy, Debug, PartialEq, Eq, Structural)]
pub struct Bubbles;

impl Bubbles {
    pub fn new() -> (e: Self)
        ensures
            e == Bubbles,
    {
        Bubbles
    }

    pub fn name(&self) -> (n: &'static str)
        ensures
            n@ == "bubbles"@,
    {
        "bubbles"
    }
}

impl Default for Bubbles {
    fn default() -> (e: Self)
        ensures
            e == Bubbles,
    {
        Bubbles::new()
    }
}

/// The color `hex` names, white when it names none.
pub fn color(hex: &str) -> (c: Color)
    requires
        !from_hex_splits_char(hex@),
    ensures
        c == hex_or_white(hex@),
{
    match Color::from_hex(hex) {
        Some(c) => c,
        None => Color::rgb(255, 255, 255),
    }
}

/// `x` clamped to the range of `i32`.
pub open spec fn saturate_i32(x: int) -> i32 {
    if x > i32::MAX {
        i32::MAX
    } else if x < i32::MIN {
        i32::MIN
    } else {
        x as i32
    }
}

/// The count of values in `lo..=hi`, as the generator reduces it to 32 bits.
pub open spec fn inclusive_span(lo: i32, hi: i32) -> u32 {
    (hi - lo + 1) as u32
}

/// The effect's xorshift64 generator.
pub struct SimpleRng {
    pub state: u64,
}

impl SimpleRng {
    /// Seeds the generator; the low bit is set so the state is never zero.
    pub fn new(seed: u64) -> (r: Self)
        ensures
            r.state == seed | 1,
    {
        SimpleRng { state: seed | 1 }
    }

    pub fn next(&mut self) -> (v: u32)
        ensures
            final(self).state == xorshift64(old(self).state),
            v == high32(final(self).state),
    {
        let mut x = self.state;
        x = x ^ (x << 13u64);
        x = x ^ (x >> 7u64);
        x = x ^ (x << 17u64);
        self.state = x;
        (x >> 32u64) as u32
    }

    /// A draw in `lo..=hi` (`lo` when the range is empty), added to `lo` with saturation.
    pub fn gen_inclusive(&mut self, lo: i32, hi: i32) -> (v: i32)
        requires
            hi - lo + 1 != 0x1_0000_0000,
        ensures
            hi <= lo ==> v == lo && final(self).state == old(self).state,
            lo < hi ==> {
                &&& final(self).state == xorshift64(old(self).state)
                &&& v == saturate_i32(
                    lo + ((high32(final(self).state) % inclusive_span(lo, hi)) as i32),
                )
            },
    {
        if hi <= lo {
            return lo;
        }
        let span = (hi as i64 - lo as i64 + 1) as u32;
        let offset = (self.next() % span) as i32;
        let sum = lo as i64 + offset as i64;
        if sum > i32::MAX as i64 {
            i32::MAX
        } else if sum < i32::MIN as i64 {
            i32::MIN
        } else {
            sum as i32
        }
    }

    /// Shuffles `items` in place (Fisher–Yates, last position first).
    pub fn shuffle<T: Copy>(&mut self, items: &mut Vec<T>)
        ensures
            (final(items)@, final(self).state) == xorshift_shuffle(old(items)@, old(self).state),
            final(items)@.to_multiset() == old(items)@.to_multiset(),
    {
        let n = items.len();
        if n <= 1 {
            return;
        }
        proof {
            lemma_xorshift_shuffled_multiset(items@, self.state, (n - 1) as nat);
        }
        let mut i: usize = n - 1;
        while i > 0
            invariant
                i < n,
                items@.len() == n,
                xorshift_shuffled(items@, self.state, i as nat) == xorshift_shuffle(
                    old(items)@,
                    old(self).state,
                ),
            decreases i,
        {
            let j = (self.next() as usize) % (i + 1);
            swap_items(items, i, j);
            i = i - 1;
        }
    }
}

/// `count` consecutive positions from `start`.
pub open spec fn positions(start: nat, count: nat) -> Seq<usize> {
    Seq::new(count, |i: int| (start + i) as usize)
}

/// The positions `next..n` split into bubbles of 5 to 20 members drawn in turn
/// (the last one possibly smaller), with the generator state afterwards.
pub open spec fn bubble_chunks(n: nat, next: nat, state: u64) -> (Seq<Seq<usize>>, u64)
    decreases n - next,
{
    if next >= n {
        (Seq::empty(), state)
    } else {
        let st = xorshift64(state);
        let draw = 5 + (high32(st) % 16) as nat;
        let take = if draw < n - next {
            draw
        } else {
            (n - next) as nat
        };
        let rest = bubble_chunks(n, next + take, st);
        (seq![positions(next, take)] + rest.0, rest.1)
    }
}

/// Splits the positions `0..n` into bubbles of 5 to 20 members, in order.
pub fn bubble_groups(n: usize, rng: &mut SimpleRng) -> (groups: Vec<Vec<usize>>)
    ensures
        (groups@.map_values(|g: Vec<usize>| g@), final(rng).state) == bubble_chunks(
            n as nat,
            0,
            old(rng).state,
        ),
{
    let mut groups: Vec<Vec<usize>> = Vec::new();
    let mut next: usize = 0;
    while next < n
        invariant
            next <= n,
            bubble_chunks(n as nat, 0, old(rng).state) == (
                groups@.map_values(|g: Vec<usize>| g@) + bubble_chunks(n as nat, next as nat, rng.state).0,
                bubble_chunks(n as nat, next as nat, rng.state).1,
            ),
        decreases n - next,
    {
        let ghost before = groups@.map_values(|g: Vec<usize>| g@);
        let ghost s0 = rng.state;
        let draw = rng.gen_inclusive(5, 20);
        proof {
            assert(inclusive_span(5, 20) == 16);
        }
        let draw = draw as usize;
        let take = if draw < n - next {
            draw
        } else {
            n - next
        };
        let mut group: Vec<usize> = Vec::new();
        let mut k: usize = 0;
        while k < take
            invariant
                k <= take,
                next + take <= n,
                group@ == positions(next as nat, k as nat),
            decreases take - k,
        {
            group.push(next + k);
            proof {
                assert(group@ =~= positions(next as nat, (k + 1) as nat));
            }
            k = k + 1;
        }
        groups.push(group);
        proof {
            let chunk = bubble_chunks(n as nat, next as nat, s0);
            assert(chunk.0 =~= seq![positions(next as nat, take as nat)] + bubble_chunks(
                n as nat,
                (next + take) as nat,
                rng.state,
            ).0);
            assert(groups@.map_values(|g: Vec<usize>| g@) =~= before.push(positions(next as nat, take as nat)));
            assert(before + chunk.0 =~= groups@.map_values(|g: Vec<usize>| g@) + bubble_chunks(
                n as nat,
                (next + take) as nat,
                rng.state,
            ).0);
        }
        next = next + take;
    }
    proof {
        assert(groups@.map_values(|g: Vec<usize>| g@) + Seq::<Seq<usize>>::empty() =~= groups@.map_values(
            |g: Vec<usize>| g@,
        ));
    }
    groups
}

} // verus!
