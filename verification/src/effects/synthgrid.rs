//! Synth grid: a grid is drawn over the canvas, blocks of noise fill it, and
//! the text is revealed as the grid collapses.
use vstd::prelude::*;
use vstd::string::StringSliceAdditionalSpecFns;

use crate::effects::matrix::lcg32;
use crate::effects::random::{lemma_swapped_multiset, swap_items, swapped};

verus! {

/// The synthgrid effect.
#[derive(Clone, Copy, Debug, PartialEq, Eq, Structural)]
pub struct Synthgrid;

impl Synthgrid {
    pub fn new() -> (e: Self)
        ensures
            e == Synthgrid,
    {
        Synthgrid
    }

    pub fn name(&self) -> (n: &'static str)
        ensures
            n@ == "synthgrid"@,
    {
        "synthgrid"
    }
}

impl Default for Synthgrid {
    fn default() -> (e: Self)
        ensures
            e == Synthgrid,
    {
        Synthgrid::new()
    }
}

/// The largest even gap, at most a fifth of `dimension` (rounded) and at least 2, that
/// leaves a remainder of 1; 1 when there is none or the dimension is tiny.
pub open spec fn even_gap(dimension: i32) -> i32
    recommends
        dimension < 0x1000_0000,
{
    if dimension <= 2 {
        1
    } else {
        let fifth = (dimension + 2) / 5;
        let start = if fifth % 2 == 0 { fifth } else { fifth + 1 };
        let start = if start < 2 { 2 } else { start };
        gap_from(dimension, start as i32)
    }
}

/// The first even gap from `g` downward (by twos) that leaves a remainder of 1.
pub open spec fn gap_from(dimension: i32, g: i32) -> i32
    decreases g,
{
    if g <= 1 {
        if g < 1 {
            1
        } else {
            g
        }
    } else if dimension % g == 1 {
        g
    } else {
        gap_from(dimension, (g - 2) as i32)
    }
}

/// The spacing of the grid lines across `dimension` cells.
pub fn find_even_gap(dimension: i32) -> (g: i32)
    ensures
        g == even_gap(dimension),
{
    if dimension <= 2 {
        return 1;
    }
    let dim_20 = dimension / 5 + (dimension % 5 + 2) / 5;
    assert(dim_20 == (dimension + 2) / 5);
    let mut even_gap: i32 = if dim_20 % 2 == 0 {
        dim_20
    } else {
        dim_20 + 1
    };
    if even_gap < 2 {
        even_gap = 2;
    }
    let ghost start = even_gap;
    while even_gap > 1 && dimension % even_gap != 1
        invariant
            dimension > 2,
            even_gap <= start,
            gap_from(dimension, even_gap) == gap_from(dimension, start),
        decreases even_gap,
    {
        even_gap = even_gap - 2;
    }
    if even_gap < 1 {
        1
    } else {
        even_gap
    }
}

/// The seed of the effect: an FNV-style multiply-then-xor fold over the input's bytes,
/// zero replaced by one.
pub open spec fn seed_fold(bytes: Seq<u8>) -> u32
    decreases bytes.len(),
{
    if bytes.len() == 0 {
        0x9e37_79b9u32
    } else {
        seed_fold(bytes.drop_last()).wrapping_mul(16_777_619u32) ^ (bytes.last() as u32)
    }
}

/// Fisher–Yates over positions `i` down to 1, each step swapping position `i` with the
/// next 32-bit LCG state modulo `i + 1`.
pub open spec fn lcg32_shuffled<T>(s: Seq<T>, state: u32, i: nat) -> (Seq<T>, u32)
    decreases i,
{
    if i == 0 {
        (s, state)
    } else {
        let next = lcg32(state);
        lcg32_shuffled(swapped(s, i as int, ((next as usize) as int) % (i as int + 1)), next, (i - 1) as nat)
    }
}

proof fn lemma_lcg32_shuffled_multiset<T>(s: Seq<T>, state: u32, i: nat)
    requires
        i < s.len(),
    ensures
        lcg32_shuffled(s, state, i).0.to_multiset() == s.to_multiset(),
    decreases i,
{
    if i > 0 {
        let next = lcg32(state);
        let j = ((next as usize) as int) % (i as int + 1);
        lemma_swapped_multiset(s, i as int, j);
        lemma_lcg32_shuffled_multiset(swapped(s, i as int, j), next, (i - 1) as nat);
    }
}

/// The effect's 32-bit linear congruential generator.
pub struct Rng(pub u32);

impl Rng {
    /// Seeds the generator from the input.
    pub fn from_input(input: &str) -> (r: Self)
        ensures
            r.0 == (if seed_fold(input.spec_bytes()) == 0 { 1 } else { seed_fold(input.spec_bytes()) }),
    {
        let bytes = input.as_bytes();
        let mut seed: u32 = 0x9e37_79b9;
        let mut i: usize = 0;
        while i < bytes.len()
            invariant
                i <= bytes@.len(),
                bytes@ == input.spec_bytes(),
                seed == seed_fold(bytes@.take(i as int)),
            decreases bytes.len() - i,
        {
            proof {
                assert(bytes@.take(i as int + 1).drop_last() =~= bytes@.take(i as int));
            }
            seed = seed.wrapping_mul(16_777_619) ^ (bytes[i] as u32);
            i = i + 1;
        }
        proof {
            assert(bytes@.take(bytes@.len() as int) =~= bytes@);
        }
        if seed == 0 {
            seed = 1;
        }
        Rng(seed)
    }

    pub fn next_u32(&mut self) -> (v: u32)
        ensures
            final(self).0 == lcg32(old(self).0),
            v == final(self).0,
    {
        self.0 = self.0.wrapping_mul(1_664_525).wrapping_add(1_013_904_223);
        self.0
    }

    /// A draw in `lo..=hi` (just `lo`, still drawing, when `hi < lo`).
    pub fn randint(&mut self, lo: u32, hi: u32) -> (v: u32)
        ensures
            final(self).0 == lcg32(old(self).0),
            ({
                let span: int = if hi < lo { 1 } else if hi - lo + 1 > u32::MAX { u32::MAX as int } else { hi - lo + 1 };
                v == lo + (final(self).0 as int) % span
            }),
    {
        let span = hi.saturating_sub(lo).saturating_add(1);
        let r = self.next_u32();
        if span == 0 {
            return lo;
        }
        lo + r % span
    }

    /// A uniformly drawn item.
    pub fn choice<'a, T>(&mut self, items: &'a [T]) -> (r: &'a T)
        requires
            items@.len() > 0,
        ensures
            final(self).0 == lcg32(old(self).0),
            *r == items@[(final(self).0 as usize) as int % (items@.len() as int)],
    {
        let v = self.next_u32();
        &items[v as usize % items.len()]
    }

    /// Shuffles `items` in place (Fisher–Yates, last position first).
    pub fn shuffle_deque<T: Copy>(&mut self, items: &mut Vec<T>)
        ensures
            final(items)@.to_multiset() == old(items)@.to_multiset(),
            old(items)@.len() <= 1 ==> final(items)@ == old(items)@ && final(self).0 == old(self).0,
            old(items)@.len() > 1 ==> (final(items)@, final(self).0) == lcg32_shuffled(
                old(items)@,
                old(self).0,
                (old(items)@.len() - 1) as nat,
            ),
    {
        let n = items.len();
        if n <= 1 {
            return;
        }
        proof {
            lemma_lcg32_shuffled_multiset(items@, self.0, (n - 1) as nat);
        }
        let ghost target = lcg32_shuffled(items@, self.0, (n - 1) as nat);
        let mut i: usize = n - 1;
        while i > 0
            invariant
                i < n,
                items@.len() == n,
                lcg32_shuffled(items@, self.0, i as nat) == target,
            decreases i,
        {
            let j = self.next_u32() as usize % (i + 1);
            swap_items(items, i, j);
            i = i - 1;
        }
    }
}

proof fn lemma_gap_from_largest(dimension: i32, g: i32, e: int)
    requires
        g >= 0,
        g % 2 == 0,
    ensures
        ({
            let r = gap_from(dimension, g);
            &&& r == 1 || (2 <= r <= g && r % 2 == 0 && dimension % r == 1)
            &&& e % 2 == 0 && r < e <= g ==> dimension % (e as i32) != 1
        }),
    decreases g,
{
    if g >= 2 && dimension % g != 1 {
        lemma_gap_from_largest(dimension, (g - 2) as i32, e);
    }
}

/// Law: the grid spacing is the largest even gap, from the even number nearest a fifth of
/// the dimension (at least 2) downward, that divides the dimension with remainder 1; when
/// no such gap exists, or the dimension is 2 or less, it is 1.
pub proof fn lemma_even_gap_largest(dimension: i32, e: int)
    requires
        dimension < 0x1000_0000,
    ensures
        ({
            let g = even_gap(dimension);
            let q = (dimension + 2) / 5;
            let near = if q % 2 == 0 { q } else { q + 1 };
            let s = if near < 2 { 2 } else { near };
            &&& dimension <= 2 ==> g == 1
            &&& dimension > 2 ==> g == 1 || (2 <= g <= s && g % 2 == 0 && dimension % g == 1)
            &&& dimension > 2 && e % 2 == 0 && g < e <= s ==> dimension % (e as i32) != 1
        }),
{
    if dimension > 2 {
        let q = (dimension + 2) / 5;
        let near = if q % 2 == 0 { q } else { q + 1 };
        let s = if near < 2 { 2 } else { near };
        lemma_gap_from_largest(dimension, s as i32, e);
    }
}

} // verus!
