//! Random sequence: the characters appear one at a time in a random order.
use vstd::prelude::*;

use crate::effects::random::{lcg_shuffle, lcg_shuffled, lemma_lcg_shuffled_multiset, swap_items};
use crate::graphics::{from_hex_splits_char, hex_or_white, Color};

verus! {

/// The random sequence effect.
#[derive(Clone, Copy, Debug, PartialEq, Eq, Structural)]
pub struct RandomSequence;

impl RandomSequence {
    pub fn new() -> (e: Self)
        ensures
            e == RandomSequence,
    {
        RandomSequence
    }

    pub fn name(&self) -> (n: &'static str)
        ensures
            n@ == "random_sequence"@,
    {
        "random_sequence"
    }
}

impl Default for RandomSequence {
    fn default() -> (e: Self)
        ensures
            e == RandomSequence,
    {
        RandomSequence::new()
    }
}

/// The color `hex` names, white when it names none.
pub fn hex_color(hex: &str) -> (c: Color)
    requires
        !from_hex_splits_char(hex@),
    ensures
        c == hex_or_white(hex@),
{
    match Color::from_hex(hex) {
        Some(c) => c,
        None => Color::rgb(255, 255, 255),
    }
}

/// The shuffle seed for `n` characters.
pub open spec fn order_seed(n: usize) -> u64 {
    0xC0FFEEu64 ^ (n as u64).wrapping_mul(0x9E37u64)
}

/// The order the characters appear in: positions `0..n` shuffled by the 64-bit LCG
/// seeded from `n`.
pub fn reveal_order(n: usize) -> (order: Vec<usize>)
    ensures
        order@ == lcg_shuffle(Seq::new(n as nat, |i: int| i as usize), order_seed(n)).0,
        order@.to_multiset() == Seq::new(n as nat, |i: int| i as usize).to_multiset(),
{
    let mut order: Vec<usize> = Vec::new();
    let mut k: usize = 0;
    while k < n
        invariant
            k <= n,
            order@ == Seq::new(k as nat, |i: int| i as usize),
        decreases n - k,
    {
        order.push(k);
        proof {
            assert(order@ =~= Seq::new((k + 1) as nat, |i: int| i as usize));
        }
        k = k + 1;
    }
    let ghost start = order@;
    let mut state: u64 = 0xC0FFEE ^ (n as u64).wrapping_mul(0x9E37);
    if n < 2 {
        return order;
    }
    proof {
        lemma_lcg_shuffled_multiset(start, state, (n - 1) as nat);
    }
    let ghost seed = state;
    let mut i: usize = n - 1;
    while i > 0
        invariant
            i < n,
            order@.len() == n,
            lcg_shuffled(order@, state, i as nat) == lcg_shuffle(start, seed),
        decreases i,
    {
        state = state.wrapping_mul(6364136223846793005).wrapping_add(1);
        let j = (state as usize) % (i + 1);
        swap_items(&mut order, i, j);
        i = i - 1;
    }
    order
}

} // verus!
