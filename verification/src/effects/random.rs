//! The deterministic generators and hashes the effects seed themselves with.
use vstd::prelude::*;
use vstd::seq_lib::{to_multiset_contains, to_multiset_update};

verus! {

/// One step of the xorshift64 generator (shifts 13, 7, 17).
pub open spec fn xorshift64(x: u64) -> u64 {
    let a = x ^ (x << 13u64);
    let b = a ^ (a >> 7u64);
    b ^ (b << 17u64)
}

/// One step of the 64-bit linear congruential generator
/// `x * 6364136223846793005 + 1 (mod 2^64)`.
pub open spec fn lcg64(x: u64) -> u64 {
    x.wrapping_mul(6364136223846793005u64).wrapping_add(1u64)
}

/// The high 32 bits of a 64-bit state.
pub open spec fn high32(x: u64) -> u32 {
    (x >> 32u64) as u32
}

/// 64-bit FNV-1a over a byte string.
pub open spec fn fnv1a64(bytes: Seq<u8>) -> u64
    decreases bytes.len(),
{
    if bytes.len() == 0 {
        0xcbf29ce484222325u64
    } else {
        (fnv1a64(bytes.drop_last()) ^ (bytes.last() as u64)).wrapping_mul(0x100000001b3u64)
    }
}

/// `s` with the items at `i` and `j` exchanged.
pub open spec fn swapped<T>(s: Seq<T>, i: int, j: int) -> Seq<T> {
    s.update(i, s[j]).update(j, s[i])
}

/// Exchanging two items keeps the multiset of items.
pub proof fn lemma_swapped_multiset<T>(s: Seq<T>, i: int, j: int)
    requires
        0 <= i < s.len(),
        0 <= j < s.len(),
    ensures
        swapped(s, i, j).to_multiset() == s.to_multiset(),
{
    broadcast use vstd::multiset::group_multiset_axioms;

    let s1 = s.update(i, s[j]);
    let m = s.to_multiset();
    to_multiset_update(s, i, s[j]);
    to_multiset_update(s1, j, s[i]);
    assert(s1[j] == s[j]);
    assert(s.contains(s[i]));
    to_multiset_contains(s, s[i]);
    assert(m.count(s[i]) > 0);
    assert(swapped(s, i, j).to_multiset() =~= m);
}

/// Exchanges the items at `i` and `j`.
pub fn swap_items<T: Copy>(items: &mut Vec<T>, i: usize, j: usize)
    requires
        i < old(items)@.len(),
        j < old(items)@.len(),
    ensures
        final(items)@ == swapped(old(items)@, i as int, j as int),
{
    let a = items[i];
    let b = items[j];
    items.set(i, b);
    items.set(j, a);
}

/// FNV-1a over `bytes`, folding one byte at a time.
pub fn fnv1a(bytes: &[u8]) -> (h: u64)
    ensures
        h == fnv1a64(bytes@),
{
    let mut hash: u64 = 0xcbf29ce484222325;
    let mut i: usize = 0;
    while i < bytes.len()
        invariant
            i <= bytes.len(),
            hash == fnv1a64(bytes@.take(i as int)),
        decreases bytes.len() - i,
    {
        proof {
            assert(bytes@.take(i as int + 1).drop_last() =~= bytes@.take(i as int));
        }
        hash = (hash ^ (bytes[i] as u64)).wrapping_mul(0x100000001b3);
        i = i + 1;
    }
    proof {
        assert(bytes@.take(bytes.len() as int) =~= bytes@);
    }
    hash
}

/// `k` steps of xorshift64 from `state`.
pub open spec fn xorshift_iter(state: u64, k: nat) -> u64
    decreases k,
{
    if k == 0 {
        state
    } else {
        xorshift64(xorshift_iter(state, (k - 1) as nat))
    }
}

/// Fisher–Yates with xorshift64 draws over positions `i` down to 1: each step draws the next state and
/// swaps position `i` with `high32(state) % (i + 1)`.
pub open spec fn xorshift_shuffled<T>(s: Seq<T>, state: u64, i: nat) -> (Seq<T>, u64)
    decreases i,
{
    if i == 0 {
        (s, state)
    } else {
        let next = xorshift64(state);
        let j = (high32(next) as int) % (i as int + 1);
        xorshift_shuffled(swapped(s, i as int, j), next, (i - 1) as nat)
    }
}

/// The shuffled items and the generator state after shuffling `s`.
pub open spec fn xorshift_shuffle<T>(s: Seq<T>, state: u64) -> (Seq<T>, u64) {
    if s.len() <= 1 {
        (s, state)
    } else {
        xorshift_shuffled(s, state, (s.len() - 1) as nat)
    }
}

pub proof fn lemma_xorshift_shuffled_multiset<T>(s: Seq<T>, state: u64, i: nat)
    requires
        i < s.len(),
    ensures
        xorshift_shuffled(s, state, i).0.to_multiset() == s.to_multiset(),
        xorshift_shuffled(s, state, i).0.len() == s.len(),
    decreases i,
{
    if i > 0 {
        let next = xorshift64(state);
        let j = (high32(next) as int) % (i as int + 1);
        lemma_swapped_multiset(s, i as int, j);
        lemma_xorshift_shuffled_multiset(swapped(s, i as int, j), next, (i - 1) as nat);
    }
}

/// Fisher–Yates over positions `i` down to 1, each step swapping position `i` with
/// the next LCG state modulo `i + 1`.
pub open spec fn lcg_shuffled<T>(s: Seq<T>, state: u64, i: nat) -> (Seq<T>, u64)
    decreases i,
{
    if i == 0 {
        (s, state)
    } else {
        let next = lcg64(state);
        let j = ((next as usize) as int) % (i as int + 1);
        lcg_shuffled(swapped(s, i as int, j), next, (i - 1) as nat)
    }
}

/// The shuffled items and the generator state after shuffling `s`.
pub open spec fn lcg_shuffle<T>(s: Seq<T>, state: u64) -> (Seq<T>, u64) {
    if s.len() <= 1 {
        (s, state)
    } else {
        lcg_shuffled(s, state, (s.len() - 1) as nat)
    }
}

pub proof fn lemma_lcg_shuffled_multiset<T>(s: Seq<T>, state: u64, i: nat)
    requires
        i < s.len(),
    ensures
        lcg_shuffled(s, state, i).0.to_multiset() == s.to_multiset(),
    decreases i,
{
    if i > 0 {
        let next = lcg64(state);
        let j = ((next as usize) as int) % (i as int + 1);
        lemma_swapped_multiset(s, i as int, j);
        lemma_lcg_shuffled_multiset(swapped(s, i as int, j), next, (i - 1) as nat);
    }
}

/// Law: xorshift64 never steps a non-zero state to zero, so a generator seeded with
/// its low bit set never gets stuck.
pub proof fn lemma_xorshift_nonzero(x: u64)
    requires
        x != 0,
    ensures
        xorshift64(x) != 0,
{
    assert(x != 0 ==> (x ^ (x << 13u64)) != 0) by (bit_vector);
    let a = x ^ (x << 13u64);
    assert(a != 0 ==> (a ^ (a >> 7u64)) != 0) by (bit_vector);
    let b = a ^ (a >> 7u64);
    assert(b != 0 ==> (b ^ (b << 17u64)) != 0) by (bit_vector);
}


/// The position of `c` in `order`.
pub open spec fn slot_of(order: Seq<usize>, c: int) -> int {
    choose|p: int| 0 <= p < order.len() && order[p] as int == c
}

/// A sequence holding the same positions as `0..n` lists each of them exactly once.
pub proof fn lemma_permutes_range(order: Seq<usize>, n: nat)
    requires
        n <= usize::MAX,
        order.to_multiset() == Seq::new(n, |i: int| i as usize).to_multiset(),
    ensures
        order.len() == n,
        order.no_duplicates(),
        forall|p: int| 0 <= p < order.len() ==> #[trigger] order[p] < n,
        forall|c: int|
            0 <= c < n ==> 0 <= #[trigger] slot_of(order, c) < n && order[slot_of(order, c)] as int == c,
{
    broadcast use vstd::seq_lib::group_to_multiset_ensures;

    let ids = Seq::new(n, |i: int| i as usize);
    assert(order.len() == n) by {
        assert(order.to_multiset().len() == ids.to_multiset().len());
    }
    assert(ids.no_duplicates()) by {
        assert forall|i: int, j: int| 0 <= i < ids.len() && 0 <= j < ids.len() && i != j implies ids[i] != ids[j] by {}
    }
    ids.lemma_multiset_has_no_duplicates();
    assert forall|x: usize| order.to_multiset().contains(x) implies order.to_multiset().count(x) == 1 by {}
    order.lemma_multiset_has_no_duplicates_conv();
    assert forall|p: int| 0 <= p < order.len() implies #[trigger] order[p] < n by {
        assert(order.contains(order[p]));
        assert(order.to_multiset().count(order[p]) > 0);
        assert(ids.contains(order[p]));
    }
    assert forall|c: int| 0 <= c < n implies 0 <= #[trigger] slot_of(order, c) < n && order[slot_of(order, c)] as int == c by {
        assert(ids[c] == c as usize);
        assert(ids.contains(c as usize));
        assert(ids.to_multiset().count(c as usize) > 0);
        assert(order.contains(c as usize));
        let p = choose|p: int| 0 <= p < order.len() && order[p] == c as usize;
        assert(0 <= p < order.len() && order[p] as int == c);
    }
}
} // verus!
