//! Blackhole: a ring of stars forms, consumes the text, collapses and
//! explodes the characters back into place.
use std::collections::HashMap;

use vstd::prelude::*;

use crate::effects::random::{lcg64, lcg_shuffle, lcg_shuffled, lemma_lcg_shuffled_multiset, swap_items};
use crate::geometry::Coord;
use crate::graphics::Color;

verus! {

/// The blackhole effect.
#[derive(Clone, Copy, Debug, PartialEq, Eq, Structural)]
pub struct Blackhole;

impl Blackhole {
    pub fn new() -> (e: Self)
        ensures
            e == Blackhole,
    {
        Blackhole
    }

    pub fn name(&self) -> (n: &'static str)
        ensures
            n@ == "blackhole"@,
    {
        "blackhole"
    }
}

impl Default for Blackhole {
    fn default() -> (e: Self)
        ensures
            e == Blackhole,
    {
        Blackhole::new()
    }
}

/// The effect's 64-bit linear congruential generator.
pub struct Rng(pub u64);

impl Rng {
    pub fn next(&mut self) -> (v: u64)
        ensures
            final(self).0 == lcg64(old(self).0),
            v == final(self).0,
    {
        self.0 = self.0.wrapping_mul(6364136223846793005).wrapping_add(1);
        self.0
    }

    /// A draw in `0..n`; `0`, drawing nothing, when `n` is zero.
    pub fn randrange(&mut self, n: usize) -> (v: usize)
        ensures
            n == 0 ==> v == 0 && final(self).0 == old(self).0,
            n > 0 ==> final(self).0 == lcg64(old(self).0) && v == (final(self).0 as usize) % n,
            n > 0 ==> v < n,
    {
        if n == 0 {
            0
        } else {
            (self.next() as usize) % n
        }
    }

    /// Shuffles `items` in place (Fisher–Yates, last position first).
    pub fn shuffle<T: Copy>(&mut self, items: &mut Vec<T>)
        ensures
            (final(items)@, final(self).0) == lcg_shuffle(old(items)@, old(self).0),
            final(items)@.to_multiset() == old(items)@.to_multiset(),
    {
        let n = items.len();
        if n <= 1 {
            return;
        }
        proof {
            lemma_lcg_shuffled_multiset(items@, self.0, (n - 1) as nat);
        }
        let mut i: usize = n - 1;
        while i > 0
            invariant
                i < n,
                items@.len() == n,
                lcg_shuffled(items@, self.0, i as nat) == lcg_shuffle(old(items)@, old(self).0),
            decreases i,
        {
            let j = self.randrange(i + 1);
            swap_items(items, i, j);
            i = i - 1;
        }
    }
}

/// The color of a star `age` frames old: yellow, gold, then white, 40 frames each.
pub open spec fn star_color_spec(age: u32) -> Color {
    if age / 40 == 0 {
        Color { r: 0xfd, g: 0xff, b: 0x38 }
    } else if age / 40 == 1 {
        Color { r: 0xff, g: 0xd7, b: 0x00 }
    } else {
        Color { r: 0xff, g: 0xff, b: 0xff }
    }
}

pub fn star_color(age: u32) -> (c: Color)
    ensures
        c == star_color_spec(age),
{
    let idx = age / 40;
    if idx == 0 {
        Color::rgb(0xfd, 0xff, 0x38)
    } else if idx == 1 {
        Color::rgb(0xff, 0xd7, 0x00)
    } else {
        Color::rgb(0xff, 0xff, 0xff)
    }
}

/// Ages after one frame: each listed character that has an age grows one older
/// (saturating); characters without an age are left alone.
pub open spec fn aged(ages: Map<u32, u32>, ids: Seq<u32>) -> Map<u32, u32>
    decreases ids.len(),
{
    if ids.len() == 0 {
        ages
    } else {
        let before = aged(ages, ids.drop_last());
        let id = ids.last();
        if before.contains_key(id) {
            let a = before[id];
            before.insert(id, if a == u32::MAX { a } else { (a + 1) as u32 })
        } else {
            before
        }
    }
}

/// Advances the age of every listed star by one frame.
pub fn age_visible(ages: &mut HashMap<u32, u32>, ids: &[u32])
    ensures
        final(ages)@ == aged(old(ages)@, ids@),
{
    broadcast use vstd::std_specs::hash::group_hash_axioms;

    let mut i: usize = 0;
    while i < ids.len()
        invariant
            i <= ids@.len(),
            ages@ == aged(old(ages)@, ids@.take(i as int)),
        decreases ids.len() - i,
    {
        proof {
            assert(ids@.take(i + 1).drop_last() =~= ids@.take(i as int));
        }
        let id = ids[i];
        let current = match ages.get(&id) {
            Some(a) => Some(*a),
            None => None,
        };
        match current {
            Some(a) => {
                let next = if a == u32::MAX {
                    a
                } else {
                    a + 1
                };
                ages.insert(id, next);
            },
            None => {},
        }
        i = i + 1;
    }
    proof {
        assert(ids@.take(ids@.len() as int) =~= ids@);
    }
}

/// The glyph of ring position `k`.
pub open spec fn ring_symbol_spec(k: nat) -> Seq<char> {
    if k % 6 == 0 {
        "*"@
    } else if k % 6 == 1 {
        "'"@
    } else if k % 6 == 2 {
        "`"@
    } else if k % 6 == 3 {
        "."@
    } else if k % 6 == 4 {
        ","@
    } else {
        "°"@
    }
}

fn ring_symbol(k: usize) -> (s: &'static str)
    ensures
        s@ == ring_symbol_spec(k as nat),
{
    let m = k % 6;
    if m == 0 {
        "*"
    } else if m == 1 {
        "'"
    } else if m == 2 {
        "`"
    } else if m == 3 {
        "."
    } else if m == 4 {
        ","
    } else {
        "°"
    }
}

/// The ring's sprites rotated by `rot`: sprite `i` sits on point `(i + rot) % n` and
/// shows glyph `i % 6`.
pub fn ring_sprites(base: &[Coord], rot: usize) -> (sprites: Vec<(Coord, &'static str)>)
    requires
        base@.len() + rot <= usize::MAX,
    ensures
        sprites@.len() == base@.len(),
        forall|i: int|
            0 <= i < base@.len() ==> #[trigger] sprites@[i].0 == base@[(i + rot) % (base@.len() as int)]
                && sprites@[i].1@ == ring_symbol_spec(i as nat),
{
    let n = base.len();
    let mut sprites: Vec<(Coord, &'static str)> = Vec::new();
    let mut i: usize = 0;
    while i < n
        invariant
            i <= n,
            n == base@.len(),
            n + rot <= usize::MAX,
            sprites@.len() == i,
            forall|k: int|
                0 <= k < i ==> #[trigger] sprites@[k].0 == base@[(k + rot) % (n as int)] && sprites@[k].1@
                    == ring_symbol_spec(k as nat),
        decreases n - i,
    {
        sprites.push((base[(i + rot) % n], ring_symbol(i)));
        i = i + 1;
    }
    sprites
}

} // verus!
