//! Overflow: rows scroll over the canvas out of order, then settle.
use vstd::prelude::*;
use vstd::string::StringSliceAdditionalSpecFns;

use crate::effects::random::{
    fnv1a, fnv1a64, lcg64, lcg_shuffle, lcg_shuffled, lemma_lcg_shuffled_multiset, lemma_permutes_range, swap_items,
};
use crate::animation::{fg_text, formatted, lemma_fg_text, CharacterVisual};
use crate::canvas::{picture, sprite_texts, Canvas};
use crate::geometry::Coord;
use crate::graphics::{from_hex_splits_char, gradient_spectrum, hex_or_white, lemma_gradient_stops, Color, ColorPair, Gradient};
use crate::sorting::{bucket_ids, buckets, group_views};
use crate::terminal::{draw_frame, PlacedCharacter};

verus! {

/// The overflow effect.
#[derive(Clone, Copy, Debug, PartialEq, Eq, Structural)]
pub struct Overflow;

impl Overflow {
    pub fn new() -> (e: Self)
        ensures
            e == Overflow,
    {
        Overflow
    }

    pub fn name(&self) -> (n: &'static str)
        ensures
            n@ == "overflow"@,
    {
        "overflow"
    }
}

impl Default for Overflow {
    fn default() -> (e: Self)
        ensures
            e == Overflow,
    {
        Overflow::new()
    }
}

/// The color `s` names, white when it names none.
pub fn hex(s: &str) -> (c: Color)
    requires
        !from_hex_splits_char(s@),
    ensures
        c == hex_or_white(s@),
{
    match Color::from_hex(s) {
        Some(c) => c,
        None => Color::rgb(255, 255, 255),
    }
}

/// The seed of the effect: FNV-1a over the input's bytes.
pub fn input_hash(s: &str) -> (h: u64)
    ensures
        h == fnv1a64(s.spec_bytes()),
{
    fnv1a(s.as_bytes())
}

/// The effect's 64-bit linear congruential generator.
pub struct Rng(pub u64);

/// A draw in `lo..=hi` from a fresh state (`lo` when the range is empty).
pub open spec fn draw(state: u64, lo: i32, hi: i32) -> i32 {
    (lo + (state as int) % (hi - lo + 1)) as i32
}

impl Rng {
    /// Seeds the generator with the low bit set.
    pub fn new(seed: u64) -> (r: Self)
        ensures
            r.0 == seed | 1,
    {
        Rng(seed | 1)
    }

    pub fn next(&mut self) -> (v: u64)
        ensures
            final(self).0 == lcg64(old(self).0),
            v == final(self).0,
    {
        self.0 = self.0.wrapping_mul(6_364_136_223_846_793_005).wrapping_add(1);
        self.0
    }

    /// A draw in `lo..=hi`; `lo`, drawing nothing, when the range is empty.
    pub fn randint(&mut self, lo: i32, hi: i32) -> (v: i32)
        ensures
            hi <= lo ==> v == lo && final(self).0 == old(self).0,
            lo < hi ==> final(self).0 == lcg64(old(self).0) && v == draw(final(self).0, lo, hi),
            lo < hi ==> lo <= v <= hi,
    {
        if hi <= lo {
            return lo;
        }
        let span = (hi as i64 - lo as i64 + 1) as u64;
        let r = self.next() % span;
        (lo as i64 + r as i64) as i32
    }

    /// Shuffles `items` in place (Fisher–Yates, last position first).
    pub fn shuffle<T: Copy>(&mut self, items: &mut Vec<T>)
        ensures
            (final(items)@, final(self).0) == lcg_shuffle(old(items)@, old(self).0),
            final(items)@.to_multiset() == old(items)@.to_multiset(),
    {
        let n = items.len();
        if n < 2 {
            return;
        }
        proof {
            lemma_lcg_shuffled_multiset(items@, self.0, (n - 1) as nat);
        }
        let mut i: usize = n - 1;
        while i > 0
            invariant
                i < n,
                items@.len() == n,
                lcg_shuffled(items@, self.0, i as nat) == lcg_shuffle(old(items)@, old(self).0),
            decreases i,
        {
            let j = (self.next() as usize) % (i + 1);
            swap_items(items, i, j);
            i = i - 1;
        }
    }
}

/// One row of the text overflowing: the characters on it, the row it is shown on now,
/// the row it heads for, its own row, the detours left, and whether it has settled.
pub struct RowAnim {
    pub ids: Vec<u32>,
    pub current: i32,
    pub target: i32,
    pub final_row: i32,
    pub cycles_left: i32,
    pub settled: bool,
}

/// A row's place: the row shown, the row headed for, its own row, detours left, settled.
pub type RowView = (i32, i32, i32, i32, bool);

/// A draw in `lo..=hi` and the generator state after it; `lo`, drawing nothing, when the
/// range is empty.
pub open spec fn rand_in(state: u64, lo: i32, hi: i32) -> (i32, u64) {
    if hi <= lo {
        (lo, state)
    } else {
        (draw(lcg64(state), lo, hi), lcg64(state))
    }
}

/// One frame of a row: on reaching its target it takes another detour to a drawn row, or
/// heads home, or settles at home; an unsettled row then moves one row toward its target.
/// Also the generator state after it.
pub open spec fn row_step(r: RowView, state: u64, bottom: i32, top: i32) -> (RowView, u64) {
    let (current, target, home, cycles, settled) = r;
    let (target2, cycles2, settled2, state2) = if settled || current != target {
        (target, cycles, settled, state)
    } else if cycles > 0 {
        let d = rand_in(state, bottom, top);
        (d.0, (cycles - 1) as i32, false, d.1)
    } else if target != home {
        (home, cycles, false, state)
    } else {
        (target, cycles, true, state)
    };
    let current2 = if settled2 || current == target2 {
        current
    } else if current < target2 {
        (current + 1) as i32
    } else {
        (current - 1) as i32
    };
    ((current2, target2, home, cycles2, settled2), state2)
}

impl RowAnim {
    /// The row's place.
    pub open spec fn place(&self) -> RowView {
        (self.current, self.target, self.final_row, self.cycles_left, self.settled)
    }

    /// One frame of the row, as `row_step` says.
    pub fn step(&mut self, rng: &mut Rng, bottom: i32, top: i32)
        ensures
            final(self).ids@ == old(self).ids@,
            (final(self).place(), final(rng).0) == row_step(old(self).place(), old(rng).0, bottom, top),
    {
        if self.settled {
            return;
        }
        if self.current == self.target {
            if self.cycles_left > 0 {
                self.cycles_left = self.cycles_left - 1;
                self.target = rng.randint(bottom, top);
            } else if self.target != self.final_row {
                self.target = self.final_row;
            } else {
                self.settled = true;
            }
        }
        if !self.settled && self.current != self.target {
            if self.current < self.target {
                self.current = self.current + 1;
            } else {
                self.current = self.current - 1;
            }
        }
    }
}


/// The overflow colors: five steps from cream to sea green and back.
pub open spec fn overflow_spectrum() -> Seq<Color> {
    gradient_spectrum(
        seq![Color { r: 0xf2, g: 0xeb, b: 0xc0 }, Color { r: 0x8d, g: 0xbf, b: 0xb3 }, Color { r: 0xf2, g: 0xeb, b: 0xc0 }],
        5,
    )
}

/// The rows of the text as groups of character positions, top row first.
pub open spec fn text_rows(chars: Seq<PlacedCharacter>) -> Seq<Seq<u32>> {
    buckets(
        chars.map_values(|c: PlacedCharacter| c.coord.row as i64),
        Seq::new(chars.len(), |i: int| i as u32),
    ).reverse()
}

/// The row of the characters of `group`.
pub open spec fn group_row(chars: Seq<PlacedCharacter>, group: Seq<u32>) -> i32 {
    if group.len() > 0 && (group[0] as int) < chars.len() {
        chars[group[0] as int].coord.row
    } else {
        0
    }
}

/// The first `m` rows as generated: for each, the detours drawn in `2..=4`, then the
/// row it starts on and the row it first heads for, drawn over the canvas; and the
/// generator state after.
pub open spec fn generated(chars: Seq<PlacedCharacter>, groups: Seq<Seq<u32>>, seed: u64, bottom: i32, top: i32, m: nat) -> (Seq<RowView>, u64)
    decreases m,
{
    if m == 0 {
        (Seq::empty(), seed | 1)
    } else {
        let (rows, s0) = generated(chars, groups, seed, bottom, top, (m - 1) as nat);
        let (cycles, s1) = rand_in(s0, 2, 4);
        let (current, s2) = rand_in(s1, bottom, top);
        let (target, s3) = rand_in(s2, bottom, top);
        (rows.push((current, target, group_row(chars, groups[m - 1]), cycles, false)), s3)
    }
}

/// The play order of the rows: their indices, shuffled; and the generator state after.
pub open spec fn play_order(count: nat, state: u64) -> (Seq<usize>, u64) {
    lcg_shuffle(Seq::new(count, |i: int| i as usize), state)
}

/// The state of the overflow between frames: the rows' places in play order, how many
/// rows have been taken into play, the rows in play, and the generator state.
pub type Overflowing = (Seq<RowView>, nat, Seq<usize>, u64);

/// The state before the first frame.
#[verifier::opaque]
pub open spec fn overflow_start(chars: Seq<PlacedCharacter>, seed: u64, bottom: i32, top: i32) -> Overflowing {
    let groups = text_rows(chars);
    let (rows, s) = generated(chars, groups, seed, bottom, top, groups.len());
    let (order, s2) = play_order(groups.len(), s);
    (Seq::new(groups.len(), |i: int| rows[order[i] as int]), 0, Seq::empty(), s2)
}

/// The groups in play order.
#[verifier::opaque]
pub open spec fn played_groups(chars: Seq<PlacedCharacter>, seed: u64, bottom: i32, top: i32) -> Seq<Seq<u32>> {
    let groups = text_rows(chars);
    let (rows, s) = generated(chars, groups, seed, bottom, top, groups.len());
    let (order, s2) = play_order(groups.len(), s);
    Seq::new(groups.len(), |i: int| groups[order[i] as int])
}

/// Rows are taken into play, in order, until three are in play.
pub open spec fn filled(st: Overflowing) -> Overflowing {
    let (rows, taken, active, s) = st;
    let room: int = if active.len() < 3 { 3 - active.len() } else { 0 };
    let add: int = if room < rows.len() - taken { room } else { rows.len() - taken };
    let add: nat = if add > 0 { add as nat } else { 0 };
    (rows, taken + add, active + Seq::new(add, |i: int| (taken + i) as usize), s)
}

/// The first `i` rows in play take their step, in order.
pub open spec fn stepped(rows: Seq<RowView>, active: Seq<usize>, s: u64, bottom: i32, top: i32, i: nat) -> (Seq<RowView>, u64)
    decreases i,
{
    if i == 0 {
        (rows, s)
    } else {
        let (rs, s1) = stepped(rows, active, s, bottom, top, (i - 1) as nat);
        let a = active[i - 1] as int;
        let (r, s2) = row_step(rs[a], s1, bottom, top);
        (rs.update(a, r), s2)
    }
}

/// The first `i` rows in play that have not settled.
pub open spec fn unsettled(rows: Seq<RowView>, active: Seq<usize>, i: nat) -> Seq<usize>
    decreases i,
{
    if i == 0 {
        Seq::empty()
    } else {
        let prev = unsettled(rows, active, (i - 1) as nat);
        if rows[active[i - 1] as int].4 {
            prev
        } else {
            prev.push(active[i - 1])
        }
    }
}

/// The state shown in a frame: rows taken into play and every row in play stepped.
pub open spec fn shown(st: Overflowing, bottom: i32, top: i32) -> Overflowing {
    let f = filled(st);
    let (rows, s) = stepped(f.0, f.2, f.3, bottom, top, f.2.len());
    (rows, f.1, f.2, s)
}

/// The state after a frame: settled rows leave play.
pub open spec fn after_frame(st: Overflowing, bottom: i32, top: i32) -> Overflowing {
    let m = shown(st, bottom, top);
    (m.0, m.1, unsettled(m.0, m.2, m.2.len()), m.3)
}

/// The state before frame `k`.
pub open spec fn before_frame(start: Overflowing, bottom: i32, top: i32, k: nat) -> Overflowing
    decreases k,
{
    if k == 0 {
        start
    } else {
        after_frame(before_frame(start, bottom, top, (k - 1) as nat), bottom, top)
    }
}

/// Every row has been taken into play and has settled.
pub open spec fn all_settled(st: Overflowing) -> bool {
    st.1 == st.0.len() && st.2.len() == 0
}

/// The frames of moving rows from frame `k` on: until every row has settled, at most 12000.
pub open spec fn moving_frames(start: Overflowing, bottom: i32, top: i32, k: nat) -> nat
    decreases 12000 - k,
{
    if k + 1 >= 12000 {
        12000
    } else if all_settled(before_frame(start, bottom, top, k + 1)) {
        k + 1
    } else {
        moving_frames(start, bottom, top, k + 1)
    }
}

/// The last row in play order listing character `c`, among the first `m`.
pub open spec fn row_of(groups: Seq<Seq<u32>>, c: int, m: nat) -> Option<usize>
    decreases m,
{
    if m == 0 {
        None
    } else if groups[m - 1].contains(c as u32) {
        Some((m - 1) as usize)
    } else {
        row_of(groups, c, (m - 1) as nat)
    }
}

/// Frame `k` of moving rows, among the first `m` characters: each on its row's current
/// row, in its final color once the row has settled, else the overflow color of the
/// frame (each held 16 frames, cycling).
pub open spec fn overflow_sprites(
    chars: Seq<PlacedCharacter>,
    finals: Seq<Color>,
    groups: Seq<Seq<u32>>,
    rows: Seq<RowView>,
    k: int,
    m: nat,
) -> Seq<(Coord, Seq<char>)>
    decreases m,
{
    if m == 0 {
        Seq::empty()
    } else {
        let prev = overflow_sprites(chars, finals, groups, rows, k, (m - 1) as nat);
        let c = m - 1;
        match row_of(groups, c, groups.len()) {
            Some(r) => {
                let row = rows[r as int];
                let color = if row.4 {
                    finals[c]
                } else {
                    overflow_spectrum()[(k / 16) % 11]
                };
                prev.push((Coord { column: chars[c].coord.column, row: row.0 }, fg_text(chars[c].symbol@, color)))
            },
            None => prev,
        }
    }
}

/// The settled text: every character at its place in its final color.
pub open spec fn settled_text(chars: Seq<PlacedCharacter>, finals: Seq<Color>) -> Seq<(Coord, Seq<char>)> {
    Seq::new(chars.len(), |c: int| (chars[c].coord, fg_text(chars[c].symbol@, finals[c])))
}

fn spectrum_vec(stops: &[Color], steps: usize) -> (v: Vec<Color>)
    ensures
        v@ == gradient_spectrum(stops@, steps),
{
    let g = Gradient::new(stops, steps);
    vstd::slice::slice_to_vec(g.spectrum())
}

fn step_place(r: RowView, rng: &mut Rng, bottom: i32, top: i32) -> (out: RowView)
    ensures
        (out, final(rng).0) == row_step(r, old(rng).0, bottom, top),
{
    let mut row = RowAnim { ids: Vec::new(), current: r.0, target: r.1, final_row: r.2, cycles_left: r.3, settled: r.4 };
    row.step(rng, bottom, top);
    (row.current, row.target, row.final_row, row.cycles_left, row.settled)
}

proof fn lemma_unsettled(rows: Seq<RowView>, active: Seq<usize>, i: nat, bound: nat)
    requires
        i <= active.len(),
        forall|j: int| 0 <= j < active.len() ==> (#[trigger] active[j] as int) < bound,
    ensures
        unsettled(rows, active, i).len() <= i,
        forall|j: int| 0 <= j < unsettled(rows, active, i).len() ==> (#[trigger] unsettled(rows, active, i)[j] as int) < bound,
    decreases i,
{
    if i > 0 {
        lemma_unsettled(rows, active, (i - 1) as nat, bound);
    }
}

proof fn lemma_stepped_len(rows: Seq<RowView>, active: Seq<usize>, s: u64, bottom: i32, top: i32, i: nat)
    requires
        i <= active.len(),
        forall|j: int| 0 <= j < active.len() ==> (#[trigger] active[j] as int) < rows.len(),
    ensures
        stepped(rows, active, s, bottom, top, i).0.len() == rows.len(),
    decreases i,
{
    if i > 0 {
        lemma_stepped_len(rows, active, s, bottom, top, (i - 1) as nat);
    }
}


proof fn lemma_generated_len(chars: Seq<PlacedCharacter>, groups: Seq<Seq<u32>>, seed: u64, bottom: i32, top: i32, m: nat)
    ensures
        generated(chars, groups, seed, bottom, top, m).0.len() == m,
    decreases m,
{
    if m > 0 {
        lemma_generated_len(chars, groups, seed, bottom, top, (m - 1) as nat);
    }
}

proof fn lemma_start(
    chars: Seq<PlacedCharacter>,
    seed: u64,
    bottom: i32,
    top: i32,
    rows: Seq<RowView>,
    s: u64,
    order: Seq<usize>,
    s2: u64,
)
    requires
        (rows, s) == generated(chars, text_rows(chars), seed, bottom, top, text_rows(chars).len()),
        (order, s2) == play_order(text_rows(chars).len(), s),
    ensures
        overflow_start(chars, seed, bottom, top) == (
            Seq::new(text_rows(chars).len(), |i: int| rows[order[i] as int]),
            0nat,
            Seq::<usize>::empty(),
            s2,
        ),
        played_groups(chars, seed, bottom, top) == Seq::new(text_rows(chars).len(), |i: int| text_rows(chars)[order[i] as int]),
{
    reveal(overflow_start);
    reveal(played_groups);
}

/// The rows' places before the first frame, the play-order row of each character, and
/// the generator after the rows are drawn and shuffled.
fn start_state(chars: &[PlacedCharacter], seed: u64, bottom: i32, top: i32) -> (out: (Vec<RowView>, Vec<Option<usize>>, Rng))
    requires
        0 < chars@.len() < 0x100_0000,
    ensures
        (out.0@, 0nat, Seq::<usize>::empty(), out.2.0) == overflow_start(chars@, seed, bottom, top),
        out.0@.len() == played_groups(chars@, seed, bottom, top).len(),
        out.1@.len() == chars@.len(),
        forall|c: int|
            0 <= c < chars@.len() ==> #[trigger] out.1@[c] == row_of(
                played_groups(chars@, seed, bottom, top),
                c,
                played_groups(chars@, seed, bottom, top).len(),
            ),
{
    let n = chars.len();
        let mut keys: Vec<i64> = Vec::new();
        let mut ids: Vec<u32> = Vec::new();
        let mut i: usize = 0;
        while i < n
            invariant
                n == chars@.len(),
                n < 0x100_0000,
                i <= n,
                keys@ == chars@.map_values(|c: PlacedCharacter| c.coord.row as i64).take(i as int),
                ids@ == Seq::new(i as nat, |j: int| j as u32),
            decreases n - i,
        {
            keys.push(chars[i].coord.row as i64);
            ids.push(i as u32);
            proof {
                assert(keys@ =~= chars@.map_values(|c: PlacedCharacter| c.coord.row as i64).take(i + 1));
                assert(ids@ =~= Seq::new((i + 1) as nat, |j: int| j as u32));
            }
            i = i + 1;
        }
        proof {
            assert(keys@ =~= chars@.map_values(|c: PlacedCharacter| c.coord.row as i64));
            assert(ids@ =~= Seq::new(n as nat, |j: int| j as u32));
        }
        let asc = bucket_ids(keys.as_slice(), ids.as_slice());
        let count = asc.len();
        let ghost groups = text_rows(chars@);
        proof {
            assert(groups.len() == count);
            assert forall|g: int| 0 <= g < count implies #[trigger] groups[g] == asc@[count - 1 - g]@ by {
                assert(group_views(asc@)[count - 1 - g] == asc@[count - 1 - g]@);
            }
        }
        let mut rng = Rng::new(seed);
        let mut generated_rows: Vec<RowView> = Vec::new();
        let mut g: usize = 0;
        while g < count
            invariant
                n == chars@.len(),
                count == asc@.len(),
                count == groups.len(),
                groups == text_rows(chars@),
                forall|g: int| 0 <= g < count ==> #[trigger] groups[g] == asc@[count - 1 - g]@,
                g <= count,
                (generated_rows@, rng.0) == generated(chars@, groups, seed, bottom, top, g as nat),
            decreases count - g,
        {
            let cycles = rng.randint(2, 4);
            let current = rng.randint(bottom, top);
            let target = rng.randint(bottom, top);
            let members = &asc[count - 1 - g];
            let home = if members.len() > 0 && (members[0] as usize) < n {
                chars[members[0] as usize].coord.row
            } else {
                0
            };
            proof {
                assert(members@ == groups[g as int]);
            }
            generated_rows.push((current, target, home, cycles, false));
            g = g + 1;
        }
        let mut order: Vec<usize> = Vec::new();
        while order.len() < count
            invariant
                order.len() <= count,
                order@ == Seq::new(order@.len(), |i: int| i as usize),
            decreases count - order.len(),
        {
            order.push(order.len());
            proof {
                assert(order@ =~= Seq::new(order@.len(), |i: int| i as usize));
            }
        }
        let ghost gen_state = rng.0;
        proof {
            lemma_generated_len(chars@, groups, seed, bottom, top, count as nat);
        }
        rng.shuffle(&mut order);
        proof {
            assert((order@, rng.0) == play_order(count as nat, gen_state));
            lemma_permutes_range(order@, count as nat);
        }
        let ghost played = played_groups(chars@, seed, bottom, top);
        let mut rows: Vec<RowView> = Vec::new();
        let mut r: usize = 0;
        while r < count
            invariant
                count == order@.len(),
                count == generated_rows@.len(),
                forall|q: int| 0 <= q < count ==> #[trigger] order@[q] < count,
                r <= count,
                rows@ == Seq::new(r as nat, |q: int| generated_rows@[order@[q] as int]),
            decreases count - r,
        {
            rows.push(generated_rows[order[r]]);
            proof {
                assert(rows@ =~= Seq::new((r + 1) as nat, |q: int| generated_rows@[order@[q] as int]));
            }
            r = r + 1;
        }
        let ghost start = overflow_start(chars@, seed, bottom, top);
        proof {
            lemma_start(chars@, seed, bottom, top, generated_rows@, gen_state, order@, rng.0);
            assert(rows@ =~= start.0);
            assert forall|q: int| 0 <= q < count implies #[trigger] played[q] == asc@[count - 1 - order@[q] as int]@ by {
                assert(played[q] == groups[order@[q] as int]);
            }
        }
        let mut slot: Vec<Option<usize>> = Vec::new();
        while slot.len() < n
            invariant
                slot@.len() <= n,
                forall|c: int| 0 <= c < slot@.len() ==> #[trigger] slot@[c] is None,
            decreases n - slot.len(),
        {
            slot.push(None);
        }
        let mut r: usize = 0;
        while r < count
            invariant
                n == chars@.len(),
                n < 0x100_0000,
                count == order@.len(),
                count == asc@.len(),
                played.len() == count,
                forall|q: int| 0 <= q < count ==> #[trigger] order@[q] < count,
                forall|q: int| 0 <= q < count ==> #[trigger] played[q] == asc@[count - 1 - order@[q] as int]@,
                r <= count,
                slot@.len() == n,
                forall|c: int| 0 <= c < n ==> #[trigger] slot@[c] == row_of(played, c, r as nat),
            decreases count - r,
        {
            let members = &asc[count - 1 - order[r]];
            proof {
                assert(members@ == played[r as int]);
            }
            let mut j: usize = 0;
            while j < members.len()
                invariant
                    n == chars@.len(),
                    n < 0x100_0000,
                    r < count,
                    members@ == played[r as int],
                    j <= members@.len(),
                    slot@.len() == n,
                    forall|c: int|
                        0 <= c < n ==> #[trigger] slot@[c] == (if members@.take(j as int).contains(c as u32) {
                            Some(r)
                        } else {
                            row_of(played, c, r as nat)
                        }),
                decreases members.len() - j,
            {
                let id = members[j];
                if (id as usize) < n {
                    slot.set(id as usize, Some(r));
                }
                proof {
                    assert forall|c: int|
                        0 <= c < n implies #[trigger] slot@[c] == (if members@.take(j + 1).contains(c as u32) {
                            Some(r)
                        } else {
                            row_of(played, c, r as nat)
                        }) by {
                        assert(members@.take(j + 1) =~= members@.take(j as int).push(id));
                        if c == id as int {
                            assert(members@.take(j + 1)[j as int] == id);
                        }
                    }
                }
                j = j + 1;
            }
            proof {
                assert(members@.take(members@.len() as int) =~= members@);
            }
            r = r + 1;
        }
    proof {
        assert(rows@.len() == count);
    }
    (rows, slot, rng)
}

impl Overflow {
    /// The frames of the effect for the characters laid out on `canvas`, drawing from the
    /// generator seeded with `seed` (`input_hash` of the input), character `c` settling in
    /// `final_colors[c]`: the text's rows, in shuffled order and at most three at a time,
    /// wander over the canvas (`shown` state of each frame, drawn by `overflow_sprites`)
    /// until every row has settled at home, then the settled text is held 8 frames.
    /// Without characters, one blank frame.
    #[verifier::rlimit(100)]
    #[verifier::spinoff_prover]
    pub fn frames(&self, canvas: &mut Canvas, chars: &[PlacedCharacter], final_colors: &[Color], seed: u64) -> (frames: Vec<String>)
        requires
            old(canvas).wf(),
            old(canvas).width < 0x4000_0000,
            old(canvas).height < 0x4000_0000,
            final_colors@.len() == chars@.len(),
            chars@.len() < 0x100_0000,
        ensures
            final(canvas).wf(),
            final(canvas).width == old(canvas).width,
            final(canvas).height == old(canvas).height,
            ({
                let w = old(canvas).width as nat;
                let h = old(canvas).height as nat;
                let n = chars@.len();
                let bottom = old(canvas).bottom;
                let top = if old(canvas).top > bottom { old(canvas).top } else { bottom };
                let start = overflow_start(chars@, seed, bottom, top);
                let groups = played_groups(chars@, seed, bottom, top);
                let t = moving_frames(start, bottom, top, 0);
                if n == 0 {
                    frames@.len() == 1 && frames@[0]@ == picture(w, h, Seq::empty())
                } else {
                    &&& frames@.len() == t + 8
                    &&& forall|k: int| 0 <= k < t ==> #[trigger] frames@[k]@ == picture(
                        w,
                        h,
                        overflow_sprites(
                            chars@,
                            final_colors@,
                            groups,
                            shown(before_frame(start, bottom, top, k as nat), bottom, top).0,
                            k,
                            n,
                        ),
                    )
                    &&& forall|k: int| t <= k < t + 8 ==> #[trigger] frames@[k]@ == picture(w, h, settled_text(chars@, final_colors@))
                }
            }),
    {
        let ghost w = canvas.width as nat;
        let ghost h = canvas.height as nat;
        let mut frames: Vec<String> = Vec::new();
        let n = chars.len();
        if n == 0 {
            let none: Vec<(Coord, CharacterVisual)> = Vec::new();
            let f = draw_frame(canvas, none.as_slice());
            proof {
                assert(sprite_texts(none@) =~= Seq::empty());
            }
            frames.push(f);
            return frames;
        }
        let bottom = canvas.bottom;
        let top = if canvas.top > bottom { canvas.top } else { bottom };
        let (mut rows, slot, mut rng) = start_state(chars, seed, bottom, top);
        let count = rows.len();
        let ghost played = played_groups(chars@, seed, bottom, top);
        let ghost start = overflow_start(chars@, seed, bottom, top);
        let stops = vec![Color::rgb(0xf2, 0xeb, 0xc0), Color::rgb(0x8d, 0xbf, 0xb3), Color::rgb(0xf2, 0xeb, 0xc0)];
        proof {
            assert(stops@ =~= seq![Color { r: 0xf2, g: 0xeb, b: 0xc0 }, Color { r: 0x8d, g: 0xbf, b: 0xb3 }, Color { r: 0xf2, g: 0xeb, b: 0xc0 }]);
            lemma_gradient_stops(stops@, 5, 0);
        }
        let spectrum = spectrum_vec(stops.as_slice(), 5);
        let mut taken: usize = 0;
        let mut active: Vec<usize> = Vec::new();
        let mut k: usize = 0;
        loop
            invariant_except_break
                k < 12000,
                moving_frames(start, bottom, top, 0) == moving_frames(start, bottom, top, k as nat),
            invariant
                canvas.wf(),
                canvas.width == w,
                canvas.height == h,
                canvas.width < 0x4000_0000,
                canvas.height < 0x4000_0000,
                n == chars@.len(),
                n == final_colors@.len(),
                0 < n < 0x100_0000,
                count == rows@.len(),
                played.len() == count,
                played == played_groups(chars@, seed, bottom, top),
                start == overflow_start(chars@, seed, bottom, top),
                slot@.len() == n,
                forall|c: int| 0 <= c < n ==> #[trigger] slot@[c] == row_of(played, c, count as nat),
                spectrum@ == overflow_spectrum(),
                spectrum@.len() == 11,
                (rows@, taken as nat, active@, rng.0) == before_frame(start, bottom, top, k as nat),
                taken <= count,
                active@.len() <= 3,
                forall|j: int| 0 <= j < active@.len() ==> (#[trigger] active@[j] as int) < count,
                k <= 12000,
                frames@.len() == k,
                forall|q: int| 0 <= q < k ==> #[trigger] frames@[q]@ == picture(
                    w,
                    h,
                    overflow_sprites(
                        chars@,
                        final_colors@,
                        played,
                        shown(before_frame(start, bottom, top, q as nat), bottom, top).0,
                        q,
                        n as nat,
                    ),
                ),
            ensures
                k == moving_frames(start, bottom, top, 0),
            decreases 12000 - k,
        {
            let ghost st = before_frame(start, bottom, top, k as nat);
            let ghost len0 = active@.len();
            while taken < count && active.len() < 3
                invariant
                    taken <= count,
                    st.1 <= taken,
                    len0 <= 3,
                    active@.len() == len0 + (taken - st.1),
                    active@ == st.2 + Seq::new((taken - st.1) as nat, |i: int| (st.1 + i) as usize),
                    active@.len() <= 3,
                    forall|j: int| 0 <= j < active@.len() ==> (#[trigger] active@[j] as int) < count,
                decreases count - taken,
            {
                active.push(taken);
                taken = taken + 1;
                proof {
                    assert(active@ =~= st.2 + Seq::new((taken - st.1) as nat, |i: int| (st.1 + i) as usize));
                }
            }
            let ghost f = filled(st);
            proof {
                assert(f.1 == taken);
                assert(active@ =~= f.2);
            }
            let mut i: usize = 0;
            while i < active.len()
                invariant
                    count == rows@.len(),
                    active@ == f.2,
                    f.0.len() == count,
                    forall|j: int| 0 <= j < active@.len() ==> (#[trigger] active@[j] as int) < count,
                    i <= active@.len(),
                    (rows@, rng.0) == stepped(f.0, f.2, f.3, bottom, top, i as nat),
                decreases active.len() - i,
            {
                let a = active[i];
                let moved = step_place(rows[a], &mut rng, bottom, top);
                rows.set(a, moved);
                i = i + 1;
            }
            let ghost mid = shown(st, bottom, top);
            proof {
                assert(rows@ == mid.0);
            }
            let tint = spectrum[(k / 16) % 11];
            let mut sprites: Vec<(Coord, CharacterVisual)> = Vec::new();
            let mut c: usize = 0;
            while c < n
                invariant
                    n == chars@.len(),
                    n == final_colors@.len(),
                    count == rows@.len(),
                    slot@.len() == n,
                    forall|c: int| 0 <= c < n ==> #[trigger] slot@[c] == row_of(played, c, count as nat),
                    played.len() == count,
                    tint == overflow_spectrum()[((k as int) / 16) % 11],
                    c <= n,
                    sprite_texts(sprites@) == overflow_sprites(chars@, final_colors@, played, rows@, k as int, c as nat),
                decreases n - c,
            {
                let ghost before = sprites@;
                match slot[c] {
                    Some(r) => {
                        proof {
                            row_of_bound(played, c as int, count as nat);
                        }
                        let row = rows[r];
                        let color = if row.4 { final_colors[c] } else { tint };
                        let visual = CharacterVisual::new(chars[c].symbol.as_str(), Some(ColorPair::fg(color)));
                        proof {
                            lemma_fg_text(visual, color);
                        }
                        sprites.push((Coord { column: chars[c].coord.column, row: row.0 }, visual));
                        proof {
                            assert(sprite_texts(sprites@) =~= sprite_texts(before).push(
                                (Coord { column: chars@[c as int].coord.column, row: row.0 }, formatted(visual)),
                            ));
                        }
                    },
                    None => {},
                }
                c = c + 1;
            }
            let fr = draw_frame(canvas, sprites.as_slice());
            let ghost earlier = frames@;
            frames.push(fr);
            proof {
                assert forall|q: int| 0 <= q < k + 1 implies #[trigger] frames@[q]@ == picture(
                    w,
                    h,
                    overflow_sprites(
                        chars@,
                        final_colors@,
                        played,
                        shown(before_frame(start, bottom, top, q as nat), bottom, top).0,
                        q,
                        n as nat,
                    ),
                ) by {
                    if q < k {
                        assert(frames@[q] == earlier[q]);
                    }
                }
            }
            let mut kept: Vec<usize> = Vec::new();
            let mut i: usize = 0;
            while i < active.len()
                invariant
                    count == rows@.len(),
                    forall|j: int| 0 <= j < active@.len() ==> (#[trigger] active@[j] as int) < count,
                    i <= active@.len(),
                    kept@ == unsettled(rows@, active@, i as nat),
                decreases active.len() - i,
            {
                if !rows[active[i]].4 {
                    kept.push(active[i]);
                }
                i = i + 1;
            }
            proof {
                lemma_unsettled(rows@, active@, active@.len() as nat, count as nat);
            }
            active = kept;
            k = k + 1;
            proof {
                assert((rows@, taken as nat, active@, rng.0) == before_frame(start, bottom, top, k as nat));
            }
            if (taken >= count && active.len() == 0) || k >= 12000 {
                break;
            }
        }
        let mut last: Vec<(Coord, CharacterVisual)> = Vec::new();
        let mut c: usize = 0;
        while c < n
            invariant
                n == chars@.len(),
                n == final_colors@.len(),
                c <= n,
                sprite_texts(last@) == settled_text(chars@, final_colors@).take(c as int),
            decreases n - c,
        {
            let visual = CharacterVisual::new(chars[c].symbol.as_str(), Some(ColorPair::fg(final_colors[c])));
            proof {
                lemma_fg_text(visual, final_colors@[c as int]);
            }
            let ghost before = last@;
            last.push((chars[c].coord, visual));
            proof {
                assert(sprite_texts(last@) =~= sprite_texts(before).push((chars@[c as int].coord, formatted(visual))));
                assert(settled_text(chars@, final_colors@).take(c + 1) =~= settled_text(chars@, final_colors@).take(c as int).push(
                    settled_text(chars@, final_colors@)[c as int],
                ));
            }
            c = c + 1;
        }
        proof {
            assert(settled_text(chars@, final_colors@).take(n as int) =~= settled_text(chars@, final_colors@));
        }
        let held = draw_frame(canvas, last.as_slice());
        let ghost t = k;
        let mut j: usize = 0;
        while j < 8
            invariant
                j <= 8,
                frames@.len() == t + j,
                t <= 12000,
                held@ == picture(w, h, settled_text(chars@, final_colors@)),
                forall|q: int| 0 <= q < t ==> #[trigger] frames@[q]@ == picture(
                    w,
                    h,
                    overflow_sprites(
                        chars@,
                        final_colors@,
                        played,
                        shown(before_frame(start, bottom, top, q as nat), bottom, top).0,
                        q,
                        n as nat,
                    ),
                ),
                forall|q: int| t <= q < t + j ==> #[trigger] frames@[q]@ == picture(w, h, settled_text(chars@, final_colors@)),
            decreases 8 - j,
        {
            let ghost earlier = frames@;
            frames.push(held.clone());
            proof {
                assert forall|q: int| 0 <= q < t implies #[trigger] frames@[q]@ == picture(
                    w,
                    h,
                    overflow_sprites(
                        chars@,
                        final_colors@,
                        played,
                        shown(before_frame(start, bottom, top, q as nat), bottom, top).0,
                        q,
                        n as nat,
                    ),
                ) by {
                    assert(frames@[q] == earlier[q]);
                }
                assert forall|q: int| t <= q < t + j + 1 implies #[trigger] frames@[q]@ == picture(w, h, settled_text(chars@, final_colors@)) by {
                    if q < t + j {
                        assert(frames@[q] == earlier[q]);
                    }
                }
            }
            j = j + 1;
        }
        frames
    }
}

proof fn row_of_bound(groups: Seq<Seq<u32>>, c: int, m: nat)
    ensures
        row_of(groups, c, m) matches Some(r) ==> (r as int) < m,
    decreases m,
{
    if m > 0 {
        row_of_bound(groups, c, (m - 1) as nat);
    }
}

} // verus!
