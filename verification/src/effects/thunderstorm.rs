//! Thunderstorm: rain falls and lightning flashes over the text.
use vstd::prelude::*;
use vstd::string::StringSliceAdditionalSpecFns;

use crate::animation::{code_if, formatted, lemma_plain_text, sgr_reset, CharacterVisual};
use crate::canvas::{picture, sprite_texts, Canvas};
use crate::character::CharacterId;
use crate::effects::matrix::{look_sprites, look_texts};
use crate::geometry::Coord;
use crate::graphics::{sgr_rgb, Color};
use crate::terminal::{draw_frame, PlacedCharacter};
use crate::text::{chars_of, is_whitespace, is_whitespace_char, push_char};
use crate::sorting::value_range;
use crate::utils::rem_euclid;

verus! {

/// The thunderstorm effect.
#[derive(Clone, Copy, Debug, PartialEq, Eq, Structural)]
pub struct Thunderstorm;

impl Thunderstorm {
    pub fn new() -> (e: Self)
        ensures
            e == Thunderstorm,
    {
        Thunderstorm
    }

    pub fn name(&self) -> (n: &'static str)
        ensures
            n@ == "thunderstorm"@,
    {
        "thunderstorm"
    }
}

impl Default for Thunderstorm {
    fn default() -> (e: Self)
        ensures
            e == Thunderstorm,
    {
        Thunderstorm::new()
    }
}

/// One step of the xorshift32 generator (shifts 13, 17, 5).
pub open spec fn xorshift32(x: u32) -> u32 {
    let a = x ^ (x << 13u32);
    let b = a ^ (a >> 17u32);
    b ^ (b << 5u32)
}

/// The seed fold over the input's bytes (multiply by the FNV prime, xor the byte).
pub open spec fn storm_seed(bytes: Seq<u8>) -> u32
    decreases bytes.len(),
{
    if bytes.len() == 0 {
        0x5468_756eu32
    } else {
        storm_seed(bytes.drop_last()).wrapping_mul(16_777_619u32) ^ (bytes.last() as u32)
    }
}

/// A draw in `lo..hi` and the state after it: the next state, reinterpreted as an `i32`,
/// taken Euclidean-modulo the span (`lo`, drawing nothing, for an empty range).
pub open spec fn storm_draw(state: u32, lo: i32, hi: i32) -> (i32, u32) {
    if hi <= lo {
        (lo, state)
    } else {
        let next = xorshift32(state);
        ((lo + ((next as i32) as int) % (hi - lo)) as i32, next)
    }
}

/// The storm's xorshift32 generator.
pub struct StormRng(pub u32);

impl StormRng {
    /// Seeds the generator from the input (a zero seed is replaced).
    pub fn from_input(input: &str) -> (r: Self)
        ensures
            r.0 == (if storm_seed(input.spec_bytes()) == 0 { 0xC0FF_EE01u32 } else { storm_seed(input.spec_bytes()) }),
    {
        let bytes = input.as_bytes();
        let mut seed: u32 = 0x5468_756e;
        let mut i: usize = 0;
        while i < bytes.len()
            invariant
                i <= bytes@.len(),
                bytes@ == input.spec_bytes(),
                seed == storm_seed(bytes@.take(i as int)),
            decreases bytes.len() - i,
        {
            proof {
                assert(bytes@.take(i as int + 1).drop_last() =~= bytes@.take(i as int));
            }
            seed = seed.wrapping_mul(16_777_619) ^ (bytes[i] as u32);
            i = i + 1;
        }
        proof {
            assert(bytes@.take(bytes@.len() as int) =~= bytes@);
        }
        if seed == 0 {
            seed = 0xC0FF_EE01;
        }
        StormRng(seed)
    }

    pub fn next_u32(&mut self) -> (v: u32)
        ensures
            final(self).0 == xorshift32(old(self).0),
            v == final(self).0,
    {
        let mut x = self.0;
        x = x ^ (x << 13u32);
        x = x ^ (x >> 17u32);
        x = x ^ (x << 5u32);
        self.0 = x;
        x
    }

    /// A draw in `lo..hi`; `lo`, drawing nothing, when the range is empty.
    pub fn gen_range(&mut self, lo: i32, hi: i32) -> (v: i32)
        requires
            lo < hi ==> hi - lo <= i32::MAX,
        ensures
            (v, final(self).0) == storm_draw(old(self).0, lo, hi),
            lo < hi ==> lo <= v < hi,
    {
        if hi <= lo {
            return lo;
        }
        let r = rem_euclid(self.next_u32() as i32, hi - lo);
        lo + r
    }
}

/// The glyphs a raindrop can take.
pub open spec fn rain_glyph(k: int) -> Seq<char> {
    if k == 0 {
        "|"@
    } else if k == 1 {
        "│"@
    } else if k == 2 {
        "."@
    } else if k == 3 {
        "'"@
    } else {
        ":"@
    }
}

fn rain_symbol(k: i32) -> (s: &'static str)
    ensures
        s@ == rain_glyph(k as int),
{
    if k == 0 {
        "|"
    } else if k == 1 {
        "│"
    } else if k == 2 {
        "."
    } else if k == 3 {
        "'"
    } else {
        ":"
    }
}

/// A raindrop: its cell, the frames until it next falls, its fall delay and glyph.
#[derive(Clone, Copy)]
pub struct RainDrop {
    pub column: i32,
    pub row: i32,
    pub wait: i32,
    pub delay: i32,
    pub symbol: &'static str,
}

/// The bounds leave room to draw one past the right column and top row.
pub open spec fn storm_bounds(left: i32, right: i32, bottom: i32, top: i32) -> bool {
    &&& left <= right < i32::MAX
    &&& bottom <= top < i32::MAX
    &&& right + 1 - left <= i32::MAX
    &&& top + 1 - bottom <= i32::MAX
}

/// A drop spawned from `state`: column, row, wait, delay and glyph drawn in turn.
pub open spec fn spawned(state: u32, left: i32, right: i32, bottom: i32, top: i32) -> ((i32, i32, i32, i32, int), u32) {
    let c = storm_draw(state, left, (right + 1) as i32);
    let r = storm_draw(c.1, bottom, (top + 1) as i32);
    let w = storm_draw(r.1, 0, 3);
    let d = storm_draw(w.1, 0, 3);
    let g = storm_draw(d.1, 0, 5);
    ((c.0, r.0, w.0, d.0, g.0 as int), g.1)
}

/// A drop inside the bounds, with delays of at most two frames.
pub open spec fn drop_ok(d: (i32, i32, i32, i32, Seq<char>), left: i32, right: i32, bottom: i32, top: i32) -> bool {
    &&& left <= d.0 <= right
    &&& bottom <= d.1 <= top
    &&& 0 <= d.2 <= 2
    &&& 0 <= d.3 <= 2
}

/// Every drop is inside the bounds.
pub open spec fn drops_ok(ds: Seq<(i32, i32, i32, i32, Seq<char>)>, left: i32, right: i32, bottom: i32, top: i32) -> bool {
    forall|i: int| 0 <= i < ds.len() ==> drop_ok(#[trigger] ds[i], left, right, bottom, top)
}

/// A drop as the plain values it holds.
pub open spec fn drop_view(d: RainDrop) -> (i32, i32, i32, i32, Seq<char>) {
    (d.column, d.row, d.wait, d.delay, d.symbol@)
}

impl RainDrop {
    /// A drop anywhere in the bounds, with drawn delays and glyph.
    pub fn spawn(left: i32, right: i32, bottom: i32, top: i32, rng: &mut StormRng) -> (d: Self)
        requires
            storm_bounds(left, right, bottom, top),
        ensures
            ({
                let (v, st) = spawned(old(rng).0, left, right, bottom, top);
                drop_view(d) == (v.0, v.1, v.2, v.3, rain_glyph(v.4)) && final(rng).0 == st
            }),
            drop_ok(drop_view(d), left, right, bottom, top),
    {
        let column = rng.gen_range(left, right + 1);
        let row = rng.gen_range(bottom, top + 1);
        let wait = rng.gen_range(0, 3);
        let delay = rng.gen_range(0, 3);
        let k = rng.gen_range(0, 5);
        RainDrop { column, row, wait, delay, symbol: rain_symbol(k) }
    }
}

/// The lowest and highest row of the text, `(1, 1)` when there is none.
pub fn text_row_extents(rows: &[i32]) -> (r: (i32, i32))
    ensures
        rows@.len() == 0 ==> r == (1i32, 1i32),
        rows@.len() > 0 ==> {
            &&& exists|i: int| 0 <= i < rows@.len() && rows@[i] == r.0
            &&& exists|i: int| 0 <= i < rows@.len() && rows@[i] == r.1
            &&& forall|i: int| 0 <= i < rows@.len() ==> r.0 <= #[trigger] rows@[i] <= r.1
        },
{
    match value_range(rows) {
        Some(r) => r,
        None => (1, 1),
    }
}

/// One frame of a drop: it waits out its delay, then falls a row; a drop below the
/// bottom is respawned at the top in a drawn column with a drawn delay and glyph.
pub open spec fn rain_step(d: (i32, i32, i32, i32, Seq<char>), state: u32, bottom: i32, top: i32, left: i32, right: i32) -> (
    (i32, i32, i32, i32, Seq<char>),
    u32,
) {
    let (column, row, wait, delay, symbol) = d;
    if wait > 0 {
        ((column, row, (wait - 1) as i32, delay, symbol), state)
    } else if row - 1 >= bottom {
        ((column, (row - 1) as i32, delay, delay, symbol), state)
    } else {
        let c = storm_draw(state, left, (right + 1) as i32);
        let dl = storm_draw(c.1, 0, 3);
        let g = storm_draw(dl.1, 0, 5);
        ((c.0, top, dl.0, dl.0, rain_glyph(g.0 as int)), g.1)
    }
}

/// The drops after each takes its step in turn, and the generator state after.
pub open spec fn rain_steps(drops: Seq<(i32, i32, i32, i32, Seq<char>)>, state: u32, bottom: i32, top: i32, left: i32, right: i32) -> (
    Seq<(i32, i32, i32, i32, Seq<char>)>,
    u32,
)
    decreases drops.len(),
{
    if drops.len() == 0 {
        (drops, state)
    } else {
        let before = rain_steps(drops.drop_last(), state, bottom, top, left, right);
        let last = rain_step(drops.last(), before.1, bottom, top, left, right);
        (before.0.push(last.0), last.1)
    }
}

/// The views of a list of drops.
pub open spec fn drop_views(drops: Seq<RainDrop>) -> Seq<(i32, i32, i32, i32, Seq<char>)> {
    drops.map_values(|d: RainDrop| drop_view(d))
}

/// Every drop can still wait out and fall a row without leaving `i32`.
pub open spec fn drops_fit(drops: Seq<RainDrop>) -> bool {
    forall|i: int| 0 <= i < drops.len() ==> (#[trigger] drops[i]).row > i32::MIN && drops[i].wait > i32::MIN
}

/// Advances every raindrop by one frame.
pub fn step_rain(rain: &mut Vec<RainDrop>, bottom: i32, top: i32, left: i32, right: i32, rng: &mut StormRng)
    requires
        storm_bounds(left, right, bottom, top),
        drops_fit(old(rain)@),
    ensures
        (drop_views(final(rain)@), final(rng).0) == rain_steps(drop_views(old(rain)@), old(rng).0, bottom, top, left, right),
        drops_ok(drop_views(old(rain)@), left, right, bottom, top) ==> drops_ok(drop_views(final(rain)@), left, right, bottom, top),
{
    let ghost start = drop_views(rain@);
    let ghost s0 = rng.0;
    let mut i: usize = 0;
    while i < rain.len()
        invariant
            i <= rain@.len(),
            rain@.len() == start.len(),
            storm_bounds(left, right, bottom, top),
            forall|k: int| i <= k < rain@.len() ==> #[trigger] drop_view(rain@[k]) == start[k],
            forall|k: int| i <= k < rain@.len() ==> (#[trigger] rain@[k]).row > i32::MIN && rain@[k].wait > i32::MIN,
            (drop_views(rain@).take(i as int), rng.0) == rain_steps(start.take(i as int), s0, bottom, top, left, right),
            drops_ok(start, left, right, bottom, top) ==> forall|k: int| 0 <= k < i ==> drop_ok(#[trigger] drop_view(rain@[k]), left, right, bottom, top),
        decreases rain.len() - i,
    {
        let mut d = rain[i];
        let ghost st = rng.0;
        if d.wait > 0 {
            d.wait = d.wait - 1;
        } else {
            d.row = d.row - 1;
            d.wait = d.delay;
            if d.row < bottom {
                d.column = rng.gen_range(left, right + 1);
                d.row = top;
                d.delay = rng.gen_range(0, 3);
                d.wait = d.delay;
                let k = rng.gen_range(0, 5);
                d.symbol = rain_symbol(k);
            }
        }
        let ghost before = rain@;
        rain.set(i, d);
        proof {
            assert(start.take(i + 1).drop_last() =~= start.take(i as int));
            assert(start.take(i + 1).last() == start[i as int]);
            assert(drop_view(before[i as int]) == start[i as int]);
            assert((drop_view(d), rng.0) == rain_step(start[i as int], st, bottom, top, left, right));
            assert(drop_views(rain@).take(i + 1) =~= drop_views(before).take(i as int).push(drop_view(d)));
            if drops_ok(start, left, right, bottom, top) {
                assert(drop_ok(start[i as int], left, right, bottom, top));
                assert forall|k: int| 0 <= k < i + 1 implies drop_ok(#[trigger] drop_view(rain@[k]), left, right, bottom, top) by {
                    if k < i {
                        assert(rain@[k] == before[k]);
                    }
                }
            }
        }
        i = i + 1;
    }
    proof {
        assert(drop_views(rain@).take(rain@.len() as int) =~= drop_views(rain@));
        assert(start.take(start.len() as int) =~= start);
        if drops_ok(start, left, right, bottom, top) {
            assert forall|k: int| 0 <= k < drop_views(rain@).len() implies drop_ok(#[trigger] drop_views(rain@)[k], left, right, bottom, top) by {
                assert(drop_views(rain@)[k] == drop_view(rain@[k]));
            }
        }
    }
}

/// A canvas a bolt can be drawn on: non-empty, and small enough that a bolt's cells
/// and every coordinate one step off the canvas fit an `i32`.
pub open spec fn bolt_canvas(canvas: Canvas) -> bool {
    &&& -0x1000_0000 < canvas.left <= canvas.right < 0x1000_0000
    &&& -0x1000_0000 < canvas.bottom <= canvas.top < 0x1000_0000
    &&& canvas.top - canvas.bottom < 0x10_0000
}

/// A cell on the canvas.
pub open spec fn on_canvas(canvas: Canvas, c: Coord) -> bool {
    canvas.left <= c.column <= canvas.right && canvas.bottom <= c.row <= canvas.top
}

/// A fork point: on the canvas, clear of the top and bottom rows' neighbours, heading
/// one column left or right.
pub open spec fn fork_ok(canvas: Canvas, f: (i32, i32, i32)) -> bool {
    &&& canvas.left <= f.0 <= canvas.right
    &&& canvas.bottom + 1 < f.1 < canvas.top - 1
    &&& (f.2 == 1 || f.2 == -1)
}

/// `v` clamped into `lo..=hi`.
pub open spec fn clamp_col(v: int, lo: i32, hi: i32) -> i32 {
    if v < lo { lo } else if v > hi { hi } else { v as i32 }
}

/// One row of the trunk drawn from `state`: the cell, the fork started there (if the
/// draw asks for one away from the top and bottom rows), the new column and the state
/// after.
pub open spec fn trunk_step(canvas: Canvas, state: u32, column: i32, row: i32) -> (
    (Coord, Seq<char>),
    Option<(i32, i32, i32)>,
    i32,
    u32,
) {
    let (choice, s1) = storm_draw(state, 0, 3);
    let glyph = if choice == 0 { "/"@ } else if choice == 1 { "\\"@ } else { "|"@ };
    let dcol: int = if choice == 0 { -1 } else if choice == 1 { 1 } else { 0 };
    let col = clamp_col(column + dcol, canvas.left, canvas.right);
    let (f, s2) = storm_draw(s1, 0, 9);
    let fork = if f == 0 && row < canvas.top - 1 && row > canvas.bottom + 1 {
        Some((col, row, if dcol <= 0 { 1i32 } else { -1i32 }))
    } else {
        None
    };
    ((Coord { column: col, row }, glyph), fork, col, s2)
}

/// The trunk from `row` down to the bottom row: its cells, its forks and the state after.
pub open spec fn trunk_from(canvas: Canvas, state: u32, column: i32, row: int) -> (
    Seq<(Coord, Seq<char>)>,
    Seq<(i32, i32, i32)>,
    u32,
)
    decreases row - canvas.bottom + 1,
{
    if row < canvas.bottom {
        (Seq::empty(), Seq::empty(), state)
    } else {
        let (cell, fork, col, s1) = trunk_step(canvas, state, column, row as i32);
        let rest = trunk_from(canvas, s1, col, row - 1);
        (
            seq![cell] + rest.0,
            match fork {
                Some(f) => seq![f] + rest.1,
                None => rest.1,
            },
            rest.2,
        )
    }
}

/// A branch from `(column, row)` heading `dir`, with `left` segments to go: each segment
/// one diagonal cell, sometimes followed by a straight one below it, until the bottom.
pub open spec fn branch_from(canvas: Canvas, state: u32, column: i32, row: int, dir: i32, left: int) -> (
    Seq<(Coord, Seq<char>)>,
    u32,
)
    decreases left,
{
    if left <= 0 || row < canvas.bottom {
        (Seq::empty(), state)
    } else {
        let col = clamp_col(column + dir, canvas.left, canvas.right);
        let glyph = if dir > 0 { "\\"@ } else { "/"@ };
        let (x, s1) = storm_draw(state, 0, 3);
        if x == 0 && row - 1 >= canvas.bottom {
            let rest = branch_from(canvas, s1, col, row - 2, dir, left - 1);
            (seq![(Coord { column: col, row: row as i32 }, glyph), (Coord { column: col, row: (row - 1) as i32 }, "|"@)] + rest.0, rest.1)
        } else {
            let rest = branch_from(canvas, s1, col, row - 1, dir, left - 1);
            (seq![(Coord { column: col, row: row as i32 }, glyph)] + rest.0, rest.1)
        }
    }
}

/// The branches of the forks from `i` on, each drawing its length first.
pub open spec fn branches_from(canvas: Canvas, forks: Seq<(i32, i32, i32)>, i: int, state: u32) -> (
    Seq<(Coord, Seq<char>)>,
    u32,
)
    decreases forks.len() - i,
{
    if i < 0 || i >= forks.len() {
        (Seq::empty(), state)
    } else {
        let f = forks[i];
        let (depth, s1) = storm_draw(state, 3, 9);
        let branch = branch_from(canvas, s1, f.0, f.1 - 1, f.2, depth as int);
        let rest = branches_from(canvas, forks, i + 1, branch.1);
        (branch.0 + rest.0, rest.1)
    }
}

/// A bolt drawn from `state`: its cells (the trunk from a random top column, then the
/// branches), its lifetime, how many cells it shows a frame, and the state after.
pub open spec fn bolt_drawn(canvas: Canvas, state: u32) -> (Seq<(Coord, Seq<char>)>, int, int, u32) {
    let (col0, s1) = storm_draw(state, canvas.left, (canvas.right + 1) as i32);
    let trunk = trunk_from(canvas, s1, col0, canvas.top as int);
    let branches = branches_from(canvas, trunk.1, 0, trunk.2);
    let cells = trunk.0 + branches.0;
    let (g, s2) = storm_draw(branches.1, 0, 4);
    let limit: int = 8 + (cells.len() as int) / 3;
    (cells, if limit > 10 { limit } else { 10 }, 2 + g, s2)
}

/// The cells of a bolt with their glyphs as text.
pub open spec fn bolt_cells(cells: Seq<(Coord, &'static str)>) -> Seq<(Coord, Seq<char>)> {
    cells.map_values(|c: (Coord, &'static str)| (c.0, c.1@))
}


proof fn lemma_trunk_len(canvas: Canvas, state: u32, column: i32, row: int)
    ensures
        trunk_from(canvas, state, column, row).0.len() == (if row < canvas.bottom { 0 } else { row - canvas.bottom + 1 }),
        trunk_from(canvas, state, column, row).1.len() <= trunk_from(canvas, state, column, row).0.len(),
    decreases row - canvas.bottom + 1,
{
    if row >= canvas.bottom {
        let (cell, fork, col, s1) = trunk_step(canvas, state, column, row as i32);
        lemma_trunk_len(canvas, s1, col, row - 1);
    }
}

proof fn lemma_branch_len(canvas: Canvas, state: u32, column: i32, row: int, dir: i32, left: int)
    ensures
        branch_from(canvas, state, column, row, dir, left).0.len() <= 2 * (if left > 0 { left } else { 0 }),
    decreases left,
{
    if left > 0 && row >= canvas.bottom {
        let col = clamp_col(column + dir, canvas.left, canvas.right);
        let (x, s1) = storm_draw(state, 0, 3);
        lemma_branch_len(canvas, s1, col, row - 2, dir, left - 1);
        lemma_branch_len(canvas, s1, col, row - 1, dir, left - 1);
    }
}

proof fn lemma_branches_len(canvas: Canvas, forks: Seq<(i32, i32, i32)>, i: int, state: u32)
    requires
        0 <= i <= forks.len(),
    ensures
        branches_from(canvas, forks, i, state).0.len() <= 16 * (forks.len() - i),
    decreases forks.len() - i,
{
    if i < forks.len() {
        let f = forks[i];
        let (depth, s1) = storm_draw(state, 3, 9);
        let branch = branch_from(canvas, s1, f.0, f.1 - 1, f.2, depth as int);
        lemma_branch_len(canvas, s1, f.0, f.1 - 1, f.2, depth as int);
        lemma_branches_len(canvas, forks, i + 1, branch.1);
    }
}

/// A bolt has at most seventeen cells per canvas row: one on the trunk and at most
/// sixteen on the branch forked there.
pub proof fn lemma_bolt_len(canvas: Canvas, state: u32)
    requires
        bolt_canvas(canvas),
    ensures
        bolt_drawn(canvas, state).0.len() <= 17 * (canvas.top - canvas.bottom + 1),
{
    let (col0, s1) = storm_draw(state, canvas.left, (canvas.right + 1) as i32);
    let trunk = trunk_from(canvas, s1, col0, canvas.top as int);
    lemma_trunk_len(canvas, s1, col0, canvas.top as int);
    lemma_branches_len(canvas, trunk.1, 0, trunk.2);
}

/// A lightning bolt: its cells and glyphs, how many are shown, its age and lifetime,
/// and how many more cells each frame shows.
pub struct Bolt {
    pub cells: Vec<(Coord, &'static str)>,
    pub revealed: usize,
    pub age: i32,
    pub max_age: i32,
    pub grow: usize,
}

impl Bolt {
    /// A bolt down the canvas: a trunk with one cell per row from the top down, each
    /// column at most one away from the one above, with forks branching off; every cell
    /// on the canvas. It has shown nothing yet, lives `max(8 + cells / 3, 10)` frames and
    /// shows 2 to 5 more cells a frame.
    pub fn generate(canvas: &Canvas, rng: &mut StormRng) -> (b: Self)
        requires
            bolt_canvas(*canvas),
        ensures
            ({
                let d = bolt_drawn(*canvas, old(rng).0);
                &&& bolt_cells(b.cells@) == d.0
                &&& b.max_age == d.1
                &&& b.grow == d.2
                &&& final(rng).0 == d.3
            }),
            b.revealed == 0,
            b.age == 0,
            b.cells@.len() >= canvas.top - canvas.bottom + 1,
            forall|i: int| 0 <= i < b.cells@.len() ==> on_canvas(*canvas, #[trigger] b.cells@[i].0),
            forall|k: int| 0 <= k <= canvas.top - canvas.bottom ==> #[trigger] b.cells@[k].0.row == canvas.top - k,
            forall|k: int|
                0 < k <= canvas.top - canvas.bottom ==> -1 <= #[trigger] b.cells@[k].0.column - b.cells@[k - 1].0.column <= 1,
            b.max_age == (if 8 + b.cells@.len() / 3 > 10 { 8 + b.cells@.len() / 3 } else { 10 }),
            2 <= b.grow <= 5,
            b.cells@.len() <= 17 * (canvas.top - canvas.bottom + 1),
    {
        proof {
            lemma_bolt_len(*canvas, rng.0);
        }
        let height: usize = (canvas.top - canvas.bottom + 1) as usize;
        let mut cells: Vec<(Coord, &'static str)> = Vec::new();
        let mut forks: Vec<(i32, i32, i32)> = Vec::new();
        let mut column = rng.gen_range(canvas.left, canvas.right + 1);
        let ghost full = trunk_from(*canvas, rng.0, column, canvas.top as int);
        let mut row = canvas.top;
        proof {
            assert(bolt_cells(cells@) =~= Seq::empty());
            assert(bolt_cells(cells@) + full.0 =~= full.0);
            assert(forks@ + full.1 =~= full.1);
        }
        while row >= canvas.bottom
            invariant
                bolt_canvas(*canvas),
                height == canvas.top - canvas.bottom + 1,
                canvas.bottom - 1 <= row <= canvas.top,
                canvas.left <= column <= canvas.right,
                cells@.len() == canvas.top - row,
                forks@.len() <= cells@.len(),
                cells@.len() > 0 ==> cells@.last().0.column == column,
                forall|i: int| 0 <= i < cells@.len() ==> on_canvas(*canvas, #[trigger] cells@[i].0),
                forall|k: int| 0 <= k < cells@.len() ==> #[trigger] cells@[k].0.row == canvas.top - k,
                forall|k: int| 0 < k < cells@.len() ==> -1 <= #[trigger] cells@[k].0.column - cells@[k - 1].0.column <= 1,
                forall|f: int| 0 <= f < forks@.len() ==> fork_ok(*canvas, #[trigger] forks@[f]),
                bolt_cells(cells@) + trunk_from(*canvas, rng.0, column, row as int).0 == full.0,
                forks@ + trunk_from(*canvas, rng.0, column, row as int).1 == full.1,
                trunk_from(*canvas, rng.0, column, row as int).2 == full.2,
            decreases row - canvas.bottom + 1,
        {
            let ghost st = rng.0;
            let ghost rest = trunk_from(*canvas, st, column, row as int);
            let ghost step = trunk_step(*canvas, st, column, row);
            let ghost cells_before = cells@;
            let ghost forks_before = forks@;
            let choice = rng.gen_range(0, 3);
            let (symbol, dcol): (&'static str, i32) = if choice == 0 {
                ("/", -1)
            } else if choice == 1 {
                ("\\", 1)
            } else {
                ("|", 0)
            };
            let moved = column + dcol;
            column = if moved < canvas.left {
                canvas.left
            } else if moved > canvas.right {
                canvas.right
            } else {
                moved
            };
            cells.push((Coord::new(column, row), symbol));
            let f = rng.gen_range(0, 9);
            if f == 0 && row < canvas.top - 1 && row > canvas.bottom + 1 {
                let dir = if dcol <= 0 {
                    1
                } else {
                    -1
                };
                forks.push((column, row, dir));
            }
            proof {
                let next = trunk_from(*canvas, rng.0, column, row - 1);
                assert(step.0 == (Coord { column, row }, symbol@));
                assert(step.2 == column);
                assert(step.3 == rng.0);
                assert(rest.0 == seq![step.0] + next.0);
                assert(bolt_cells(cells@) =~= bolt_cells(cells_before).push(step.0));
                assert(bolt_cells(cells@) + next.0 =~= bolt_cells(cells_before) + rest.0);
                match step.1 {
                    Some(fk) => {
                        assert(forks@ =~= forks_before.push(fk));
                        assert(forks@ + next.1 =~= forks_before + rest.1);
                    },
                    None => {
                        assert(forks@ == forks_before);
                        assert(rest.1 == next.1);
                    },
                }
            }
            row = row - 1;
        }
        let ghost trunk = cells@;
        let ghost all_branches = branches_from(*canvas, full.1, 0, full.2);
        proof {
            assert(trunk_from(*canvas, rng.0, column, row as int).0 =~= Seq::<(Coord, Seq<char>)>::empty());
            assert(bolt_cells(cells@) =~= full.0);
            assert(forks@ =~= full.1);
            assert(bolt_cells(cells@) + all_branches.0 =~= full.0 + all_branches.0);
        }
        let mut fi: usize = 0;
        while fi < forks.len()
            invariant
                bolt_canvas(*canvas),
                height == canvas.top - canvas.bottom + 1,
                trunk.len() == height,
                forks@.len() <= height,
                fi <= forks@.len(),
                height <= cells@.len() <= height + 16 * fi,
                cells@.take(height as int) == trunk,
                forall|i: int| 0 <= i < cells@.len() ==> on_canvas(*canvas, #[trigger] cells@[i].0),
                forall|f: int| 0 <= f < forks@.len() ==> fork_ok(*canvas, #[trigger] forks@[f]),
                forks@ == full.1,
                bolt_cells(cells@) + branches_from(*canvas, forks@, fi as int, rng.0).0 == full.0 + all_branches.0,
                branches_from(*canvas, forks@, fi as int, rng.0).1 == all_branches.1,
            decreases forks.len() - fi,
        {
            let (start_col, start_row, dir) = forks[fi];
            proof {
                assert(fork_ok(*canvas, forks@[fi as int]));
            }
            let ghost fork_state = rng.0;
            let ghost rest = branches_from(*canvas, forks@, fi as int, fork_state);
            let ghost cells_start = cells@;
            let mut fcol = start_col;
            let mut frow = start_row - 1;
            let depth = rng.gen_range(3, 9);
            let ghost target = branch_from(*canvas, rng.0, start_col, start_row - 1, dir, depth as int);
            let mut d: i32 = 0;
            let ghost before = cells@.len();
            proof {
                assert(bolt_cells(cells@) + target.0 =~= bolt_cells(cells_start) + target.0);
            }
            while d < depth && frow >= canvas.bottom
                invariant
                    bolt_canvas(*canvas),
                    height == canvas.top - canvas.bottom + 1,
                    0 <= d <= depth <= 8,
                    dir == 1 || dir == -1,
                    canvas.left <= fcol <= canvas.right,
                    canvas.bottom - 1 <= frow < canvas.top,
                    before <= cells@.len() <= before + 2 * d,
                    cells@.take(height as int) == trunk,
                    trunk.len() == height,
                    before >= height,
                    forall|i: int| 0 <= i < cells@.len() ==> on_canvas(*canvas, #[trigger] cells@[i].0),
                    bolt_cells(cells@) + branch_from(*canvas, rng.0, fcol, frow as int, dir, (depth - d) as int).0
                        == bolt_cells(cells_start) + target.0,
                    branch_from(*canvas, rng.0, fcol, frow as int, dir, (depth - d) as int).1 == target.1,
                decreases depth - d,
            {
                let ghost st = rng.0;
                let ghost here = branch_from(*canvas, st, fcol, frow as int, dir, (depth - d) as int);
                let ghost cells_here = cells@;
                let moved = fcol + dir;
                fcol = if moved < canvas.left {
                    canvas.left
                } else if moved > canvas.right {
                    canvas.right
                } else {
                    moved
                };
                let symbol: &'static str = if dir > 0 {
                    "\\"
                } else {
                    "/"
                };
                cells.push((Coord::new(fcol, frow), symbol));
                let ghost row_at = frow;
                frow = frow - 1;
                let x = rng.gen_range(0, 3);
                if x == 0 && frow >= canvas.bottom {
                    cells.push((Coord::new(fcol, frow), "|"));
                    frow = frow - 1;
                }
                proof {
                    assert(cells@.take(height as int) =~= trunk);
                    let next = branch_from(*canvas, rng.0, fcol, frow as int, dir, (depth - d - 1) as int);
                    if x == 0 && row_at - 1 >= canvas.bottom {
                        assert(here.0 == seq![(Coord { column: fcol, row: row_at }, symbol@), (Coord { column: fcol, row: (row_at - 1) as i32 }, "|"@)] + next.0);
                        assert(bolt_cells(cells@) =~= bolt_cells(cells_here) + seq![(Coord { column: fcol, row: row_at }, symbol@), (Coord { column: fcol, row: (row_at - 1) as i32 }, "|"@)]);
                    } else {
                        assert(here.0 == seq![(Coord { column: fcol, row: row_at }, symbol@)] + next.0);
                        assert(bolt_cells(cells@) =~= bolt_cells(cells_here) + seq![(Coord { column: fcol, row: row_at }, symbol@)]);
                    }
                    assert(here.1 == next.1);
                    assert(bolt_cells(cells@) + next.0 =~= bolt_cells(cells_here) + here.0);
                }
                d = d + 1;
            }
            proof {
                let left = branch_from(*canvas, rng.0, fcol, frow as int, dir, (depth - d) as int);
                assert(left.0 =~= Seq::<(Coord, Seq<char>)>::empty());
                assert(bolt_cells(cells@) =~= bolt_cells(cells_start) + target.0);
                assert(rest.0 == target.0 + branches_from(*canvas, forks@, fi + 1, target.1).0);
                assert(bolt_cells(cells@) + branches_from(*canvas, forks@, fi + 1, rng.0).0 =~= bolt_cells(cells_start) + rest.0);
            }
            fi = fi + 1;
        }
        proof {
            assert(branches_from(*canvas, forks@, fi as int, rng.0).0 =~= Seq::<(Coord, Seq<char>)>::empty());
            assert(bolt_cells(cells@) =~= full.0 + all_branches.0);
            assert forall|k: int| 0 <= k <= canvas.top - canvas.bottom implies #[trigger] cells@[k].0.row == canvas.top - k by {
                assert(cells@[k] == cells@.take(height as int)[k]);
            }
            assert forall|k: int| 0 < k <= canvas.top - canvas.bottom implies -1 <= #[trigger] cells@[k].0.column - cells@[k
                - 1].0.column <= 1 by {
                assert(cells@[k] == cells@.take(height as int)[k]);
                assert(cells@[k - 1] == cells@.take(height as int)[k - 1]);
            }
        }
        let len = cells.len() as i32;
        let age_limit = 8 + len / 3;
        let grow = (2 + rng.gen_range(0, 4)) as usize;
        Bolt { cells, revealed: 0, age: 0, max_age: if age_limit > 10 { age_limit } else { 10 }, grow }
    }

    /// One frame: more of the bolt shows and it ages.
    pub fn tick(&mut self)
        requires
            old(self).age < i32::MAX,
            old(self).revealed + old(self).grow <= usize::MAX,
        ensures
            final(self).revealed == (if old(self).revealed + old(self).grow < old(self).cells@.len() {
                old(self).revealed + old(self).grow
            } else {
                old(self).cells@.len() as int
            }),
            final(self).age == old(self).age + 1,
            final(self).cells@ == old(self).cells@,
            final(self).max_age == old(self).max_age,
            final(self).grow == old(self).grow,
    {
        let r = self.revealed + self.grow;
        self.revealed = if r < self.cells.len() {
            r
        } else {
            self.cells.len()
        };
        self.age = self.age + 1;
    }

    /// Whether the bolt has faded.
    pub fn finished(&self) -> (b: bool)
        ensures
            b == (self.age >= self.max_age),
    {
        self.age >= self.max_age
    }
}

/// `n` drops spawned in turn, each placed on the top row, and the state after.
pub open spec fn spawn_many(state: u32, n: nat, left: i32, right: i32, bottom: i32, top: i32) -> (
    Seq<(i32, i32, i32, i32, Seq<char>)>,
    u32,
)
    decreases n,
{
    if n == 0 {
        (Seq::empty(), state)
    } else {
        let before = spawn_many(state, (n - 1) as nat, left, right, bottom, top);
        let (v, st) = spawned(before.1, left, right, bottom, top);
        (before.0.push((v.0, top, v.2, v.3, rain_glyph(v.4))), st)
    }
}

/// How many drops a refill adds to `len` drops: up to `target`, then `extra` more, never
/// passing `target + extra`.
pub open spec fn refill_count(len: nat, target: nat, extra: nat) -> nat {
    let first: nat = if len < target { (target - len) as nat } else { 0 };
    let second: nat = if len <= target {
        extra
    } else if len < target + extra {
        (target + extra - len) as nat
    } else {
        0
    };
    first + second
}

fn spawn_on_top(left: i32, right: i32, bottom: i32, top: i32, rng: &mut StormRng) -> (d: RainDrop)
    requires
        storm_bounds(left, right, bottom, top),
    ensures
        ({
            let (v, st) = spawned(old(rng).0, left, right, bottom, top);
            drop_view(d) == (v.0, top, v.2, v.3, rain_glyph(v.4)) && final(rng).0 == st
        }),
        drop_ok(drop_view(d), left, right, bottom, top),
{
    let mut d = RainDrop::spawn(left, right, bottom, top, rng);
    d.row = top;
    d
}

/// Tops the rain up to `target` drops and then up to a drawn 1 to 3 more, new drops
/// starting on the top row.
pub fn spawn_rain(rain: &mut Vec<RainDrop>, target: usize, left: i32, right: i32, bottom: i32, top: i32, rng: &mut StormRng)
    requires
        storm_bounds(left, right, bottom, top),
        target + 4 <= usize::MAX,
    ensures
        ({
            let (extra, s1) = storm_draw(old(rng).0, 1, 4);
            let n = refill_count(old(rain)@.len(), target as nat, extra as nat);
            let added = spawn_many(s1, n, left, right, bottom, top);
            drop_views(final(rain)@) == drop_views(old(rain)@) + added.0 && final(rng).0 == added.1
        }),
        drops_ok(drop_views(old(rain)@), left, right, bottom, top) ==> drops_ok(drop_views(final(rain)@), left, right, bottom, top),
{
    let extra = rng.gen_range(1, 4) as usize;
    let ghost s1 = rng.0;
    let ghost start = drop_views(rain@);
    let ghost mut k: nat = 0;
    while rain.len() < target
        invariant
            storm_bounds(left, right, bottom, top),
            rain@.len() == start.len() + k,
            k == 0 || rain@.len() <= target,
            drop_views(rain@) == start + spawn_many(s1, k, left, right, bottom, top).0,
            rng.0 == spawn_many(s1, k, left, right, bottom, top).1,
            drops_ok(start, left, right, bottom, top) ==> drops_ok(drop_views(rain@), left, right, bottom, top),
        decreases target - rain.len(),
    {
        let ghost prev = rain@;
        let d = spawn_on_top(left, right, bottom, top, rng);
        rain.push(d);
        proof {
            k = k + 1;
            assert(drop_views(rain@) =~= drop_views(prev).push(drop_view(d)));
            assert(drop_views(rain@) =~= start + spawn_many(s1, k, left, right, bottom, top).0);
        }
    }
    let ghost k1 = k;
    let ghost len1 = rain@.len();
    let mut j: usize = 0;
    while j < extra && rain.len() < target + extra
        invariant
            storm_bounds(left, right, bottom, top),
            1 <= extra <= 3,
            target + 4 <= usize::MAX,
            j <= extra,
            len1 == start.len() + k1,
            len1 == (if start.len() < target { target as int } else { start.len() as int }),
            k1 == (if start.len() < target { target - start.len() } else { 0 }),
            rain@.len() == len1 + j,
            k == k1 + j,
            j == 0 || len1 + j <= target + extra,
            drop_views(rain@) == start + spawn_many(s1, k, left, right, bottom, top).0,
            rng.0 == spawn_many(s1, k, left, right, bottom, top).1,
            drops_ok(start, left, right, bottom, top) ==> drops_ok(drop_views(rain@), left, right, bottom, top),
        decreases extra - j,
    {
        let ghost prev = rain@;
        let d = spawn_on_top(left, right, bottom, top, rng);
        rain.push(d);
        proof {
            k = k + 1;
            assert(drop_views(rain@) =~= drop_views(prev).push(drop_view(d)));
            assert(drop_views(rain@) =~= start + spawn_many(s1, k, left, right, bottom, top).0);
        }
        j = j + 1;
    }
    proof {
        assert(k == refill_count(start.len(), target as nat, extra as nat));
    }
}

/// The largest draw of a strike chance: a draw `x` strikes when `x / (2^32 - 1)` is below
/// 45 in a thousand.
pub const STRIKE_LIMIT: u32 = 193273528;
/// The largest draw of a sideways glow-spread chance (below 4 in ten).
pub const SIDE_LIMIT: u32 = 1717986917;
/// The largest draw of an upward or downward glow-spread chance (below 28 in a hundred).
pub const UPRIGHT_LIMIT: u32 = 1202590842;

/// The color of the rain.
pub open spec fn rain_color() -> Color {
    Color { r: 79, g: 143, b: 186 }
}

/// A symbol wrapped in a foreground color and a reset, as the storm writes its glyphs.
pub open spec fn paint_text(color: Color, symbol: Seq<char>) -> Seq<char> {
    sgr_rgb('3', color) + symbol + sgr_reset()
}

/// A character as the storm paints it: bold while it flashes, its painted symbol in the
/// color, and a reset.
pub open spec fn char_text(color: Color, symbol: Seq<char>, bold: bool) -> Seq<char> {
    code_if(bold, '1') + sgr_rgb('3', color) + paint_text(color, symbol) + sgr_reset()
}

/// `x / m` rounded to the nearest integer, ties to even (`m > 0`).
pub open spec fn half_even_div(x: int, m: int) -> int {
    let q = x / m;
    let r = x % m;
    if 2 * r < m { q } else if 2 * r > m { q + 1 } else if q % 2 == 0 { q } else { q + 1 }
}

/// The color index of a bolt of age `age` out of `max_age`: its age fraction of the way
/// through `last + 1` colors, rounded half to even.
pub open spec fn shade(age: int, max_age: int, last: int) -> int {
    if max_age <= 1 {
        0
    } else {
        let v = half_even_div(age * last, max_age);
        if v < 0 { 0 } else if v > last { last } else { v }
    }
}

/// A symbol made only of whitespace (an empty one included).
pub open spec fn blank(symbol: Seq<char>) -> bool {
    forall|i: int| 0 <= i < symbol.len() ==> is_whitespace(#[trigger] symbol[i])
}

/// A bolt as plain values: its cells, how many show, its age, lifetime and growth.
pub open spec fn bolt_view(b: Bolt) -> (Seq<(Coord, Seq<char>)>, int, int, int, int) {
    (bolt_cells(b.cells@), b.revealed as int, b.age as int, b.max_age as int, b.grow as int)
}

pub open spec fn bolt_views(bs: Seq<Bolt>) -> Seq<(Seq<(Coord, Seq<char>)>, int, int, int, int)> {
    bs.map_values(|b: Bolt| bolt_view(b))
}

/// What stays fixed while the storm runs: the characters, each character's glow colors
/// by flash level and settled color, the bolt colors, the canvas, the rain's target
/// size, the storm's length and the canvas height.
pub struct StormScene {
    pub chars: Seq<PlacedCharacter>,
    pub glow: Seq<Seq<Color>>,
    pub settled: Seq<Color>,
    pub bolt_colors: Seq<Color>,
    pub canvas: Canvas,
    pub target: nat,
    pub storm_len: int,
    pub height: int,
}

/// The running state: the drops, the bolts, the strike cooldown and count, each
/// character's flash level and revealed flag, the generator and what each character shows.
pub struct StormView {
    pub rain: Seq<(i32, i32, i32, i32, Seq<char>)>,
    pub bolts: Seq<(Seq<(Coord, Seq<char>)>, int, int, int, int)>,
    pub cooldown: int,
    pub strikes: int,
    pub flash: Seq<int>,
    pub revealed: Seq<bool>,
    pub rng: u32,
    pub looks: Seq<Option<Seq<char>>>,
}

/// The scene for the characters on `canvas`: a rain of `width * height / 18` drops
/// (between 8 and 96) and a storm of `8 * height + 100` frames (between 90 and 280).
pub open spec fn storm_scene(
    chars: Seq<PlacedCharacter>,
    glow: Seq<Seq<Color>>,
    settled: Seq<Color>,
    bolt_colors: Seq<Color>,
    canvas: Canvas,
) -> StormScene {
    let width = canvas.right - canvas.left + 1;
    let height = canvas.top - canvas.bottom + 1;
    let t = width * height / 18;
    let l = height * 8 + 100;
    StormScene {
        chars,
        glow,
        settled,
        bolt_colors,
        canvas,
        target: (if t < 8 { 8 } else if t > 96 { 96 } else { t }) as nat,
        storm_len: if l < 90 { 90 } else if l > 280 { 280 } else { l },
        height,
    }
}

/// `k` drops spawned anywhere in turn, and the state after.
pub open spec fn spawn_list(state: u32, k: nat, left: i32, right: i32, bottom: i32, top: i32) -> (
    Seq<(i32, i32, i32, i32, Seq<char>)>,
    u32,
)
    decreases k,
{
    if k == 0 {
        (Seq::empty(), state)
    } else {
        let b = spawn_list(state, (k - 1) as nat, left, right, bottom, top);
        let (v, st) = spawned(b.1, left, right, bottom, top);
        (b.0.push((v.0, v.1, v.2, v.3, rain_glyph(v.4))), st)
    }
}

/// The state before the first frame: half the rain spawned, the first cooldown drawn
/// (4 to 11 frames), no bolt, every character hidden and unlit.
pub open spec fn storm_start(sc: StormScene, seed: u32) -> StormView {
    let c = sc.canvas;
    let (drops, s1) = spawn_list(seed, sc.target / 2, c.left, c.right, c.bottom, c.top);
    let (cd, s2) = storm_draw(s1, 4, 12);
    let n = sc.chars.len();
    StormView {
        rain: drops,
        bolts: Seq::empty(),
        cooldown: cd as int,
        strikes: 0,
        flash: Seq::new(n, |i: int| 0int),
        revealed: Seq::new(n, |i: int| false),
        rng: s2,
        looks: Seq::new(n, |i: int| None),
    }
}

/// The rain of a frame: it is topped up, then every drop takes its step.
pub open spec fn storm_rain(sc: StormScene, st: StormView) -> StormView {
    let c = sc.canvas;
    let (extra, s1) = storm_draw(st.rng, 1, 4);
    let n = refill_count(st.rain.len(), sc.target, extra as nat);
    let added = spawn_many(s1, n, c.left, c.right, c.bottom, c.top);
    let stepped = rain_steps(st.rain + added.0, added.1, c.bottom, c.top, c.left, c.right);
    StormView { rain: stepped.0, rng: stepped.1, ..st }
}

/// The strike decision of frame `i`: the cooldown runs down; a bolt strikes when fewer
/// than three have struck, the storm is past its first eighth and clear of its end, and
/// the cooldown is spent; or by chance once the cooldown is spent, away from the storm's
/// first and last frames. A strike draws the bolt and a new cooldown of 8 to 17 frames.
pub open spec fn storm_strike(sc: StormScene, st: StormView, i: int) -> StormView {
    let cd = st.cooldown - 1;
    let must = st.strikes < 3 && i > sc.storm_len / 8 && i < sc.storm_len - sc.height - 8 && cd <= 0;
    let pre = cd <= 0 && i > 6 && i < sc.storm_len - 12;
    let s1 = if pre { xorshift32(st.rng) } else { st.rng };
    let chance = pre && s1 <= STRIKE_LIMIT;
    if must || chance {
        let (cells, max_age, grow, s2) = bolt_drawn(sc.canvas, s1);
        let (c2, s3) = storm_draw(s2, 8, 18);
        StormView {
            bolts: st.bolts.push((cells, 0, 0, max_age, grow)),
            strikes: st.strikes + 1,
            cooldown: c2 as int,
            rng: s3,
            ..st
        }
    } else {
        StormView { cooldown: cd, rng: s1, ..st }
    }
}

/// A bolt one frame on: more cells show and it ages.
pub open spec fn ticked_bolt(b: (Seq<(Coord, Seq<char>)>, int, int, int, int)) -> (Seq<(Coord, Seq<char>)>, int, int, int, int) {
    (b.0, if b.1 + b.4 < b.0.len() { b.1 + b.4 } else { b.0.len() as int }, b.2 + 1, b.3, b.4)
}

/// The first `m` bolts that have not yet faded.
pub open spec fn kept_bolts(bs: Seq<(Seq<(Coord, Seq<char>)>, int, int, int, int)>, m: nat) -> Seq<
    (Seq<(Coord, Seq<char>)>, int, int, int, int),
>
    decreases m,
{
    if m == 0 {
        Seq::empty()
    } else {
        let prev = kept_bolts(bs, (m - 1) as nat);
        if bs[m - 1].2 < bs[m - 1].3 { prev.push(bs[m - 1]) } else { prev }
    }
}

/// `c` is the cell `a` or one of its four neighbours.
pub open spec fn near(a: Coord, c: Coord) -> bool {
    ||| a.row == c.row && (a.column == c.column || a.column - 1 == c.column || a.column + 1 == c.column)
    ||| a.column == c.column && (a.row - 1 == c.row || a.row + 1 == c.row)
}

/// A shown cell of some bolt is at or next to `c`.
pub open spec fn hit(bolts: Seq<(Seq<(Coord, Seq<char>)>, int, int, int, int)>, c: Coord) -> bool {
    exists|k: int, j: int| 0 <= k < bolts.len() && 0 <= j < bolts[k].1 && near(#[trigger] bolts[k].0[j].0, c)
}

/// Some drop is on `c`.
pub open spec fn rain_at(rain: Seq<(i32, i32, i32, i32, Seq<char>)>, c: Coord) -> bool {
    exists|k: int| 0 <= k < rain.len() && (#[trigger] rain[k]).0 == c.column && rain[k].1 == c.row
}

/// The identifier a neighbour link names (0 for none).
pub open spec fn neighbor_id(o: Option<CharacterId>) -> u32 {
    match o {
        Some(x) => x.0,
        None => 0,
    }
}

/// The glow spreads from the first `m` characters lit above level 5: each tries its left,
/// right, upper and lower neighbour in turn, by chance; the neighbours reached, and the
/// generator after.
pub open spec fn spread_draws(chars: Seq<PlacedCharacter>, flash: Seq<int>, s: u32, m: nat) -> (Seq<u32>, u32)
    decreases m,
{
    if m == 0 {
        (Seq::empty(), s)
    } else {
        let (t, s1) = spread_draws(chars, flash, s, (m - 1) as nat);
        let c = m - 1;
        if flash[c] <= 5 {
            (t, s1)
        } else {
            let nb = chars[c].neighbors;
            let a = xorshift32(s1);
            let t1 = if a <= SIDE_LIMIT && nb.left is Some { t.push(neighbor_id(nb.left)) } else { t };
            let b = xorshift32(a);
            let t2 = if b <= SIDE_LIMIT && nb.right is Some { t1.push(neighbor_id(nb.right)) } else { t1 };
            let d = xorshift32(b);
            let t3 = if d <= UPRIGHT_LIMIT && nb.above is Some { t2.push(neighbor_id(nb.above)) } else { t2 };
            let e = xorshift32(d);
            let t4 = if e <= UPRIGHT_LIMIT && nb.below is Some { t3.push(neighbor_id(nb.below)) } else { t3 };
            (t4, e)
        }
    }
}

/// The first `m` glow targets are revealed and lit to at least level 8.
pub open spec fn spread_applied(rev: Seq<bool>, fl: Seq<int>, targets: Seq<u32>, m: nat) -> (Seq<bool>, Seq<int>)
    decreases m,
{
    if m == 0 {
        (rev, fl)
    } else {
        let (r, f) = spread_applied(rev, fl, targets, (m - 1) as nat);
        let t = targets[m - 1] as int;
        if t < r.len() {
            (r.update(t, true), f.update(t, if f[t] < 8 { 8 } else { f[t] }))
        } else {
            (r, f)
        }
    }
}

/// The hidden characters among the first `m` that are not blank, in order.
pub open spec fn hidden_list(chars: Seq<PlacedCharacter>, rev: Seq<bool>, m: nat) -> Seq<int>
    decreases m,
{
    if m == 0 {
        Seq::empty()
    } else {
        let prev = hidden_list(chars, rev, (m - 1) as nat);
        if !rev[m - 1] && !blank(chars[m - 1].symbol@) { prev.push(m - 1) } else { prev }
    }
}

/// Every third frame one hidden character that is not blank is revealed, drawn at
/// random; the revealed flags and the generator after.
pub open spec fn reveal_pick(chars: Seq<PlacedCharacter>, rev: Seq<bool>, s: u32, i: int) -> (Seq<bool>, u32) {
    let hidden = hidden_list(chars, rev, chars.len());
    if i % 3 == 0 && hidden.len() > 0 {
        let (k, s2) = storm_draw(s, 0, hidden.len() as i32);
        (rev.update(hidden[k as int], true), s2)
    } else {
        (rev, s)
    }
}

/// A character's flash level after its frame: a lit character dims one level, except a
/// hidden one that is not blank.
pub open spec fn styled_flash(p: PlacedCharacter, rev: bool, fl: int) -> int {
    if !blank(p.symbol@) && !rev { fl } else if fl > 0 { fl - 1 } else { fl }
}

/// What character `c` shows: nothing while blank or hidden; its glow color for its
/// flash level while lit (bold while still above level 2 after dimming); else its
/// settled color.
pub open spec fn styled_look(sc: StormScene, c: int, rev: bool, fl: int) -> Option<Seq<char>> {
    let p = sc.chars[c];
    if blank(p.symbol@) || !rev {
        None
    } else if fl > 0 {
        Some(char_text(sc.glow[c][fl], p.symbol@, fl - 1 > 2))
    } else {
        Some(char_text(sc.settled[c], p.symbol@, false))
    }
}

/// The characters' turn in frame `i`, after the rain and strike: bolts grow and age;
/// characters under a drop are revealed, those at or next to a bolt's shown cell are
/// revealed and lit; the glow spreads; every third frame one hidden character is revealed
/// at random; faded bolts leave; every character dims and takes its look.
pub open spec fn storm_chars(sc: StormScene, b: StormView, i: int) -> StormView {
    let tb = b.bolts.map_values(|x: (Seq<(Coord, Seq<char>)>, int, int, int, int)| ticked_bolt(x));
    let n = sc.chars.len();
    let rev1 = Seq::new(
        n,
        |c: int|
            b.revealed[c] || (!blank(sc.chars[c].symbol@) && (rain_at(b.rain, sc.chars[c].coord) || hit(tb, sc.chars[c].coord))),
    );
    let fl1 = Seq::new(n, |c: int| if !blank(sc.chars[c].symbol@) && hit(tb, sc.chars[c].coord) { 10int } else { b.flash[c] });
    let (targets, s1) = spread_draws(sc.chars, fl1, b.rng, n);
    let (rev2, fl2) = spread_applied(rev1, fl1, targets, targets.len());
    let (rev3, s2) = reveal_pick(sc.chars, rev2, s1, i);
    StormView {
        bolts: kept_bolts(tb, tb.len()),
        flash: Seq::new(n, |c: int| styled_flash(sc.chars[c], rev3[c], fl2[c])),
        revealed: rev3,
        rng: s2,
        looks: Seq::new(n, |c: int| styled_look(sc, c, rev3[c], fl2[c])),
        ..b
    }
}

/// Frame `i` of the storm.
pub open spec fn storm_step(sc: StormScene, st: StormView, i: int) -> StormView {
    storm_chars(sc, storm_strike(sc, storm_rain(sc, st), i), i)
}

/// The state after `k` frames.
pub open spec fn storm_after(sc: StormScene, start: StormView, k: nat) -> StormView
    decreases k,
{
    if k == 0 {
        start
    } else {
        storm_step(sc, storm_after(sc, start, (k - 1) as nat), k - 1)
    }
}

/// Some shown character stands on `at`.
pub open spec fn occupied(chars: Seq<PlacedCharacter>, looks: Seq<Option<Seq<char>>>, at: Coord) -> bool {
    exists|c: int| 0 <= c < chars.len() && (#[trigger] looks[c]) is Some && chars[c].coord == at
}

/// The first `m` drops, each where no shown character stands.
pub open spec fn rain_sprites(
    chars: Seq<PlacedCharacter>,
    looks: Seq<Option<Seq<char>>>,
    rain: Seq<(i32, i32, i32, i32, Seq<char>)>,
    m: nat,
) -> Seq<(Coord, Seq<char>)>
    decreases m,
{
    if m == 0 {
        Seq::empty()
    } else {
        let prev = rain_sprites(chars, looks, rain, (m - 1) as nat);
        let d = rain[m - 1];
        let at = Coord { column: d.0, row: d.1 };
        if occupied(chars, looks, at) { prev } else { prev.push((at, paint_text(rain_color(), d.4))) }
    }
}

/// The shown cells of the first `m` bolts, in the color of each bolt's age.
pub open spec fn bolt_sprites(bolts: Seq<(Seq<(Coord, Seq<char>)>, int, int, int, int)>, colors: Seq<Color>, m: nat) -> Seq<
    (Coord, Seq<char>),
>
    decreases m,
{
    if m == 0 {
        Seq::empty()
    } else {
        let b = bolts[m - 1];
        let color = colors[shade(b.2, b.3, colors.len() - 1)];
        bolt_sprites(bolts, colors, (m - 1) as nat) + Seq::new(b.1 as nat, |j: int| (b.0[j].0, paint_text(color, b.0[j].1)))
    }
}

/// A frame of the storm: the shown characters, the rain around them, the bolts over all.
pub open spec fn storm_sprites(sc: StormScene, st: StormView) -> Seq<(Coord, Seq<char>)> {
    look_sprites(sc.chars, st.looks, sc.chars.len()) + rain_sprites(sc.chars, st.looks, st.rain, st.rain.len()) + bolt_sprites(
        st.bolts,
        sc.bolt_colors,
        st.bolts.len(),
    )
}

/// After the storm: every character that is not blank, in its settled color.
pub open spec fn settled_storm(sc: StormScene) -> Seq<Option<Seq<char>>> {
    Seq::new(
        sc.chars.len(),
        |c: int| if blank(sc.chars[c].symbol@) { None } else { Some(char_text(sc.settled[c], sc.chars[c].symbol@, false)) },
    )
}

fn is_blank(s: &str) -> (b: bool)
    ensures
        b == blank(s@),
{
    let v = chars_of(s);
    let mut i: usize = 0;
    while i < v.len()
        invariant
            v@ == s@,
            i <= v@.len(),
            forall|j: int| 0 <= j < i ==> is_whitespace(#[trigger] v@[j]),
        decreases v.len() - i,
    {
        if !is_whitespace_char(v[i]) {
            return false;
        }
        i = i + 1;
    }
    true
}

fn append_str(s: &mut String, t: &str)
    ensures
        final(s)@ == old(s)@ + t@,
{
    let v = chars_of(t);
    let mut i: usize = 0;
    while i < v.len()
        invariant
            v@ == t@,
            i <= v@.len(),
            s@ == old(s)@ + v@.take(i as int),
        decreases v.len() - i,
    {
        push_char(s, v[i]);
        proof {
            assert(v@.take(i + 1) =~= v@.take(i as int).push(v@[i as int]));
        }
        i = i + 1;
    }
    proof {
        assert(v@.take(v@.len() as int) =~= v@);
    }
}

fn push_reset(s: &mut String)
    ensures
        final(s)@ == old(s)@ + sgr_reset(),
{
    push_char(s, '\x1b');
    push_char(s, '[');
    push_char(s, '0');
    push_char(s, 'm');
    proof {
        assert(s@ =~= old(s)@ + sgr_reset());
    }
}

fn painted(color: Color, symbol: &str) -> (s: String)
    ensures
        s@ == paint_text(color, symbol@),
{
    let mut s = color.fg_sgr();
    append_str(&mut s, symbol);
    push_reset(&mut s);
    s
}

/// A plain visual whose symbol is `text`: it formats to `text` itself.
fn text_visual(text: &String) -> (v: CharacterVisual)
    ensures
        formatted(v) == text@,
{
    let v = CharacterVisual::new(text.as_str(), None);
    proof {
        lemma_plain_text(v);
    }
    v
}

fn char_visual(color: Color, symbol: &str, bold: bool) -> (v: CharacterVisual)
    ensures
        formatted(v) == char_text(color, symbol@, bold),
{
    let mut s = String::new();
    if bold {
        push_char(&mut s, '\x1b');
        push_char(&mut s, '[');
        push_char(&mut s, '1');
        push_char(&mut s, 'm');
    }
    proof {
        assert(s@ =~= code_if(bold, '1'));
    }
    let sgr = color.fg_sgr();
    append_str(&mut s, sgr.as_str());
    let p = painted(color, symbol);
    append_str(&mut s, p.as_str());
    push_reset(&mut s);
    proof {
        assert(s@ =~= char_text(color, symbol@, bold));
    }
    text_visual(&s)
}

fn shade_index(age: i32, max_age: i32, last: usize) -> (k: usize)
    requires
        0 <= age <= max_age,
        last < 0x1_0000,
    ensures
        k as int == shade(age as int, max_age as int, last as int),
        k <= last,
{
    if max_age <= 1 {
        return 0;
    }
    proof {
        assert((age as int) * (last as int) < 0x8000_0000 * 0x1_0000) by (nonlinear_arith)
            requires
                0 <= age < 0x8000_0000,
                0 <= last < 0x1_0000,
        ;
        assert((age as int) * (last as int) >= 0) by (nonlinear_arith)
            requires
                0 <= age,
                0 <= last,
        ;
    }
    let x: u64 = age as u64 * last as u64;
    let m: u64 = max_age as u64;
    let q = x / m;
    let r = x % m;
    let v = if 2 * r < m {
        q
    } else if 2 * r > m {
        q + 1
    } else if q % 2 == 0 {
        q
    } else {
        q + 1
    };
    if v > last as u64 {
        last
    } else {
        v as usize
    }
}

/// A bolt still in the sky: no more cells shown than it has, growing 2 to 5 a frame,
/// younger than its lifetime, at most 17 cells a canvas row, every cell on the canvas.
pub open spec fn bolt_ok(b: Bolt, canvas: Canvas) -> bool {
    &&& b.revealed <= b.cells@.len()
    &&& 2 <= b.grow <= 5
    &&& 0 <= b.age < b.max_age
    &&& b.cells@.len() <= 17 * (canvas.top - canvas.bottom + 1)
    &&& forall|j: int| 0 <= j < b.cells@.len() ==> on_canvas(canvas, #[trigger] b.cells@[j].0)
}

fn near_cell(a: Coord, c: Coord) -> (b: bool)
    requires
        -0x1000_0000 < a.column < 0x1000_0000,
        -0x1000_0000 < a.row < 0x1000_0000,
    ensures
        b == near(a, c),
{
    (a.row == c.row && (a.column == c.column || a.column - 1 == c.column || a.column + 1 == c.column)) || (a.column
        == c.column && (a.row - 1 == c.row || a.row + 1 == c.row))
}

fn hit_at(bolts: &Vec<Bolt>, at: Coord, Ghost(canvas): Ghost<Canvas>) -> (b: bool)
    requires
        bolt_canvas(canvas),
        forall|k: int| 0 <= k < bolts@.len() ==> (#[trigger] bolts@[k]).revealed <= bolts@[k].cells@.len(),
        forall|k: int, j: int|
            0 <= k < bolts@.len() && 0 <= j < bolts@[k].cells@.len() ==> on_canvas(canvas, #[trigger] bolts@[k].cells@[j].0),
    ensures
        b == hit(bolt_views(bolts@), at),
{
    let ghost bv = bolt_views(bolts@);
    let mut k: usize = 0;
    while k < bolts.len()
        invariant
            bolt_canvas(canvas),
            bv == bolt_views(bolts@),
            forall|k: int| 0 <= k < bolts@.len() ==> (#[trigger] bolts@[k]).revealed <= bolts@[k].cells@.len(),
            forall|k: int, j: int|
                0 <= k < bolts@.len() && 0 <= j < bolts@[k].cells@.len() ==> on_canvas(canvas, #[trigger] bolts@[k].cells@[j].0),
            k <= bolts@.len(),
            forall|a: int, j: int| 0 <= a < k && 0 <= j < bv[a].1 ==> !near(#[trigger] bv[a].0[j].0, at),
        decreases bolts.len() - k,
    {
        let b = &bolts[k];
        let mut j: usize = 0;
        while j < b.revealed
            invariant
                bolt_canvas(canvas),
                bv == bolt_views(bolts@),
                k < bolts@.len(),
                *b == bolts@[k as int],
                b.revealed <= b.cells@.len(),
                forall|j: int| 0 <= j < b.cells@.len() ==> on_canvas(canvas, #[trigger] b.cells@[j].0),
                j <= b.revealed,
                forall|i: int| 0 <= i < j ==> !near(#[trigger] bv[k as int].0[i].0, at),
            decreases b.revealed - j,
        {
            let cell = b.cells[j].0;
            proof {
                assert(on_canvas(canvas, b.cells@[j as int].0));
                assert(bv[k as int].0[j as int].0 == cell);
            }
            if near_cell(cell, at) {
                return true;
            }
            j = j + 1;
        }
        k = k + 1;
    }
    false
}

fn rain_on(rain: &Vec<RainDrop>, at: Coord) -> (b: bool)
    ensures
        b == rain_at(drop_views(rain@), at),
{
    let mut k: usize = 0;
    while k < rain.len()
        invariant
            k <= rain@.len(),
            forall|i: int| 0 <= i < k ==> !((#[trigger] drop_views(rain@)[i]).0 == at.column && drop_views(rain@)[i].1 == at.row),
        decreases rain.len() - k,
    {
        if rain[k].column == at.column && rain[k].row == at.row {
            proof {
                assert(drop_views(rain@)[k as int] == drop_view(rain@[k as int]));
            }
            return true;
        }
        proof {
            assert(drop_views(rain@)[k as int] == drop_view(rain@[k as int]));
        }
        k = k + 1;
    }
    false
}

/// The storm's running state as the frame loop holds it.
struct Storm {
    rain: Vec<RainDrop>,
    bolts: Vec<Bolt>,
    cooldown: i32,
    strikes: i32,
    flash: Vec<i32>,
    revealed: Vec<bool>,
    rng: StormRng,
    looks: Vec<Option<CharacterVisual>>,
}

pub open spec fn flash_view(f: Seq<i32>) -> Seq<int> {
    f.map_values(|x: i32| x as int)
}

/// The glow tables as plain values.
pub open spec fn glow_view(glow: Seq<Vec<Color>>) -> Seq<Seq<Color>> {
    glow.map_values(|v: Vec<Color>| v@)
}

/// The scene agrees with the arguments, the canvas can hold bolts, each character is
/// numbered by its place, and the tables cover every character and flash level.
pub open spec fn storm_fits(sc: StormScene, chars: Seq<PlacedCharacter>, glow: Seq<Vec<Color>>, settled: Seq<Color>, bolt_colors: Seq<Color>) -> bool {
    &&& sc.chars == chars
    &&& sc.glow == glow_view(glow)
    &&& sc.settled == settled
    &&& sc.bolt_colors == bolt_colors
    &&& bolt_canvas(sc.canvas)
    &&& storm_bounds(sc.canvas.left, sc.canvas.right, sc.canvas.bottom, sc.canvas.top)
    &&& sc.target <= 96
    &&& 90 <= sc.storm_len <= 280
    &&& sc.height == sc.canvas.top - sc.canvas.bottom + 1
    &&& chars.len() < 0x10_0000
    &&& glow.len() == chars.len()
    &&& settled.len() == chars.len()
    &&& 1 <= bolt_colors.len() < 0x1_0000
    &&& forall|c: int| 0 <= c < chars.len() ==> (#[trigger] glow[c])@.len() >= 11
    &&& forall|c: int| 0 <= c < chars.len() ==> (#[trigger] chars[c]).id.0 == c
}

impl Storm {
    spec fn state(&self) -> StormView {
        StormView {
            rain: drop_views(self.rain@),
            bolts: bolt_views(self.bolts@),
            cooldown: self.cooldown as int,
            strikes: self.strikes as int,
            flash: flash_view(self.flash@),
            revealed: self.revealed@,
            rng: self.rng.0,
            looks: look_texts(self.looks@),
        }
    }

    spec fn ok(&self, sc: StormScene) -> bool {
        let c = sc.canvas;
        let n = sc.chars.len();
        &&& drops_ok(drop_views(self.rain@), c.left, c.right, c.bottom, c.top)
        &&& forall|k: int| 0 <= k < self.bolts@.len() ==> bolt_ok(#[trigger] self.bolts@[k], c)
        &&& -1000 <= self.cooldown <= 18
        &&& 0 <= self.strikes <= 1000
        &&& self.flash@.len() == n
        &&& forall|i: int| 0 <= i < n ==> 0 <= #[trigger] self.flash@[i] <= 10
        &&& self.revealed@.len() == n
        &&& self.looks@.len() == n
    }

    fn rain_phase(&mut self, target: usize, canvas: &Canvas, Ghost(sc): Ghost<StormScene>)
        requires
            old(self).ok(sc),
            same_bounds(sc.canvas, *canvas),
            sc.target == target,
            target <= 96,
            bolt_canvas(*canvas),
            storm_bounds(canvas.left, canvas.right, canvas.bottom, canvas.top),
        ensures
            final(self).ok(sc),
            final(self).cooldown == old(self).cooldown,
            final(self).strikes == old(self).strikes,
            final(self).state() == storm_rain(sc, old(self).state()),
    {
        spawn_rain(&mut self.rain, target, canvas.left, canvas.right, canvas.bottom, canvas.top, &mut self.rng);
        proof {
            assert forall|i: int| 0 <= i < self.rain@.len() implies (#[trigger] self.rain@[i]).row > i32::MIN && self.rain@[i].wait > i32::MIN by {
                assert(drop_views(self.rain@)[i] == drop_view(self.rain@[i]));
                assert(drop_ok(drop_views(self.rain@)[i], canvas.left, canvas.right, canvas.bottom, canvas.top));
            }
        }
        step_rain(&mut self.rain, canvas.bottom, canvas.top, canvas.left, canvas.right, &mut self.rng);
    }

    fn strike_phase(&mut self, canvas: &Canvas, i: i32, storm_len: i32, Ghost(sc): Ghost<StormScene>)
        requires
            old(self).ok(sc),
            same_bounds(sc.canvas, *canvas),
            bolt_canvas(*canvas),
            sc.storm_len == storm_len,
            90 <= storm_len <= 280,
            sc.height == canvas.top - canvas.bottom + 1,
            0 <= i < sc.storm_len,
            old(self).cooldown >= -i,
            old(self).strikes <= i,
        ensures
            final(self).ok(sc),
            final(self).cooldown >= -(i + 1),
            final(self).strikes <= i + 1,
            final(self).state() == storm_strike(sc, old(self).state(), i as int),
    {
        let height = canvas.top - canvas.bottom + 1;
        self.cooldown = self.cooldown - 1;
        let must = self.strikes < 3 && i > storm_len / 8 && i < storm_len - height - 8 && self.cooldown <= 0;
        let pre = self.cooldown <= 0 && i > 6 && i < storm_len - 12;
        let chance = if pre {
            self.rng.next_u32() <= STRIKE_LIMIT
        } else {
            false
        };
        if must || chance {
            proof {
                lemma_bolt_bounds(sc.canvas, *canvas, self.rng.0);
            }
            let b = Bolt::generate(canvas, &mut self.rng);
            let ghost before = self.bolts@;
            self.bolts.push(b);
            self.strikes = self.strikes + 1;
            self.cooldown = self.rng.gen_range(8, 18);
            proof {
                assert(bolt_views(self.bolts@) =~= bolt_views(before).push(bolt_view(b)));
            }
        }
    }
}


/// A bolt that has just aged a frame: as `bolt_ok`, but possibly at its lifetime.
pub open spec fn ticked_ok(b: Bolt, canvas: Canvas) -> bool {
    &&& b.revealed <= b.cells@.len()
    &&& 2 <= b.grow <= 5
    &&& 1 <= b.age <= b.max_age
    &&& b.cells@.len() <= 17 * (canvas.top - canvas.bottom + 1)
    &&& forall|j: int| 0 <= j < b.cells@.len() ==> on_canvas(canvas, #[trigger] b.cells@[j].0)
}

impl Storm {
    fn tick_all(&mut self, Ghost(sc): Ghost<StormScene>)
        requires
            old(self).ok(sc),
            bolt_canvas(sc.canvas),
        ensures
            final(self).rain == old(self).rain,
            final(self).cooldown == old(self).cooldown,
            final(self).strikes == old(self).strikes,
            final(self).flash == old(self).flash,
            final(self).revealed == old(self).revealed,
            final(self).rng == old(self).rng,
            final(self).looks == old(self).looks,
            bolt_views(final(self).bolts@) == bolt_views(old(self).bolts@).map_values(
                |x: (Seq<(Coord, Seq<char>)>, int, int, int, int)| ticked_bolt(x),
            ),
            forall|k: int| 0 <= k < final(self).bolts@.len() ==> ticked_ok(#[trigger] final(self).bolts@[k], sc.canvas),
    {
        let ghost start = self.bolts@;
        let mut rest: Vec<Bolt> = Vec::new();
        std::mem::swap(&mut rest, &mut self.bolts);
        let ghost total = rest@.len();
        while rest.len() > 0
            invariant
                bolt_canvas(sc.canvas),
                total == start.len(),
                self.bolts@.len() + rest@.len() == total,
                rest@ == start.skip(self.bolts@.len() as int),
                forall|k: int| 0 <= k < start.len() ==> bolt_ok(#[trigger] start[k], sc.canvas),
                bolt_views(self.bolts@) == bolt_views(start.take(self.bolts@.len() as int)).map_values(
                    |x: (Seq<(Coord, Seq<char>)>, int, int, int, int)| ticked_bolt(x),
                ),
                forall|k: int| 0 <= k < self.bolts@.len() ==> ticked_ok(#[trigger] self.bolts@[k], sc.canvas),
                self.rain == old(self).rain,
                self.cooldown == old(self).cooldown,
                self.strikes == old(self).strikes,
                self.flash == old(self).flash,
                self.revealed == old(self).revealed,
                self.rng == old(self).rng,
                self.looks == old(self).looks,
            decreases rest.len(),
        {
            let ghost done = self.bolts@.len();
            let mut b = rest.remove(0);
            proof {
                assert(b == start[done as int]);
                assert(bolt_ok(start[done as int], sc.canvas));
                assert(rest@ =~= start.skip(done + 1int));
            }
            let ghost b0 = b;
            b.tick();
            proof {
                assert(bolt_cells(b.cells@).len() == b.cells@.len());
                assert(bolt_view(b) == ticked_bolt(bolt_view(b0)));
                assert(bolt_views(start)[done as int] == bolt_view(b0));
            }
            let ghost before = self.bolts@;
            self.bolts.push(b);
            proof {
                assert(start.take(done + 1int) =~= start.take(done as int).push(start[done as int]));
                assert(bolt_views(self.bolts@) =~= bolt_views(before).push(bolt_view(b)));
                assert(bolt_views(start.take(done + 1int)) =~= bolt_views(start.take(done as int)).push(bolt_view(b0)));
                assert(bolt_views(self.bolts@) =~= bolt_views(start.take(done + 1int)).map_values(
                    |x: (Seq<(Coord, Seq<char>)>, int, int, int, int)| ticked_bolt(x),
                ));
                assert forall|k: int| 0 <= k < self.bolts@.len() implies ticked_ok(#[trigger] self.bolts@[k], sc.canvas) by {
                    if k < done {
                        assert(self.bolts@[k] == before[k]);
                    }
                }
            }
        }
        proof {
            assert(start.take(start.len() as int) =~= start);
        }
    }

    fn keep_live(&mut self, Ghost(sc): Ghost<StormScene>)
        requires
            forall|k: int| 0 <= k < old(self).bolts@.len() ==> ticked_ok(#[trigger] old(self).bolts@[k], sc.canvas),
        ensures
            final(self).rain == old(self).rain,
            final(self).cooldown == old(self).cooldown,
            final(self).strikes == old(self).strikes,
            final(self).flash == old(self).flash,
            final(self).revealed == old(self).revealed,
            final(self).rng == old(self).rng,
            final(self).looks == old(self).looks,
            bolt_views(final(self).bolts@) == kept_bolts(bolt_views(old(self).bolts@), old(self).bolts@.len()),
            forall|k: int| 0 <= k < final(self).bolts@.len() ==> bolt_ok(#[trigger] final(self).bolts@[k], sc.canvas),
    {
        let ghost start = self.bolts@;
        let mut rest: Vec<Bolt> = Vec::new();
        std::mem::swap(&mut rest, &mut self.bolts);
        let ghost mut done: nat = 0;
        while rest.len() > 0
            invariant
                done + rest@.len() == start.len(),
                rest@ == start.skip(done as int),
                forall|k: int| 0 <= k < start.len() ==> ticked_ok(#[trigger] start[k], sc.canvas),
                bolt_views(self.bolts@) == kept_bolts(bolt_views(start), done),
                forall|k: int| 0 <= k < self.bolts@.len() ==> bolt_ok(#[trigger] self.bolts@[k], sc.canvas),
                self.rain == old(self).rain,
                self.cooldown == old(self).cooldown,
                self.strikes == old(self).strikes,
                self.flash == old(self).flash,
                self.revealed == old(self).revealed,
                self.rng == old(self).rng,
                self.looks == old(self).looks,
            decreases rest.len(),
        {
            let b = rest.remove(0);
            proof {
                assert(b == start[done as int]);
                assert(ticked_ok(start[done as int], sc.canvas));
                assert(rest@ =~= start.skip(done + 1int));
                assert(bolt_views(start)[done as int] == bolt_view(b));
            }
            if b.age < b.max_age {
                let ghost before = self.bolts@;
                self.bolts.push(b);
                proof {
                    assert(bolt_views(self.bolts@) =~= bolt_views(before).push(bolt_view(b)));
                    assert forall|k: int| 0 <= k < self.bolts@.len() implies bolt_ok(#[trigger] self.bolts@[k], sc.canvas) by {
                        if k < before.len() {
                            assert(self.bolts@[k] == before[k]);
                        }
                    }
                }
            }
            proof {
                done = done + 1;
            }
        }
    }

    fn touch(&mut self, chars: &[PlacedCharacter], Ghost(sc): Ghost<StormScene>)
        requires
            bolt_canvas(sc.canvas),
            forall|k: int| 0 <= k < old(self).bolts@.len() ==> ticked_ok(#[trigger] old(self).bolts@[k], sc.canvas),
            old(self).revealed@.len() == chars@.len(),
            old(self).flash@.len() == chars@.len(),
            forall|i: int| 0 <= i < chars@.len() ==> 0 <= #[trigger] old(self).flash@[i] <= 10,
        ensures
            final(self).rain == old(self).rain,
            final(self).bolts == old(self).bolts,
            final(self).cooldown == old(self).cooldown,
            final(self).strikes == old(self).strikes,
            final(self).rng == old(self).rng,
            final(self).looks == old(self).looks,
            final(self).revealed@ == Seq::new(
                chars@.len(),
                |c: int|
                    old(self).revealed@[c] || (!blank(chars@[c].symbol@) && (rain_at(drop_views(old(self).rain@), chars@[c].coord)
                        || hit(bolt_views(old(self).bolts@), chars@[c].coord))),
            ),
            flash_view(final(self).flash@) == Seq::new(
                chars@.len(),
                |c: int|
                    if !blank(chars@[c].symbol@) && hit(bolt_views(old(self).bolts@), chars@[c].coord) {
                        10int
                    } else {
                        flash_view(old(self).flash@)[c]
                    },
            ),
            final(self).flash@.len() == chars@.len(),
            forall|i: int| 0 <= i < chars@.len() ==> 0 <= #[trigger] final(self).flash@[i] <= 10,
    {
        let ghost tb = bolt_views(self.bolts@);
        let ghost rain = drop_views(self.rain@);
        let n = chars.len();
        let mut c: usize = 0;
        while c < n
            invariant
                n == chars@.len(),
                bolt_canvas(sc.canvas),
                forall|k: int| 0 <= k < self.bolts@.len() ==> ticked_ok(#[trigger] self.bolts@[k], sc.canvas),
                tb == bolt_views(self.bolts@),
                rain == drop_views(self.rain@),
                self.rain == old(self).rain,
                self.bolts == old(self).bolts,
                self.cooldown == old(self).cooldown,
                self.strikes == old(self).strikes,
                self.rng == old(self).rng,
                self.looks == old(self).looks,
                c <= n,
                self.revealed@.len() == n,
                self.flash@.len() == n,
                forall|j: int| c <= j < n ==> #[trigger] self.revealed@[j] == old(self).revealed@[j],
                forall|j: int| c <= j < n ==> #[trigger] self.flash@[j] == old(self).flash@[j],
                forall|j: int|
                    0 <= j < c ==> #[trigger] self.revealed@[j] == (old(self).revealed@[j] || (!blank(chars@[j].symbol@) && (rain_at(
                        rain,
                        chars@[j].coord,
                    ) || hit(tb, chars@[j].coord)))),
                forall|j: int|
                    0 <= j < c ==> #[trigger] self.flash@[j] as int == (if !blank(chars@[j].symbol@) && hit(tb, chars@[j].coord) {
                        10int
                    } else {
                        old(self).flash@[j] as int
                    }),
                forall|i: int| 0 <= i < n ==> 0 <= #[trigger] self.flash@[i] <= 10,
            decreases n - c,
        {
            let at = chars[c].coord;
            if !is_blank(chars[c].symbol.as_str()) {
                let h = hit_at(&self.bolts, at, Ghost(sc.canvas));
                let r = rain_on(&self.rain, at);
                if h || r {
                    self.revealed.set(c, true);
                }
                if h {
                    self.flash.set(c, 10);
                }
            }
            c = c + 1;
        }
        proof {
            assert(self.revealed@ =~= Seq::new(
                chars@.len(),
                |c: int|
                    old(self).revealed@[c] || (!blank(chars@[c].symbol@) && (rain_at(rain, chars@[c].coord) || hit(tb, chars@[c].coord))),
            ));
            assert(flash_view(self.flash@) =~= Seq::new(
                chars@.len(),
                |c: int| if !blank(chars@[c].symbol@) && hit(tb, chars@[c].coord) { 10int } else { flash_view(old(self).flash@)[c] },
            ));
        }
    }
}

proof fn lemma_hidden_list(chars: Seq<PlacedCharacter>, rev: Seq<bool>, m: nat)
    ensures
        hidden_list(chars, rev, m).len() <= m,
        forall|j: int| 0 <= j < hidden_list(chars, rev, m).len() ==> 0 <= #[trigger] hidden_list(chars, rev, m)[j] < m,
    decreases m,
{
    if m > 0 {
        lemma_hidden_list(chars, rev, (m - 1) as nat);
    }
}

impl Storm {
    fn spread_collect(&mut self, chars: &[PlacedCharacter]) -> (targets: Vec<u32>)
        requires
            old(self).flash@.len() == chars@.len(),
        ensures
            final(self).rain == old(self).rain,
            final(self).bolts == old(self).bolts,
            final(self).cooldown == old(self).cooldown,
            final(self).strikes == old(self).strikes,
            final(self).flash == old(self).flash,
            final(self).revealed == old(self).revealed,
            final(self).looks == old(self).looks,
            (targets@, final(self).rng.0) == spread_draws(chars@, flash_view(old(self).flash@), old(self).rng.0, chars@.len()),
    {
        let mut targets: Vec<u32> = Vec::new();
        let n = chars.len();
        let mut c: usize = 0;
        while c < n
            invariant
                n == chars@.len(),
                self.flash@.len() == n,
                c <= n,
                self.rain == old(self).rain,
                self.bolts == old(self).bolts,
                self.cooldown == old(self).cooldown,
                self.strikes == old(self).strikes,
                self.flash == old(self).flash,
                self.revealed == old(self).revealed,
                self.looks == old(self).looks,
                (targets@, self.rng.0) == spread_draws(chars@, flash_view(old(self).flash@), old(self).rng.0, c as nat),
            decreases n - c,
        {
            if self.flash[c] > 5 {
                let nb = chars[c].neighbors;
                if self.rng.next_u32() <= SIDE_LIMIT {
                    match nb.left {
                        Some(x) => targets.push(x.0),
                        None => {},
                    }
                }
                if self.rng.next_u32() <= SIDE_LIMIT {
                    match nb.right {
                        Some(x) => targets.push(x.0),
                        None => {},
                    }
                }
                if self.rng.next_u32() <= UPRIGHT_LIMIT {
                    match nb.above {
                        Some(x) => targets.push(x.0),
                        None => {},
                    }
                }
                if self.rng.next_u32() <= UPRIGHT_LIMIT {
                    match nb.below {
                        Some(x) => targets.push(x.0),
                        None => {},
                    }
                }
            }
            c = c + 1;
        }
        targets
    }

    fn spread_apply(&mut self, targets: &Vec<u32>)
        requires
            old(self).flash@.len() == old(self).revealed@.len(),
            forall|i: int| 0 <= i < old(self).flash@.len() ==> 0 <= #[trigger] old(self).flash@[i] <= 10,
        ensures
            final(self).rain == old(self).rain,
            final(self).bolts == old(self).bolts,
            final(self).cooldown == old(self).cooldown,
            final(self).strikes == old(self).strikes,
            final(self).rng == old(self).rng,
            final(self).looks == old(self).looks,
            final(self).flash@.len() == old(self).flash@.len(),
            final(self).revealed@.len() == old(self).revealed@.len(),
            forall|i: int| 0 <= i < final(self).flash@.len() ==> 0 <= #[trigger] final(self).flash@[i] <= 10,
            (final(self).revealed@, flash_view(final(self).flash@)) == spread_applied(
                old(self).revealed@,
                flash_view(old(self).flash@),
                targets@,
                targets@.len(),
            ),
    {
        let n = self.revealed.len();
        let mut k: usize = 0;
        while k < targets.len()
            invariant
                n == self.revealed@.len(),
                n == self.flash@.len(),
                k <= targets@.len(),
                forall|i: int| 0 <= i < n ==> 0 <= #[trigger] self.flash@[i] <= 10,
                self.rain == old(self).rain,
                self.bolts == old(self).bolts,
                self.cooldown == old(self).cooldown,
                self.strikes == old(self).strikes,
                self.rng == old(self).rng,
                self.looks == old(self).looks,
                (self.revealed@, flash_view(self.flash@)) == spread_applied(old(self).revealed@, flash_view(old(self).flash@), targets@, k as nat),
            decreases targets.len() - k,
        {
            let t = targets[k] as usize;
            if t < n {
                self.revealed.set(t, true);
                let f = self.flash[t];
                let ghost before = self.flash@;
                if f < 8 {
                    self.flash.set(t, 8);
                }
                proof {
                    assert(flash_view(self.flash@) =~= flash_view(before).update(t as int, if f < 8 { 8int } else { f as int }));
                }
            }
            k = k + 1;
        }
    }

    fn reveal_one(&mut self, chars: &[PlacedCharacter], i: i32)
        requires
            old(self).revealed@.len() == chars@.len(),
            chars@.len() < 0x10_0000,
            0 <= i,
        ensures
            final(self).rain == old(self).rain,
            final(self).bolts == old(self).bolts,
            final(self).cooldown == old(self).cooldown,
            final(self).strikes == old(self).strikes,
            final(self).flash == old(self).flash,
            final(self).looks == old(self).looks,
            final(self).revealed@.len() == old(self).revealed@.len(),
            (final(self).revealed@, final(self).rng.0) == reveal_pick(chars@, old(self).revealed@, old(self).rng.0, i as int),
    {
        let n = chars.len();
        let ghost hl = hidden_list(chars@, self.revealed@, n as nat);
        proof {
            lemma_hidden_list(chars@, self.revealed@, n as nat);
        }
        if i % 3 != 0 {
            return;
        }
        let mut hidden: Vec<usize> = Vec::new();
        let mut c: usize = 0;
        while c < n
            invariant
                n == chars@.len(),
                self.revealed@.len() == n,
                self.revealed == old(self).revealed,
                c <= n,
                hidden@.len() <= c,
                hidden@.map_values(|x: usize| x as int) == hidden_list(chars@, self.revealed@, c as nat),
            decreases n - c,
        {
            if !self.revealed[c] && !is_blank(chars[c].symbol.as_str()) {
                let ghost before = hidden@;
                hidden.push(c);
                proof {
                    assert(hidden@.map_values(|x: usize| x as int) =~= before.map_values(|x: usize| x as int).push(c as int));
                }
            }
            c = c + 1;
        }
        if hidden.len() > 0 {
            let k = self.rng.gen_range(0, hidden.len() as i32);
            proof {
                assert(hidden@.map_values(|x: usize| x as int)[k as int] == hidden@[k as int] as int);
                assert(hl[k as int] < n);
            }
            self.revealed.set(hidden[k as usize], true);
        }
    }

    fn style(&mut self, chars: &[PlacedCharacter], glow: &[Vec<Color>], settled: &[Color], Ghost(sc): Ghost<StormScene>)
        requires
            sc.chars == chars@,
            sc.glow == glow_view(glow@),
            sc.settled == settled@,
            glow@.len() == chars@.len(),
            settled@.len() == chars@.len(),
            forall|c: int| 0 <= c < chars@.len() ==> (#[trigger] glow@[c])@.len() >= 11,
            old(self).revealed@.len() == chars@.len(),
            old(self).flash@.len() == chars@.len(),
            old(self).looks@.len() == chars@.len(),
            forall|i: int| 0 <= i < chars@.len() ==> 0 <= #[trigger] old(self).flash@[i] <= 10,
        ensures
            final(self).rain == old(self).rain,
            final(self).bolts == old(self).bolts,
            final(self).cooldown == old(self).cooldown,
            final(self).strikes == old(self).strikes,
            final(self).revealed == old(self).revealed,
            final(self).rng == old(self).rng,
            final(self).flash@.len() == chars@.len(),
            final(self).looks@.len() == chars@.len(),
            forall|i: int| 0 <= i < chars@.len() ==> 0 <= #[trigger] final(self).flash@[i] <= 10,
            flash_view(final(self).flash@) == Seq::new(
                chars@.len(),
                |c: int| styled_flash(chars@[c], old(self).revealed@[c], flash_view(old(self).flash@)[c]),
            ),
            look_texts(final(self).looks@) == Seq::new(
                chars@.len(),
                |c: int| styled_look(sc, c, old(self).revealed@[c], flash_view(old(self).flash@)[c]),
            ),
    {
        let n = chars.len();
        let mut c: usize = 0;
        while c < n
            invariant
                n == chars@.len(),
                sc.chars == chars@,
                sc.glow == glow_view(glow@),
                sc.settled == settled@,
                glow@.len() == n,
                settled@.len() == n,
                forall|c: int| 0 <= c < n ==> (#[trigger] glow@[c])@.len() >= 11,
                self.revealed == old(self).revealed,
                self.rain == old(self).rain,
                self.bolts == old(self).bolts,
                self.cooldown == old(self).cooldown,
                self.strikes == old(self).strikes,
                self.rng == old(self).rng,
                self.revealed@.len() == n,
                self.flash@.len() == n,
                self.looks@.len() == n,
                c <= n,
                forall|i: int| 0 <= i < n ==> 0 <= #[trigger] self.flash@[i] <= 10,
                forall|j: int| c <= j < n ==> #[trigger] self.flash@[j] == old(self).flash@[j],
                forall|j: int|
                    0 <= j < c ==> #[trigger] self.flash@[j] as int == styled_flash(
                        chars@[j],
                        old(self).revealed@[j],
                        old(self).flash@[j] as int,
                    ),
                forall|j: int|
                    0 <= j < c ==> #[trigger] look_texts(self.looks@)[j] == styled_look(
                        sc,
                        j,
                        old(self).revealed@[j],
                        old(self).flash@[j] as int,
                    ),
            decreases n - c,
        {
            let p = &chars[c];
            let b = is_blank(p.symbol.as_str());
            let rev = self.revealed[c];
            let fl = self.flash[c];
            let ghost before = self.looks@;
            proof {
                assert(fl == old(self).flash@[c as int]);
                assert(rev == old(self).revealed@[c as int]);
                assert(*p == sc.chars[c as int]);
            }
            if b || !rev {
                self.looks.set(c, None);
                if b && fl > 0 {
                    self.flash.set(c, fl - 1);
                }
            } else if fl > 0 {
                let v = char_visual(glow[c][fl as usize], p.symbol.as_str(), fl - 1 > 2);
                proof {
                    assert(sc.glow[c as int] == glow@[c as int]@);
                    assert(glow@[c as int]@[fl as int] == sc.glow[c as int][fl as int]);
                }
                self.looks.set(c, Some(v));
                self.flash.set(c, fl - 1);
            } else {
                let v = char_visual(settled[c], p.symbol.as_str(), false);
                self.looks.set(c, Some(v));
            }
            proof {
                assert(look_texts(self.looks@)[c as int] == styled_look(sc, c as int, old(self).revealed@[c as int], old(self).flash@[c as int] as int));
                assert forall|j: int| 0 <= j < c + 1 implies #[trigger] look_texts(self.looks@)[j] == styled_look(
                    sc,
                    j,
                    old(self).revealed@[j],
                    old(self).flash@[j] as int,
                ) by {
                    if j < c {
                        assert(self.looks@[j] == before[j]);
                        assert(look_texts(self.looks@)[j] == look_texts(before)[j]);
                    }
                }
            }
            c = c + 1;
        }
        proof {
            assert(flash_view(self.flash@) =~= Seq::new(
                chars@.len(),
                |c: int| styled_flash(chars@[c], old(self).revealed@[c], flash_view(old(self).flash@)[c]),
            ));
            assert(look_texts(self.looks@) =~= Seq::new(
                chars@.len(),
                |c: int| styled_look(sc, c, old(self).revealed@[c], flash_view(old(self).flash@)[c]),
            ));
        }
    }
}

/// Two canvases with the same edges.
pub open spec fn same_bounds(a: Canvas, b: Canvas) -> bool {
    a.left == b.left && a.right == b.right && a.top == b.top && a.bottom == b.bottom
}

proof fn lemma_trunk_bounds(a: Canvas, b: Canvas, state: u32, column: i32, row: int)
    requires
        same_bounds(a, b),
    ensures
        trunk_from(a, state, column, row) == trunk_from(b, state, column, row),
    decreases row - a.bottom + 1,
{
    if row >= a.bottom {
        let (cell, fork, col, s1) = trunk_step(a, state, column, row as i32);
        assert(trunk_step(a, state, column, row as i32) == trunk_step(b, state, column, row as i32));
        lemma_trunk_bounds(a, b, s1, col, row - 1);
    }
}

proof fn lemma_branch_bounds(a: Canvas, b: Canvas, state: u32, column: i32, row: int, dir: i32, left: int)
    requires
        same_bounds(a, b),
    ensures
        branch_from(a, state, column, row, dir, left) == branch_from(b, state, column, row, dir, left),
    decreases left,
{
    if left > 0 && row >= a.bottom {
        let col = clamp_col(column + dir, a.left, a.right);
        let (x, s1) = storm_draw(state, 0, 3);
        lemma_branch_bounds(a, b, s1, col, row - 2, dir, left - 1);
        lemma_branch_bounds(a, b, s1, col, row - 1, dir, left - 1);
    }
}

proof fn lemma_branches_bounds(a: Canvas, b: Canvas, forks: Seq<(i32, i32, i32)>, i: int, state: u32)
    requires
        same_bounds(a, b),
    ensures
        branches_from(a, forks, i, state) == branches_from(b, forks, i, state),
    decreases forks.len() - i,
{
    if 0 <= i < forks.len() {
        let f = forks[i];
        let (depth, s1) = storm_draw(state, 3, 9);
        lemma_branch_bounds(a, b, s1, f.0, f.1 - 1, f.2, depth as int);
        let branch = branch_from(a, s1, f.0, f.1 - 1, f.2, depth as int);
        lemma_branches_bounds(a, b, forks, i + 1, branch.1);
    }
}

proof fn lemma_bolt_bounds(a: Canvas, b: Canvas, state: u32)
    requires
        same_bounds(a, b),
    ensures
        bolt_drawn(a, state) == bolt_drawn(b, state),
{
    let (col0, s1) = storm_draw(state, a.left, (a.right + 1) as i32);
    lemma_trunk_bounds(a, b, s1, col0, a.top as int);
    let trunk = trunk_from(a, s1, col0, a.top as int);
    lemma_branches_bounds(a, b, trunk.1, 0, trunk.2);
}

fn occupied_at(chars: &[PlacedCharacter], looks: &Vec<Option<CharacterVisual>>, at: Coord) -> (b: bool)
    requires
        looks@.len() == chars@.len(),
    ensures
        b == occupied(chars@, look_texts(looks@), at),
{
    let mut c: usize = 0;
    while c < chars.len()
        invariant
            looks@.len() == chars@.len(),
            c <= chars@.len(),
            forall|j: int| 0 <= j < c ==> !((#[trigger] look_texts(looks@)[j]) is Some && chars@[j].coord == at),
        decreases chars@.len() - c,
    {
        let shown = match &looks[c] {
            Some(_) => true,
            None => false,
        };
        if shown && chars[c].coord == at {
            proof {
                assert(look_texts(looks@)[c as int] is Some);
            }
            return true;
        }
        c = c + 1;
    }
    false
}

impl Storm {
    fn chars_phase(
        &mut self,
        chars: &[PlacedCharacter],
        glow: &[Vec<Color>],
        settled: &[Color],
        i: i32,
        Ghost(sc): Ghost<StormScene>,
        Ghost(bolt_colors): Ghost<Seq<Color>>,
    )
        requires
            old(self).ok(sc),
            storm_fits(sc, chars@, glow@, settled@, bolt_colors),
            0 <= i,
        ensures
            final(self).ok(sc),
            final(self).cooldown == old(self).cooldown,
            final(self).strikes == old(self).strikes,
            final(self).state() == storm_chars(sc, old(self).state(), i as int),
    {
        let ghost b = self.state();
        self.tick_all(Ghost(sc));
        let ghost tb = bolt_views(self.bolts@);
        self.touch(chars, Ghost(sc));
        self.keep_live(Ghost(sc));
        let ghost rev1 = self.revealed@;
        let ghost fl1 = flash_view(self.flash@);
        let targets = self.spread_collect(chars);
        self.spread_apply(&targets);
        let ghost rev2 = self.revealed@;
        let ghost fl2 = flash_view(self.flash@);
        let ghost s1 = self.rng.0;
        self.reveal_one(chars, i);
        let ghost rev3 = self.revealed@;
        self.style(chars, glow, settled, Ghost(sc));
        proof {
            assert(tb == b.bolts.map_values(|x: (Seq<(Coord, Seq<char>)>, int, int, int, int)| ticked_bolt(x)));
            assert(b.rain == drop_views(self.rain@));
            let n = sc.chars.len();
            assert(rev1 == Seq::new(
                n,
                |c: int|
                    b.revealed[c] || (!blank(sc.chars[c].symbol@) && (rain_at(b.rain, sc.chars[c].coord) || hit(tb, sc.chars[c].coord))),
            ));
            assert(fl1 == Seq::new(n, |c: int| if !blank(sc.chars[c].symbol@) && hit(tb, sc.chars[c].coord) { 10int } else { b.flash[c] }));
            assert(self.state() == storm_chars(sc, b, i as int));
        }
    }

    fn draw_storm(&self, canvas: &mut Canvas, chars: &[PlacedCharacter], bolt_colors: &[Color], Ghost(sc): Ghost<StormScene>) -> (f: String)
        requires
            old(canvas).wf(),
            old(canvas).width < 0x4000_0000,
            old(canvas).height < 0x4000_0000,
            self.ok(sc),
            sc.chars == chars@,
            sc.bolt_colors == bolt_colors@,
            1 <= bolt_colors@.len() < 0x1_0000,
        ensures
            final(canvas).wf(),
            final(canvas).width == old(canvas).width,
            final(canvas).height == old(canvas).height,
            f@ == picture(old(canvas).width as nat, old(canvas).height as nat, storm_sprites(sc, self.state())),
    {
        let n = chars.len();
        let ghost looks = look_texts(self.looks@);
        let mut sprites: Vec<(Coord, CharacterVisual)> = Vec::new();
        let mut c: usize = 0;
        while c < n
            invariant
                n == chars@.len(),
                self.looks@.len() == n,
                looks == look_texts(self.looks@),
                c <= n,
                sprite_texts(sprites@) == look_sprites(chars@, looks, c as nat),
            decreases n - c,
        {
            match &self.looks[c] {
                Some(v) => {
                    let ghost before = sprites@;
                    sprites.push((chars[c].coord, v.clone()));
                    proof {
                        assert(sprite_texts(sprites@) =~= sprite_texts(before).push((chars@[c as int].coord, formatted(*v))));
                    }
                },
                None => {},
            }
            c = c + 1;
        }
        let ghost base = sprite_texts(sprites@);
        let ghost rain = drop_views(self.rain@);
        let mut k: usize = 0;
        while k < self.rain.len()
            invariant
                n == chars@.len(),
                self.looks@.len() == n,
                looks == look_texts(self.looks@),
                rain == drop_views(self.rain@),
                k <= self.rain@.len(),
                sprite_texts(sprites@) == base + rain_sprites(chars@, looks, rain, k as nat),
            decreases self.rain@.len() - k,
        {
            let d = self.rain[k];
            let at = Coord { column: d.column, row: d.row };
            proof {
                assert(rain[k as int] == drop_view(d));
            }
            if !occupied_at(chars, &self.looks, at) {
                let text = painted(Color::rgb(79, 143, 186), d.symbol);
                let v = text_visual(&text);
                let ghost before = sprites@;
                sprites.push((at, v));
                proof {
                    assert(sprite_texts(sprites@) =~= sprite_texts(before).push((at, formatted(v))));
                }
            }
            k = k + 1;
        }
        let ghost mid = sprite_texts(sprites@);
        let ghost bolts = bolt_views(self.bolts@);
        let last = bolt_colors.len() - 1;
        let mut k: usize = 0;
        while k < self.bolts.len()
            invariant
                self.ok(sc),
                bolts == bolt_views(self.bolts@),
                sc.bolt_colors == bolt_colors@,
                1 <= bolt_colors@.len() < 0x1_0000,
                last == bolt_colors@.len() - 1,
                k <= self.bolts@.len(),
                sprite_texts(sprites@) == mid + bolt_sprites(bolts, bolt_colors@, k as nat),
            decreases self.bolts@.len() - k,
        {
            let b = &self.bolts[k];
            proof {
                assert(bolt_ok(self.bolts@[k as int], sc.canvas));
                assert(bolts[k as int] == bolt_view(*b));
            }
            let idx = shade_index(b.age, b.max_age, last);
            let color = bolt_colors[idx];
            let ghost start = sprites@;
            let mut j: usize = 0;
            while j < b.revealed
                invariant
                    *b == self.bolts@[k as int],
                    b.revealed <= b.cells@.len(),
                    bolts[k as int] == bolt_view(*b),
                    j <= b.revealed,
                    sprite_texts(sprites@) == sprite_texts(start) + Seq::new(
                        j as nat,
                        |q: int| (bolts[k as int].0[q].0, paint_text(color, bolts[k as int].0[q].1)),
                    ),
                decreases b.revealed - j,
            {
                let cell = b.cells[j];
                let text = painted(color, cell.1);
                let v = text_visual(&text);
                let ghost before = sprites@;
                sprites.push((cell.0, v));
                proof {
                    assert(bolts[k as int].0[j as int] == (cell.0, cell.1@));
                    assert(sprite_texts(sprites@) =~= sprite_texts(before).push((cell.0, formatted(v))));
                    assert(Seq::new((j + 1) as nat, |q: int| (bolts[k as int].0[q].0, paint_text(color, bolts[k as int].0[q].1)))
                        =~= Seq::new(j as nat, |q: int| (bolts[k as int].0[q].0, paint_text(color, bolts[k as int].0[q].1))).push(
                        (cell.0, paint_text(color, cell.1@)),
                    ));
                }
                j = j + 1;
            }
            proof {
                assert(color == bolt_colors@[shade(bolts[k as int].2, bolts[k as int].3, bolt_colors@.len() - 1)]);
                assert(sprite_texts(sprites@) =~= mid + bolt_sprites(bolts, bolt_colors@, (k + 1) as nat));
            }
            k = k + 1;
        }
        proof {
            assert(sprite_texts(sprites@) =~= storm_sprites(sc, self.state()));
        }
        draw_frame(canvas, sprites.as_slice())
    }
}

impl Thunderstorm {
    /// The frames of the storm over the characters laid out on `canvas`, the generator
    /// starting at `seed` (`StormRng::from_input` of the input): for each of the
    /// `storm_len` frames of `storm_scene`, the picture of `storm_after` that many frames
    /// (`storm_sprites`); then eighteen frames of the settled text (`settled_storm`).
    /// Character `c` glows in `glow[c][f]` at flash level `f` and settles in `settled[c]`;
    /// a bolt of age `a` out of `m` shows in `bolt_colors[shade(a, m, last)]`.
    pub fn frames(
        &self,
        canvas: &mut Canvas,
        chars: &[PlacedCharacter],
        seed: u32,
        glow: &[Vec<Color>],
        settled: &[Color],
        bolt_colors: &[Color],
    ) -> (frames: Vec<String>)
        requires
            old(canvas).wf(),
            1 <= old(canvas).width < 0x10_0000,
            1 <= old(canvas).height < 0x10_0000,
            chars@.len() < 0x10_0000,
            glow@.len() == chars@.len(),
            settled@.len() == chars@.len(),
            1 <= bolt_colors@.len() < 0x1_0000,
            forall|c: int| 0 <= c < chars@.len() ==> (#[trigger] glow@[c])@.len() >= 11,
            forall|c: int| 0 <= c < chars@.len() ==> (#[trigger] chars@[c]).id.0 == c,
        ensures
            final(canvas).wf(),
            final(canvas).width == old(canvas).width,
            final(canvas).height == old(canvas).height,
            ({
                let w = old(canvas).width as nat;
                let h = old(canvas).height as nat;
                let sc = storm_scene(chars@, glow_view(glow@), settled@, bolt_colors@, *old(canvas));
                let start = storm_start(sc, seed);
                &&& frames@.len() == sc.storm_len + 18
                &&& forall|k: int| 0 <= k < sc.storm_len ==> #[trigger] frames@[k]@ == picture(
                    w,
                    h,
                    storm_sprites(sc, storm_after(sc, start, (k + 1) as nat)),
                )
                &&& forall|k: int| sc.storm_len <= k < sc.storm_len + 18 ==> #[trigger] frames@[k]@ == picture(
                    w,
                    h,
                    look_sprites(chars@, settled_storm(sc), chars@.len()),
                )
            }),
    {
        let ghost w = canvas.width as nat;
        let ghost h = canvas.height as nat;
        let ghost sc = storm_scene(chars@, glow_view(glow@), settled@, bolt_colors@, *canvas);
        let ghost start = storm_start(sc, seed);
        let ghost first = *canvas;
        let (left, right, bottom, top) = (canvas.left, canvas.right, canvas.bottom, canvas.top);
        let width: i32 = right - left + 1;
        let height: i32 = top - bottom + 1;
        proof {
            assert((width as int) * (height as int) < 0x10_0000 * 0x10_0000) by (nonlinear_arith)
                requires
                    1 <= width < 0x10_0000,
                    1 <= height < 0x10_0000,
            ;
            assert((width as int) * (height as int) >= 1) by (nonlinear_arith)
                requires
                    1 <= width,
                    1 <= height,
            ;
        }
        let t: i64 = (width as i64) * (height as i64) / 18;
        let target: usize = if t < 8 {
            8
        } else if t > 96 {
            96
        } else {
            t as usize
        };
        let l: i32 = height * 8 + 100;
        let storm_len: i32 = if l < 90 {
            90
        } else if l > 280 {
            280
        } else {
            l
        };
        proof {
            assert(sc.target == target);
            assert(sc.storm_len == storm_len);
            assert(storm_fits(sc, chars@, glow@, settled@, bolt_colors@));
        }
        let mut rng = StormRng(seed);
        let mut rain: Vec<RainDrop> = Vec::new();
        let mut k: usize = 0;
        while k < target / 2
            invariant
                storm_bounds(left, right, bottom, top),
                k <= target / 2,
                drop_views(rain@) == spawn_list(seed, k as nat, left, right, bottom, top).0,
                rng.0 == spawn_list(seed, k as nat, left, right, bottom, top).1,
                drops_ok(drop_views(rain@), left, right, bottom, top),
            decreases target / 2 - k,
        {
            let d = RainDrop::spawn(left, right, bottom, top, &mut rng);
            let ghost before = rain@;
            rain.push(d);
            proof {
                assert(drop_views(rain@) =~= drop_views(before).push(drop_view(d)));
            }
            k = k + 1;
        }
        let cooldown = rng.gen_range(4, 12);
        let n = chars.len();
        let mut flash: Vec<i32> = Vec::new();
        let mut revealed: Vec<bool> = Vec::new();
        let mut looks: Vec<Option<CharacterVisual>> = Vec::new();
        let mut c: usize = 0;
        while c < n
            invariant
                c <= n,
                flash@ == Seq::new(c as nat, |i: int| 0i32),
                revealed@ == Seq::new(c as nat, |i: int| false),
                looks@.len() == c,
                forall|i: int| 0 <= i < c ==> #[trigger] looks@[i] is None,
            decreases n - c,
        {
            flash.push(0);
            revealed.push(false);
            looks.push(None);
            proof {
                assert(flash@ =~= Seq::new((c + 1) as nat, |i: int| 0i32));
                assert(revealed@ =~= Seq::new((c + 1) as nat, |i: int| false));
            }
            c = c + 1;
        }
        let mut storm = Storm { rain, bolts: Vec::new(), cooldown, strikes: 0, flash, revealed, rng, looks };
        proof {
            assert(bolt_views(storm.bolts@) =~= Seq::empty());
            assert(flash_view(storm.flash@) =~= Seq::new(n as nat, |i: int| 0int));
            assert(look_texts(storm.looks@) =~= Seq::new(n as nat, |i: int| None));
            assert(storm.state() == start);
        }
        let mut frames: Vec<String> = Vec::new();
        let mut i: i32 = 0;
        while i < storm_len
            invariant
                canvas.wf(),
                canvas.width == w,
                canvas.height == h,
                1 <= canvas.width < 0x10_0000,
                1 <= canvas.height < 0x10_0000,
                same_bounds(sc.canvas, *canvas),
                sc == storm_scene(chars@, glow_view(glow@), settled@, bolt_colors@, first),
                sc.canvas == first,
                storm_fits(sc, chars@, glow@, settled@, bolt_colors@),
                start == storm_start(sc, seed),
                sc.target == target,
                sc.storm_len == storm_len,
                90 <= storm_len <= 280,
                0 <= i <= storm_len,
                storm.ok(sc),
                storm.cooldown >= -i,
                storm.strikes <= i,
                storm.state() == storm_after(sc, start, i as nat),
                frames@.len() == i,
                forall|q: int| 0 <= q < i ==> #[trigger] frames@[q]@ == picture(
                    w,
                    h,
                    storm_sprites(sc, storm_after(sc, start, (q + 1) as nat)),
                ),
            decreases storm_len - i,
        {
            storm.rain_phase(target, canvas, Ghost(sc));
            storm.strike_phase(canvas, i, storm_len, Ghost(sc));
            storm.chars_phase(chars, glow, settled, i, Ghost(sc), Ghost(bolt_colors@));
            proof {
                assert(storm_after(sc, start, (i + 1) as nat) == storm_step(sc, storm_after(sc, start, i as nat), i as int));
            }
            let fr = storm.draw_storm(canvas, chars, bolt_colors, Ghost(sc));
            let ghost earlier = frames@;
            frames.push(fr);
            proof {
                assert forall|q: int| 0 <= q < i + 1 implies #[trigger] frames@[q]@ == picture(
                    w,
                    h,
                    storm_sprites(sc, storm_after(sc, start, (q + 1) as nat)),
                ) by {
                    if q < i {
                        assert(frames@[q] == earlier[q]);
                    }
                }
            }
            i = i + 1;
        }
        let mut sprites: Vec<(Coord, CharacterVisual)> = Vec::new();
        let ghost calm = settled_storm(sc);
        let mut c: usize = 0;
        while c < n
            invariant
                n == chars@.len(),
                settled@.len() == n,
                sc.chars == chars@,
                sc.settled == settled@,
                calm == settled_storm(sc),
                c <= n,
                sprite_texts(sprites@) == look_sprites(chars@, calm, c as nat),
            decreases n - c,
        {
            if !is_blank(chars[c].symbol.as_str()) {
                let v = char_visual(settled[c], chars[c].symbol.as_str(), false);
                let ghost before = sprites@;
                sprites.push((chars[c].coord, v));
                proof {
                    assert(sprite_texts(sprites@) =~= sprite_texts(before).push((chars@[c as int].coord, formatted(v))));
                }
            }
            c = c + 1;
        }
        let held = draw_frame(canvas, sprites.as_slice());
        let mut j: usize = 0;
        while j < 18
            invariant
                j <= 18,
                frames@.len() == storm_len + j,
                storm_len == sc.storm_len,
                90 <= storm_len <= 280,
                held@ == picture(w, h, look_sprites(chars@, settled_storm(sc), chars@.len())),
                forall|q: int| 0 <= q < storm_len ==> #[trigger] frames@[q]@ == picture(
                    w,
                    h,
                    storm_sprites(sc, storm_after(sc, start, (q + 1) as nat)),
                ),
                forall|q: int| storm_len <= q < storm_len + j ==> #[trigger] frames@[q]@ == held@,
            decreases 18 - j,
        {
            let ghost earlier = frames@;
            frames.push(held.clone());
            proof {
                assert forall|q: int| 0 <= q < storm_len implies #[trigger] frames@[q]@ == picture(
                    w,
                    h,
                    storm_sprites(sc, storm_after(sc, start, (q + 1) as nat)),
                ) by {
                    assert(frames@[q] == earlier[q]);
                }
                assert forall|q: int| storm_len <= q < storm_len + j + 1 implies #[trigger] frames@[q]@ == held@ by {
                    if q < storm_len + j {
                        assert(frames@[q] == earlier[q]);
                    }
                }
            }
            j = j + 1;
        }
        frames
    }
}

} // verus!
