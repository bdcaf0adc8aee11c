//! Matrix: columns of falling glyphs rain over the canvas and resolve into
//! the text.
use vstd::prelude::*;

use crate::canvas::{picture, sprite_texts, Canvas};
use crate::geometry::Coord;
use crate::sorting::lemma_key_order_total;
use crate::terminal::draw_frame;
use crate::animation::{attribute_codes, color_codes, fg_text, formatted, lemma_fg_text, sgr_reset, CharacterVisual};
use crate::graphics::{Color, ColorPair};
use crate::sorting::{key_order, sorted_keys, SortKey};
use crate::terminal::PlacedCharacter;
use crate::text::char_string;

verus! {

/// The matrix effect.
#[derive(Clone, Copy, Debug, PartialEq, Eq, Structural)]
pub struct Matrix;

impl Matrix {
    pub fn new() -> (e: Self)
        ensures
            e == Matrix,
    {
        Matrix
    }

    pub fn name(&self) -> (n: &'static str)
        ensures
            n@ == "matrix"@,
    {
        "matrix"
    }
}

impl Default for Matrix {
    fn default() -> (e: Self)
        ensures
            e == Matrix,
    {
        Matrix::new()
    }
}

/// One step of the effect's 32-bit linear congruential generator.
pub open spec fn lcg32(x: u32) -> u32 {
    x.wrapping_mul(1664525u32).wrapping_add(1013904223u32)
}

/// The effect's 32-bit linear congruential generator; its state is never zero when seeded.
pub struct Rng {
    pub state: u32,
}

impl Rng {
    /// Seeds the generator, replacing a zero seed by one.
    pub fn new(seed: u32) -> (r: Self)
        ensures
            r.state == (if seed == 0 { 1 } else { seed }),
    {
        Rng { state: if seed == 0 { 1 } else { seed } }
    }

    pub fn next_u32(&mut self) -> (v: u32)
        ensures
            final(self).state == lcg32(old(self).state),
            v == final(self).state,
    {
        self.state = self.state.wrapping_mul(1664525).wrapping_add(1013904223);
        self.state
    }

    /// A draw in `min..max_exclusive`; `min`, drawing nothing, when the range is empty.
    pub fn range(&mut self, min: i32, max_exclusive: i32) -> (v: i32)
        ensures
            max_exclusive <= min ==> v == min && final(self).state == old(self).state,
            min < max_exclusive ==> {
                &&& final(self).state == lcg32(old(self).state)
                &&& v == min + (final(self).state as int) % (max_exclusive - min)
                &&& min <= v < max_exclusive
            },
    {
        if max_exclusive <= min {
            return min;
        }
        let span = (max_exclusive as i64 - min as i64) as u32;
        let r = self.next_u32() % span;
        (min as i64 + r as i64) as i32
    }

    /// A uniformly drawn item.
    pub fn choice<'a, T>(&mut self, items: &'a [T]) -> (r: &'a T)
        requires
            items@.len() > 0,
        ensures
            final(self).state == lcg32(old(self).state),
            *r == items@[(final(self).state as usize) as int % (items@.len() as int)],
    {
        let v = self.next_u32();
        &items[v as usize % items.len()]
    }
}

/// What a rain column did in one frame.
#[derive(Clone, Copy, Debug, PartialEq, Eq, Structural)]
pub enum ColumnStep {
    /// The column has finished all its cycles.
    Idle,
    /// The column is waiting to start (or restart).
    Waiting,
    /// The drop left the canvas and a new cycle was scheduled.
    Restarted,
    /// The drop left the canvas for the last time.
    Finished,
    /// The drop is on screen and its trail is painted.
    Paint,
}

/// One falling drop per text column: its head row, delays, trail length and cycles left.
#[derive(Clone, Copy, Debug, PartialEq, Eq, Structural)]
pub struct RainColumn {
    pub column: i32,
    pub head: i32,
    pub start_delay: i32,
    pub fall_delay: i32,
    pub fall_wait: i32,
    pub trail: i32,
    pub cycles_left: i32,
    pub done: bool,
}

/// Longest pause between two cycles of a column.
pub const INTER_CYCLE_DELAY_MAX: i32 = 8;

/// The column's counters are within the ranges the rain keeps them in.
pub open spec fn column_wf(c: RainColumn, top: i32, bottom: i32) -> bool {
    &&& -0x1000_0000 < bottom <= top < 0x1000_0000
    &&& 0 <= c.trail < 0x1000_0000
    &&& bottom - c.trail - 1 <= c.head <= top + 1
    &&& !c.done ==> c.head + c.trail >= bottom
    &&& 0 <= c.start_delay
    &&& 0 <= c.fall_wait
    &&& 0 <= c.fall_delay
    &&& c.cycles_left >= 0
    &&& !c.done ==> c.cycles_left >= 1
}

impl RainColumn {
    /// Advances the column one frame: it counts down its start delay, then waits its fall
    /// delay between steps; when the drop's trail has left the bottom, a cycle ends and
    /// the column either finishes or restarts from the top after a drawn delay.
    pub fn advance(&mut self, rng: &mut Rng, top: i32, bottom: i32) -> (step: ColumnStep)
        requires
            column_wf(*old(self), top, bottom),
        ensures
            column_wf(*final(self), top, bottom),
            (*final(self), final(rng).state, step) == column_step(*old(self), old(rng).state, top, bottom),
            final(self).column == old(self).column,
            final(self).trail == old(self).trail,
            final(self).fall_delay == old(self).fall_delay,
            old(self).done ==> step == ColumnStep::Idle && *final(self) == *old(self) && final(rng).state == old(rng).state,
            !old(self).done && old(self).start_delay > 0 ==> step == ColumnStep::Waiting && *final(self) == (
            RainColumn { start_delay: (old(self).start_delay - 1) as i32, ..*old(self) }) && final(rng).state == old(rng).state,
            !old(self).done && old(self).start_delay == 0 && old(self).fall_wait > 0 ==> step == ColumnStep::Paint
                && *final(self) == (RainColumn { fall_wait: (old(self).fall_wait - 1) as i32, ..*old(self) })
                && final(rng).state == old(rng).state,
            !old(self).done && old(self).start_delay == 0 && old(self).fall_wait == 0 ==> ({
                let head = old(self).head - 1;
                let moved = RainColumn { fall_wait: old(self).fall_delay, head: head as i32, ..*old(self) };
                if head + old(self).trail >= bottom {
                    step == ColumnStep::Paint && *final(self) == moved && final(rng).state == old(rng).state
                } else if old(self).cycles_left - 1 <= 0 {
                    step == ColumnStep::Finished && *final(self) == (RainColumn {
                        cycles_left: (old(self).cycles_left - 1) as i32,
                        done: true,
                        ..moved
                    }) && final(rng).state == old(rng).state
                } else {
                    &&& step == ColumnStep::Restarted
                    &&& final(rng).state == lcg32(old(rng).state)
                    &&& *final(self) == (RainColumn {
                        cycles_left: (old(self).cycles_left - 1) as i32,
                        head: (top + 1) as i32,
                        start_delay: (final(rng).state as int % (INTER_CYCLE_DELAY_MAX + 1)) as i32,
                        ..moved
                    })
                }
            }),
    {
        if self.done {
            return ColumnStep::Idle;
        }
        if self.start_delay > 0 {
            self.start_delay = self.start_delay - 1;
            return ColumnStep::Waiting;
        }
        if self.fall_wait > 0 {
            self.fall_wait = self.fall_wait - 1;
        } else {
            self.fall_wait = self.fall_delay;
            self.head = self.head - 1;
            if self.head + self.trail < bottom {
                self.cycles_left = self.cycles_left - 1;
                if self.cycles_left <= 0 {
                    self.done = true;
                    return ColumnStep::Finished;
                }
                self.head = top + 1;
                self.start_delay = rng.range(0, INTER_CYCLE_DELAY_MAX + 1);
                return ColumnStep::Restarted;
            }
        }
        ColumnStep::Paint
    }
}

/// One frame's step of a rain column, as `RainColumn::advance` takes it: the new column,
/// the generator's state and what the column did.
pub open spec fn column_step(c: RainColumn, s: u32, top: i32, bottom: i32) -> (RainColumn, u32, ColumnStep) {
    if c.done {
        (c, s, ColumnStep::Idle)
    } else if c.start_delay > 0 {
        (RainColumn { start_delay: (c.start_delay - 1) as i32, ..c }, s, ColumnStep::Waiting)
    } else if c.fall_wait > 0 {
        (RainColumn { fall_wait: (c.fall_wait - 1) as i32, ..c }, s, ColumnStep::Paint)
    } else {
        let head = c.head - 1;
        let moved = RainColumn { fall_wait: c.fall_delay, head: head as i32, ..c };
        if head + c.trail >= bottom {
            (moved, s, ColumnStep::Paint)
        } else if c.cycles_left - 1 <= 0 {
            (RainColumn { cycles_left: (c.cycles_left - 1) as i32, done: true, ..moved }, s, ColumnStep::Finished)
        } else {
            let s2 = lcg32(s);
            (
                RainColumn {
                    cycles_left: (c.cycles_left - 1) as i32,
                    head: (top + 1) as i32,
                    start_delay: (s2 as int % (INTER_CYCLE_DELAY_MAX + 1)) as i32,
                    ..moved
                },
                s2,
                ColumnStep::Restarted,
            )
        }
    }
}

/// The glyphs the rain is made of: half-width katakana, digits and a few signs.
pub open spec fn matrix_glyphs() -> Seq<char> {
    seq![
        '\u{FF66}', '\u{FF71}', '\u{FF73}', '\u{FF74}', '\u{FF75}', '\u{FF76}', '\u{FF77}', '\u{FF79}', '\u{FF7A}',
        '\u{FF7B}', '\u{FF7C}', '\u{FF7D}', '\u{FF7E}', '\u{FF7F}', '\u{FF80}', '\u{FF82}', '\u{FF83}', '\u{FF85}',
        '\u{FF86}', '\u{FF87}', '\u{FF88}', '\u{FF8A}', '\u{FF8B}', '\u{FF8E}', '\u{FF8F}', '\u{FF90}', '\u{FF91}',
        '\u{FF92}', '\u{FF93}', '\u{FF94}', '\u{FF95}', '\u{FF97}', '\u{FF98}', '\u{FF9C}', '0', '1', '2', '3', '4',
        '5', '7', '8', '9', 'Z', ':', '.', '=', '*', '+', '-', '<', '>',
    ]
}

/// The glyph drawn from the generator state `s` (already advanced).
pub open spec fn glyph_of(s: u32) -> Seq<char> {
    seq![matrix_glyphs()[(s as int) % 52]]
}

fn glyph_table() -> (v: Vec<char>)
    ensures
        v@ == matrix_glyphs(),
{
    let v = vec![
        '\u{FF66}', '\u{FF71}', '\u{FF73}', '\u{FF74}', '\u{FF75}', '\u{FF76}', '\u{FF77}', '\u{FF79}', '\u{FF7A}',
        '\u{FF7B}', '\u{FF7C}', '\u{FF7D}', '\u{FF7E}', '\u{FF7F}', '\u{FF80}', '\u{FF82}', '\u{FF83}', '\u{FF85}',
        '\u{FF86}', '\u{FF87}', '\u{FF88}', '\u{FF8A}', '\u{FF8B}', '\u{FF8E}', '\u{FF8F}', '\u{FF90}', '\u{FF91}',
        '\u{FF92}', '\u{FF93}', '\u{FF94}', '\u{FF95}', '\u{FF97}', '\u{FF98}', '\u{FF9C}', '0', '1', '2', '3', '4',
        '5', '7', '8', '9', 'Z', ':', '.', '=', '*', '+', '-', '<', '>',
    ];
    proof {
        assert(v@ =~= matrix_glyphs());
    }
    v
}

/// What each character shows: its formatted text, or nothing while hidden.
pub open spec fn look_texts(v: Seq<Option<CharacterVisual>>) -> Seq<Option<Seq<char>>> {
    v.map_values(|o: Option<CharacterVisual>| match o {
        Some(x) => Some(formatted(x)),
        None => None,
    })
}

/// The first `m` characters under the column's trail take a drawn glyph: the head in the
/// highlight color, the character `d` rows behind it in `trail_colors[d]`.
pub open spec fn painted(
    chars: Seq<PlacedCharacter>,
    col: RainColumn,
    trail_colors: Seq<Color>,
    highlight: Color,
    looks: Seq<Option<Seq<char>>>,
    s: u32,
    m: nat,
) -> (Seq<Option<Seq<char>>>, u32)
    decreases m,
{
    if m == 0 {
        (looks, s)
    } else {
        let (l, s1) = painted(chars, col, trail_colors, highlight, looks, s, (m - 1) as nat);
        let p = chars[m - 1];
        let dist = p.coord.row - col.head;
        if p.coord.column == col.column && 0 <= dist < col.trail {
            let s2 = lcg32(s1);
            let color = if dist == 0 { highlight } else { trail_colors[dist] };
            (l.update(m - 1, Some(fg_text(glyph_of(s2), color))), s2)
        } else {
            (l, s1)
        }
    }
}

fn paint_column(
    chars: &[PlacedCharacter],
    col: &RainColumn,
    looks: &mut Vec<Option<CharacterVisual>>,
    rng: &mut Rng,
    glyphs: &Vec<char>,
    trail_colors: &[Color],
    highlight: Color,
)
    requires
        old(looks)@.len() == chars@.len(),
        glyphs@ == matrix_glyphs(),
        0 <= col.trail <= trail_colors@.len(),
    ensures
        final(looks)@.len() == chars@.len(),
        (look_texts(final(looks)@), final(rng).state) == painted(
            chars@,
            *col,
            trail_colors@,
            highlight,
            look_texts(old(looks)@),
            old(rng).state,
            chars@.len(),
        ),
{
    let n = chars.len();
    let mut c: usize = 0;
    while c < n
        invariant
            n == chars@.len(),
            looks@.len() == n,
            glyphs@ == matrix_glyphs(),
            0 <= col.trail <= trail_colors@.len(),
            c <= n,
            (look_texts(looks@), rng.state) == painted(
                chars@,
                *col,
                trail_colors@,
                highlight,
                look_texts(old(looks)@),
                old(rng).state,
                c as nat,
            ),
        decreases n - c,
    {
        let dist: i64 = chars[c].coord.row as i64 - col.head as i64;
        if chars[c].coord.column == col.column && 0 <= dist && dist < col.trail as i64 {
            let color = if dist == 0 { highlight } else { trail_colors[dist as usize] };
            let g = *rng.choice(glyphs.as_slice());
            let sym = char_string(g);
            let visual = CharacterVisual::new(sym.as_str(), Some(ColorPair::fg(color)));
            proof {
                lemma_fg_text(visual, color);
                assert(visual.symbol@ == glyph_of(rng.state));
            }
            let ghost before = looks@;
            looks.set(c, Some(visual));
            proof {
                assert(look_texts(looks@) =~= look_texts(before).update(c as int, Some(formatted(visual))));
            }
        }
        c = c + 1;
    }
}

/// Every character that has not resolved is hidden.
pub open spec fn hidden(looks: Seq<Option<Seq<char>>>, scramble: Seq<Option<i32>>) -> Seq<Option<Seq<char>>> {
    Seq::new(looks.len(), |c: int| if scramble[c] == Some(0i32) { looks[c] } else { None })
}

fn hide_unresolved(looks: &mut Vec<Option<CharacterVisual>>, scramble: &Vec<Option<i32>>)
    requires
        old(looks)@.len() == scramble@.len(),
    ensures
        final(looks)@.len() == scramble@.len(),
        look_texts(final(looks)@) == hidden(look_texts(old(looks)@), scramble@),
{
    let mut c: usize = 0;
    while c < looks.len()
        invariant
            looks@.len() == scramble@.len(),
            c <= looks@.len(),
            forall|j: int| 0 <= j < c ==> #[trigger] looks@[j] == (if scramble@[j] == Some(0i32) { old(looks)@[j] } else { None }),
            forall|j: int| c <= j < looks@.len() ==> #[trigger] looks@[j] == old(looks)@[j],
        decreases looks@.len() - c,
    {
        let keep = match scramble[c] {
            Some(v) => v == 0,
            None => false,
        };
        if !keep {
            looks.set(c, None);
        }
        c = c + 1;
    }
    proof {
        assert(look_texts(looks@) =~= hidden(look_texts(old(looks)@), scramble@));
    }
}

/// The first `j` columns take their frame's step, in order; each that is still falling
/// paints its trail when it is on screen. The last component says whether any column
/// was still falling.
pub open spec fn rained(
    chars: Seq<PlacedCharacter>,
    cols: Seq<RainColumn>,
    trail_colors: Seq<Color>,
    highlight: Color,
    looks: Seq<Option<Seq<char>>>,
    s: u32,
    top: i32,
    bottom: i32,
    j: nat,
) -> (Seq<RainColumn>, Seq<Option<Seq<char>>>, u32, bool)
    decreases j,
{
    if j == 0 {
        (cols, looks, s, false)
    } else {
        let (cs, l, s1, active) = rained(chars, cols, trail_colors, highlight, looks, s, top, bottom, (j - 1) as nat);
        let c = cs[j - 1];
        if c.done {
            (cs, l, s1, active)
        } else {
            let (c2, s2, step) = column_step(c, s1, top, bottom);
            if step == ColumnStep::Paint {
                let (l2, s3) = painted(chars, c2, trail_colors, highlight, l, s2, chars.len());
                (cs.update(j - 1, c2), l2, s3, true)
            } else {
                (cs.update(j - 1, c2), l, s2, true)
            }
        }
    }
}

/// Every column is well formed and its trail has a color for each row of it.
pub open spec fn columns_ok(cols: Seq<RainColumn>, top: i32, bottom: i32, colors: nat) -> bool {
    forall|j: int| 0 <= j < cols.len() ==> column_wf(#[trigger] cols[j], top, bottom) && cols[j].trail <= colors
}

fn rain_frame(
    chars: &[PlacedCharacter],
    columns: &mut Vec<RainColumn>,
    looks: &mut Vec<Option<CharacterVisual>>,
    rng: &mut Rng,
    glyphs: &Vec<char>,
    trail_colors: &[Color],
    highlight: Color,
    top: i32,
    bottom: i32,
) -> (active: bool)
    requires
        old(looks)@.len() == chars@.len(),
        glyphs@ == matrix_glyphs(),
        columns_ok(old(columns)@, top, bottom, trail_colors@.len()),
    ensures
        final(looks)@.len() == chars@.len(),
        final(columns)@.len() == old(columns)@.len(),
        columns_ok(final(columns)@, top, bottom, trail_colors@.len()),
        (final(columns)@, look_texts(final(looks)@), final(rng).state, active) == rained(
            chars@,
            old(columns)@,
            trail_colors@,
            highlight,
            look_texts(old(looks)@),
            old(rng).state,
            top,
            bottom,
            old(columns)@.len(),
        ),
{
    let mut active = false;
    let mut j: usize = 0;
    while j < columns.len()
        invariant
            looks@.len() == chars@.len(),
            glyphs@ == matrix_glyphs(),
            columns@.len() == old(columns)@.len(),
            columns_ok(columns@, top, bottom, trail_colors@.len()),
            j <= columns@.len(),
            (columns@, look_texts(looks@), rng.state, active) == rained(
                chars@,
                old(columns)@,
                trail_colors@,
                highlight,
                look_texts(old(looks)@),
                old(rng).state,
                top,
                bottom,
                j as nat,
            ),
        decreases columns@.len() - j,
    {
        let mut col = columns[j];
        if !col.done {
            let step = col.advance(rng, top, bottom);
            columns.set(j, col);
            active = true;
            if step == ColumnStep::Paint {
                paint_column(chars, &col, looks, rng, glyphs, trail_colors, highlight);
            }
        }
        j = j + 1;
    }
    active
}

/// The next `b` characters in resolve order, while there are any, start scrambling for
/// six frames.
pub open spec fn released(scramble: Seq<Option<i32>>, cursor: nat, order: Seq<usize>, b: nat) -> (Seq<Option<i32>>, nat)
    decreases b,
{
    if b == 0 {
        (scramble, cursor)
    } else {
        let (sc, cur) = released(scramble, cursor, order, (b - 1) as nat);
        if cur < order.len() {
            (sc.update(order[cur as int] as int, Some(6i32)), cur + 1)
        } else {
            (sc, cur)
        }
    }
}

fn release(scramble: &mut Vec<Option<i32>>, cursor: usize, order: &Vec<usize>, batch: usize) -> (cur: usize)
    requires
        forall|i: int| 0 <= i < order@.len() ==> (#[trigger] order@[i] as int) < old(scramble)@.len(),
        cursor <= order@.len(),
    ensures
        final(scramble)@.len() == old(scramble)@.len(),
        cur <= order@.len(),
        (final(scramble)@, cur as nat) == released(old(scramble)@, cursor as nat, order@, batch as nat),
{
    let mut cur = cursor;
    let mut b: usize = 0;
    while b < batch
        invariant
            forall|i: int| 0 <= i < order@.len() ==> (#[trigger] order@[i] as int) < old(scramble)@.len(),
            scramble@.len() == old(scramble)@.len(),
            b <= batch,
            cur <= order@.len(),
            (scramble@, cur as nat) == released(old(scramble)@, cursor as nat, order@, b as nat),
        decreases batch - b,
    {
        if cur < order.len() {
            scramble.set(order[cur], Some(6));
            cur = cur + 1;
        }
        b = b + 1;
    }
    cur
}

/// The colors a character had in the input, if any.
pub open spec fn input_colors(p: PlacedCharacter) -> Option<ColorPair> {
    if p.fg is Some || p.bg is Some {
        Some(ColorPair { fg: p.fg, bg: p.bg })
    } else {
        None
    }
}

/// The character as the input had it: its symbol in its input colors.
pub open spec fn input_text(p: PlacedCharacter) -> Seq<char> {
    let f = color_codes(input_colors(p));
    if f.len() == 0 { p.symbol@ } else { f + p.symbol@ + sgr_reset() }
}

/// The first `m` scrambling characters take their step: one with a frame left resolves
/// to its input look, any other counts down and shows a drawn glyph, in the highlight
/// color on even counts and the scramble color on odd ones.
pub open spec fn scrambled(
    chars: Seq<PlacedCharacter>,
    scramble: Seq<Option<i32>>,
    looks: Seq<Option<Seq<char>>>,
    s: u32,
    scramble_color: Color,
    highlight: Color,
    m: nat,
) -> (Seq<Option<i32>>, Seq<Option<Seq<char>>>, u32)
    decreases m,
{
    if m == 0 {
        (scramble, looks, s)
    } else {
        let (sc, l, s1) = scrambled(chars, scramble, looks, s, scramble_color, highlight, (m - 1) as nat);
        let c = m - 1;
        match sc[c] {
            None => (sc, l, s1),
            Some(left) => if left <= 1 {
                (sc.update(c, Some(0i32)), l.update(c, Some(input_text(chars[c]))), s1)
            } else {
                let s2 = lcg32(s1);
                let rest = left - 1;
                let color = if rest % 2 == 0 { highlight } else { scramble_color };
                (sc.update(c, Some(rest as i32)), l.update(c, Some(fg_text(glyph_of(s2), color))), s2)
            },
        }
    }
}

fn input_visual(p: &PlacedCharacter) -> (v: CharacterVisual)
    ensures
        formatted(v) == input_text(*p),
{
    let colors = if p.fg.is_some() || p.bg.is_some() { Some(ColorPair::new(p.fg, p.bg)) } else { None };
    let v = CharacterVisual::new(p.symbol.as_str(), colors);
    proof {
        assert(attribute_codes(v) =~= Seq::<char>::empty());
        assert(colors == input_colors(*p));
    }
    v
}

fn scramble_frame(
    chars: &[PlacedCharacter],
    scramble: &mut Vec<Option<i32>>,
    looks: &mut Vec<Option<CharacterVisual>>,
    rng: &mut Rng,
    glyphs: &Vec<char>,
    scramble_color: Color,
    highlight: Color,
)
    requires
        old(looks)@.len() == chars@.len(),
        old(scramble)@.len() == chars@.len(),
        glyphs@ == matrix_glyphs(),
    ensures
        final(looks)@.len() == chars@.len(),
        final(scramble)@.len() == chars@.len(),
        (final(scramble)@, look_texts(final(looks)@), final(rng).state) == scrambled(
            chars@,
            old(scramble)@,
            look_texts(old(looks)@),
            old(rng).state,
            scramble_color,
            highlight,
            chars@.len(),
        ),
{
    let n = chars.len();
    let mut c: usize = 0;
    while c < n
        invariant
            n == chars@.len(),
            looks@.len() == n,
            scramble@.len() == n,
            glyphs@ == matrix_glyphs(),
            c <= n,
            (scramble@, look_texts(looks@), rng.state) == scrambled(
                chars@,
                old(scramble)@,
                look_texts(old(looks)@),
                old(rng).state,
                scramble_color,
                highlight,
                c as nat,
            ),
        decreases n - c,
    {
        match scramble[c] {
            None => {},
            Some(left) => {
                let ghost before = looks@;
                if left <= 1 {
                    let visual = input_visual(&chars[c]);
                    scramble.set(c, Some(0));
                    looks.set(c, Some(visual));
                    proof {
                        assert(look_texts(looks@) =~= look_texts(before).update(c as int, Some(formatted(visual))));
                    }
                } else {
                    let rest = left - 1;
                    let g = *rng.choice(glyphs.as_slice());
                    let color = if rest % 2 == 0 { highlight } else { scramble_color };
                    let sym = char_string(g);
                    let visual = CharacterVisual::new(sym.as_str(), Some(ColorPair::fg(color)));
                    proof {
                        lemma_fg_text(visual, color);
                        assert(visual.symbol@ == glyph_of(rng.state));
                    }
                    scramble.set(c, Some(rest));
                    looks.set(c, Some(visual));
                    proof {
                        assert(look_texts(looks@) =~= look_texts(before).update(c as int, Some(formatted(visual))));
                    }
                }
            },
        }
        c = c + 1;
    }
}

/// The first `n` characters have all resolved.
pub open spec fn all_zero(scramble: Seq<Option<i32>>, n: nat) -> bool {
    forall|c: int| 0 <= c < n ==> #[trigger] scramble[c] == Some(0i32)
}

fn all_resolved(scramble: &Vec<Option<i32>>) -> (b: bool)
    ensures
        b == all_zero(scramble@, scramble@.len()),
{
    let mut c: usize = 0;
    while c < scramble.len()
        invariant
            c <= scramble@.len(),
            forall|j: int| 0 <= j < c ==> #[trigger] scramble@[j] == Some(0i32),
        decreases scramble@.len() - c,
    {
        let done = match scramble[c] {
            Some(v) => v == 0,
            None => false,
        };
        if !done {
            return false;
        }
        c = c + 1;
    }
    true
}

/// The sort keys `(-row, column, position)` of the characters.
pub open spec fn resolve_keys(rows: Seq<i32>, columns: Seq<i32>) -> Seq<SortKey> {
    Seq::new(rows.len(), |i: int| ((0 - rows[i]) as i64, columns[i] as i64, i as u32))
}

/// The order characters resolve in: top row first, each row left to right, as
/// positions in the character list.
pub fn resolve_order(rows: &[i32], columns: &[i32]) -> (order: Vec<usize>)
    requires
        rows@.len() == columns@.len(),
        rows@.len() <= u32::MAX,
    ensures
        order@ == resolve_keys(rows@, columns@).sort_by(key_order()).map_values(|k: SortKey| k.2 as usize),
{
    let mut keys: Vec<SortKey> = Vec::new();
    let mut i: usize = 0;
    while i < rows.len()
        invariant
            i <= rows@.len(),
            rows@.len() == columns@.len(),
            rows@.len() <= u32::MAX,
            keys@ == resolve_keys(rows@, columns@).take(i as int),
        decreases rows.len() - i,
    {
        keys.push((0 - rows[i] as i64, columns[i] as i64, i as u32));
        proof {
            assert(keys@ =~= resolve_keys(rows@, columns@).take(i + 1));
        }
        i = i + 1;
    }
    proof {
        assert(keys@ =~= resolve_keys(rows@, columns@));
    }
    let sorted = sorted_keys(keys.as_slice());
    let mut order: Vec<usize> = Vec::new();
    let mut k: usize = 0;
    while k < sorted.len()
        invariant
            k <= sorted@.len(),
            order@ == sorted@.take(k as int).map_values(|x: SortKey| x.2 as usize),
        decreases sorted.len() - k,
    {
        order.push(sorted[k].2 as usize);
        proof {
            assert(sorted@.take(k + 1) =~= sorted@.take(k as int).push(sorted@[k as int]));
            assert(order@ =~= sorted@.take(k + 1).map_values(|x: SortKey| x.2 as usize));
        }
        k = k + 1;
    }
    proof {
        assert(sorted@.take(sorted@.len() as int) =~= sorted@);
    }
    order
}

/// What the effect keeps fixed while it runs: the characters, the order they resolve
/// in, the trail colors by distance from the head, the scramble and highlight colors,
/// and the canvas's top and bottom rows.
pub struct MatrixScene {
    pub chars: Seq<PlacedCharacter>,
    pub order: Seq<usize>,
    pub trail_colors: Seq<Color>,
    pub scramble_color: Color,
    pub highlight: Color,
    pub top: i32,
    pub bottom: i32,
}

/// The running state: the rain columns, the generator, the phase (0 rain, 1 pause,
/// 2 resolve, 3 hold), the pause and hold counters, each character's scramble count,
/// the resolve cursor and wait, and what each character shows.
pub struct MatrixView {
    pub columns: Seq<RainColumn>,
    pub rng: u32,
    pub phase: int,
    pub pause_left: int,
    pub hold_left: int,
    pub scramble: Seq<Option<i32>>,
    pub cursor: nat,
    pub wait: int,
    pub looks: Seq<Option<Seq<char>>>,
}

/// The resolve order of the characters: top row first, each row left to right.
pub open spec fn matrix_order(chars: Seq<PlacedCharacter>) -> Seq<usize> {
    resolve_keys(
        chars.map_values(|p: PlacedCharacter| p.coord.row),
        chars.map_values(|p: PlacedCharacter| p.coord.column),
    ).sort_by(key_order()).map_values(|k: SortKey| k.2 as usize)
}

pub open spec fn matrix_scene(
    chars: Seq<PlacedCharacter>,
    trail_colors: Seq<Color>,
    scramble_color: Color,
    highlight: Color,
    top: i32,
    bottom: i32,
) -> MatrixScene {
    MatrixScene { chars, order: matrix_order(chars), trail_colors, scramble_color, highlight, top, bottom }
}

/// The state before the first frame: every character hidden, none scrambling.
pub open spec fn matrix_start(columns: Seq<RainColumn>, seed: u32, n: nat) -> MatrixView {
    MatrixView {
        columns,
        rng: seed,
        phase: 0,
        pause_left: 6,
        hold_left: 16,
        scramble: Seq::new(n, |c: int| None),
        cursor: 0,
        wait: 0,
        looks: Seq::new(n, |c: int| None),
    }
}

/// One frame of the effect. Rain: unresolved characters are hidden and every column
/// steps, painting its trail; when no column is left falling the pause begins. Pause:
/// six frames of nothing. Resolve: every other frame the next `1 + n / 25` characters in
/// resolve order start scrambling, the scrambling ones step, and once all have resolved
/// the hold begins. Hold: sixteen frames of the resolved text.
pub open spec fn matrix_step(sc: MatrixScene, st: MatrixView) -> MatrixView {
    if st.phase == 0 {
        rain_step(sc, st)
    } else if st.phase == 1 {
        pause_step(st)
    } else if st.phase == 2 {
        resolve_step(sc, st)
    } else {
        MatrixView { hold_left: st.hold_left - 1, ..st }
    }
}

/// A frame of rain.
pub open spec fn rain_step(sc: MatrixScene, st: MatrixView) -> MatrixView {
    let (cs, l, s, active) = rained(
        sc.chars,
        st.columns,
        sc.trail_colors,
        sc.highlight,
        hidden(st.looks, st.scramble),
        st.rng,
        sc.top,
        sc.bottom,
        st.columns.len(),
    );
    MatrixView { columns: cs, looks: l, rng: s, phase: if active { 0 } else { 1 }, ..st }
}

/// A frame of the pause.
pub open spec fn pause_step(st: MatrixView) -> MatrixView {
    MatrixView {
        looks: hidden(st.looks, st.scramble),
        pause_left: st.pause_left - 1,
        phase: if st.pause_left - 1 <= 0 { 2 } else { 1 },
        ..st
    }
}

/// A frame of resolving.
pub open spec fn resolve_step(sc: MatrixScene, st: MatrixView) -> MatrixView {
    let n = sc.chars.len();
    let (sc0, cur, wait) = if st.wait > 0 {
        (st.scramble, st.cursor, st.wait - 1)
    } else {
        let (r, c) = released(st.scramble, st.cursor, sc.order, (1 + n / 25) as nat);
        (r, c, 1int)
    };
    let (sc1, l, s) = scrambled(sc.chars, sc0, st.looks, st.rng, sc.scramble_color, sc.highlight, n);
    let finished = cur >= n && all_zero(sc1, n);
    MatrixView { scramble: sc1, looks: l, rng: s, cursor: cur, wait, phase: if finished { 3 } else { 2 }, ..st }
}

/// The state after `k` frames.
pub open spec fn matrix_after(sc: MatrixScene, start: MatrixView, k: nat) -> MatrixView
    decreases k,
{
    if k == 0 {
        start
    } else {
        matrix_step(sc, matrix_after(sc, start, (k - 1) as nat))
    }
}

/// The number of frames from frame `k` on: until the hold has run out, at most 4000.
pub open spec fn matrix_frame_count(sc: MatrixScene, start: MatrixView, k: nat) -> nat
    decreases 4000 - k,
{
    if k + 1 >= 4000 {
        4000
    } else if matrix_after(sc, start, k + 1).hold_left <= 0 {
        k + 1
    } else {
        matrix_frame_count(sc, start, k + 1)
    }
}

/// The shown characters among the first `m`, each at its place with what it shows.
pub open spec fn look_sprites(chars: Seq<PlacedCharacter>, looks: Seq<Option<Seq<char>>>, m: nat) -> Seq<(Coord, Seq<char>)>
    decreases m,
{
    if m == 0 {
        Seq::empty()
    } else {
        let prev = look_sprites(chars, looks, (m - 1) as nat);
        match looks[m - 1] {
            Some(t) => prev.push((chars[m - 1].coord, t)),
            None => prev,
        }
    }
}

fn draw_looks(canvas: &mut Canvas, chars: &[PlacedCharacter], looks: &Vec<Option<CharacterVisual>>) -> (f: String)
    requires
        old(canvas).wf(),
        old(canvas).width < 0x4000_0000,
        old(canvas).height < 0x4000_0000,
        looks@.len() == chars@.len(),
    ensures
        final(canvas).wf(),
        final(canvas).width == old(canvas).width,
        final(canvas).height == old(canvas).height,
        final(canvas).top == old(canvas).top,
        final(canvas).bottom == old(canvas).bottom,
        f@ == picture(
            old(canvas).width as nat,
            old(canvas).height as nat,
            look_sprites(chars@, look_texts(looks@), chars@.len()),
        ),
{
    let mut sprites: Vec<(Coord, CharacterVisual)> = Vec::new();
    let mut c: usize = 0;
    while c < chars.len()
        invariant
            looks@.len() == chars@.len(),
            c <= chars@.len(),
            sprite_texts(sprites@) == look_sprites(chars@, look_texts(looks@), c as nat),
        decreases chars@.len() - c,
    {
        match &looks[c] {
            Some(v) => {
                let ghost before = sprites@;
                sprites.push((chars[c].coord, v.clone()));
                proof {
                    assert(sprite_texts(sprites@) =~= sprite_texts(before).push((chars@[c as int].coord, formatted(*v))));
                }
            },
            None => {},
        }
        c = c + 1;
    }
    draw_frame(canvas, sprites.as_slice())
}

proof fn lemma_order(chars: Seq<PlacedCharacter>)
    requires
        chars.len() <= u32::MAX,
    ensures
        matrix_order(chars).len() == chars.len(),
        forall|i: int| 0 <= i < chars.len() ==> (#[trigger] matrix_order(chars)[i] as int) < chars.len(),
{
    let keys = resolve_keys(
        chars.map_values(|p: PlacedCharacter| p.coord.row),
        chars.map_values(|p: PlacedCharacter| p.coord.column),
    );
    let sorted = keys.sort_by(key_order());
    lemma_key_order_total();
    keys.lemma_sort_by_ensures(key_order());
    keys.to_multiset_ensures();
    sorted.to_multiset_ensures();
    assert(sorted.len() == keys.len());
    assert forall|i: int| 0 <= i < chars.len() implies (#[trigger] matrix_order(chars)[i] as int) < chars.len() by {
        assert(sorted.contains(sorted[i]));
        assert(keys.contains(sorted[i]));
        let j = choose|j: int| 0 <= j < keys.len() && keys[j] == sorted[i];
        assert(keys[j].2 == j as u32);
    }
}


proof fn lemma_painted_len(
    chars: Seq<PlacedCharacter>,
    col: RainColumn,
    trail_colors: Seq<Color>,
    highlight: Color,
    looks: Seq<Option<Seq<char>>>,
    s: u32,
    m: nat,
)
    requires
        m <= chars.len(),
        looks.len() == chars.len(),
    ensures
        painted(chars, col, trail_colors, highlight, looks, s, m).0.len() == looks.len(),
    decreases m,
{
    if m > 0 {
        lemma_painted_len(chars, col, trail_colors, highlight, looks, s, (m - 1) as nat);
    }
}

proof fn lemma_rained_len(
    chars: Seq<PlacedCharacter>,
    cols: Seq<RainColumn>,
    trail_colors: Seq<Color>,
    highlight: Color,
    looks: Seq<Option<Seq<char>>>,
    s: u32,
    top: i32,
    bottom: i32,
    j: nat,
)
    requires
        j <= cols.len(),
        looks.len() == chars.len(),
    ensures
        rained(chars, cols, trail_colors, highlight, looks, s, top, bottom, j).1.len() == looks.len(),
        rained(chars, cols, trail_colors, highlight, looks, s, top, bottom, j).0.len() == cols.len(),
    decreases j,
{
    if j > 0 {
        lemma_rained_len(chars, cols, trail_colors, highlight, looks, s, top, bottom, (j - 1) as nat);
        let (cs, l, s1, active) = rained(chars, cols, trail_colors, highlight, looks, s, top, bottom, (j - 1) as nat);
        let (c2, s2, step) = column_step(cs[j - 1], s1, top, bottom);
        lemma_painted_len(chars, c2, trail_colors, highlight, l, s2, chars.len());
    }
}

proof fn lemma_released_len(scramble: Seq<Option<i32>>, cursor: nat, order: Seq<usize>, b: nat)
    requires
        forall|i: int| 0 <= i < order.len() ==> (#[trigger] order[i] as int) < scramble.len(),
    ensures
        released(scramble, cursor, order, b).0.len() == scramble.len(),
    decreases b,
{
    if b > 0 {
        lemma_released_len(scramble, cursor, order, (b - 1) as nat);
    }
}

proof fn lemma_scrambled(
    chars: Seq<PlacedCharacter>,
    scramble: Seq<Option<i32>>,
    looks: Seq<Option<Seq<char>>>,
    s: u32,
    scramble_color: Color,
    highlight: Color,
    m: nat,
)
    requires
        m <= chars.len(),
        scramble.len() == chars.len(),
        looks.len() == chars.len(),
    ensures
        ({
            let (sc, l, s2) = scrambled(chars, scramble, looks, s, scramble_color, highlight, m);
            &&& sc.len() == chars.len()
            &&& l.len() == chars.len()
            &&& forall|c: int| 0 <= c < m && #[trigger] sc[c] == Some(0i32) ==> l[c] == Some(input_text(chars[c]))
            &&& forall|c: int| m <= c < chars.len() ==> #[trigger] sc[c] == scramble[c] && l[c] == looks[c]
        }),
    decreases m,
{
    if m > 0 {
        lemma_scrambled(chars, scramble, looks, s, scramble_color, highlight, (m - 1) as nat);
    }
}

/// What the effect keeps true from frame to frame: nothing scrambles before resolving
/// begins, a resolved character shows its input look, and the hold begins only once
/// every character has resolved.
pub open spec fn matrix_inv(sc: MatrixScene, st: MatrixView) -> bool {
    let n = sc.chars.len();
    &&& st.scramble.len() == n
    &&& st.looks.len() == n
    &&& (st.phase == 0 || st.phase == 1) ==> forall|c: int| 0 <= c < n ==> #[trigger] st.scramble[c] is None
    &&& forall|c: int| 0 <= c < n && #[trigger] st.scramble[c] == Some(0i32) ==> st.looks[c] == Some(input_text(sc.chars[c]))
    &&& st.phase == 3 ==> all_zero(st.scramble, n)
}

proof fn lemma_matrix_inv(sc: MatrixScene, start: MatrixView, k: nat)
    requires
        matrix_inv(sc, start),
        forall|i: int| 0 <= i < sc.order.len() ==> (#[trigger] sc.order[i] as int) < sc.chars.len(),
    ensures
        matrix_inv(sc, matrix_after(sc, start, k)),
    decreases k,
{
    if k > 0 {
        lemma_matrix_inv(sc, start, (k - 1) as nat);
        let st = matrix_after(sc, start, (k - 1) as nat);
        let n = sc.chars.len();
        if st.phase == 0 {
            let h = hidden(st.looks, st.scramble);
            lemma_rained_len(sc.chars, st.columns, sc.trail_colors, sc.highlight, h, st.rng, sc.top, sc.bottom, st.columns.len());
        } else if st.phase == 1 {
        } else if st.phase == 2 {
            let (sc0, cur, wait) = if st.wait > 0 {
                (st.scramble, st.cursor, st.wait - 1)
            } else {
                let (r, c) = released(st.scramble, st.cursor, sc.order, (1 + n / 25) as nat);
                (r, c, 1int)
            };
            lemma_released_len(st.scramble, st.cursor, sc.order, (1 + n / 25) as nat);
            lemma_scrambled(sc.chars, sc0, st.looks, st.rng, sc.scramble_color, sc.highlight, n);
        }
    }
}

/// Law: the matrix resolves into the text: from the start, whenever the hold has begun,
/// every character shows its input look (its symbol in its input colors).
pub proof fn lemma_matrix_resolves(
    chars: Seq<PlacedCharacter>,
    trail_colors: Seq<Color>,
    scramble_color: Color,
    highlight: Color,
    top: i32,
    bottom: i32,
    columns: Seq<RainColumn>,
    seed: u32,
    k: nat,
)
    requires
        chars.len() <= u32::MAX,
        matrix_after(
            matrix_scene(chars, trail_colors, scramble_color, highlight, top, bottom),
            matrix_start(columns, seed, chars.len()),
            k,
        ).phase == 3,
    ensures
        matrix_after(
            matrix_scene(chars, trail_colors, scramble_color, highlight, top, bottom),
            matrix_start(columns, seed, chars.len()),
            k,
        ).looks == Seq::new(chars.len(), |c: int| Some(input_text(chars[c]))),
{
    let sc = matrix_scene(chars, trail_colors, scramble_color, highlight, top, bottom);
    let start = matrix_start(columns, seed, chars.len());
    lemma_order(chars);
    lemma_matrix_inv(sc, start, k);
    let st = matrix_after(sc, start, k);
    assert forall|c: int| 0 <= c < chars.len() implies #[trigger] st.looks[c] == Some(input_text(chars[c])) by {
        assert(st.scramble[c] == Some(0i32));
    }
    assert(st.looks =~= Seq::new(chars.len(), |c: int| Some(input_text(chars[c]))));
}

/// The running state of the effect as the frame loop holds it.
struct Running {
    columns: Vec<RainColumn>,
    rng: Rng,
    phase: u8,
    pause_left: i32,
    hold_left: i32,
    scramble: Vec<Option<i32>>,
    cursor: usize,
    wait: i32,
    looks: Vec<Option<CharacterVisual>>,
}

impl Running {
    spec fn state(&self) -> MatrixView {
        MatrixView {
            columns: self.columns@,
            rng: self.rng.state,
            phase: self.phase as int,
            pause_left: self.pause_left as int,
            hold_left: self.hold_left as int,
            scramble: self.scramble@,
            cursor: self.cursor as nat,
            wait: self.wait as int,
            looks: look_texts(self.looks@),
        }
    }

    spec fn ok(&self, n: nat, ncols: nat, top: i32, bottom: i32, colors: nat) -> bool {
        &&& self.columns@.len() == ncols
        &&& columns_ok(self.columns@, top, bottom, colors)
        &&& self.scramble@.len() == n
        &&& self.looks@.len() == n
        &&& self.cursor <= n
        &&& 0 <= self.wait <= 1
        &&& 0 <= self.pause_left <= 6
        &&& (self.phase == 0 ==> self.pause_left == 6)
        &&& (self.phase == 1 ==> self.pause_left >= 1)
        &&& self.phase <= 3
        &&& self.hold_left <= 16
    }

    fn rain(
        &mut self,
        chars: &[PlacedCharacter],
        glyphs: &Vec<char>,
        trail_colors: &[Color],
        highlight: Color,
        top: i32,
        bottom: i32,
        Ghost(sc): Ghost<MatrixScene>,
    )
        requires
            old(self).ok(chars@.len(), old(self).columns@.len(), top, bottom, trail_colors@.len()),
            old(self).phase == 0,
            glyphs@ == matrix_glyphs(),
            sc.chars == chars@,
            sc.trail_colors == trail_colors@,
            sc.highlight == highlight,
            sc.top == top,
            sc.bottom == bottom,
        ensures
            final(self).ok(chars@.len(), old(self).columns@.len(), top, bottom, trail_colors@.len()),
            final(self).hold_left == old(self).hold_left,
            final(self).state() == rain_step(sc, old(self).state()),
    {
        hide_unresolved(&mut self.looks, &self.scramble);
        let active = rain_frame(chars, &mut self.columns, &mut self.looks, &mut self.rng, glyphs, trail_colors, highlight, top, bottom);
        if !active {
            self.phase = 1;
        }
    }

    fn pause(&mut self)
        requires
            old(self).phase == 1,
            old(self).pause_left >= 1,
            old(self).looks@.len() == old(self).scramble@.len(),
        ensures
            final(self).columns == old(self).columns,
            final(self).scramble == old(self).scramble,
            final(self).cursor == old(self).cursor,
            final(self).wait == old(self).wait,
            final(self).hold_left == old(self).hold_left,
            final(self).looks@.len() == old(self).looks@.len(),
            0 <= final(self).pause_left,
            final(self).phase == 1 ==> final(self).pause_left >= 1,
            final(self).phase == 1 || final(self).phase == 2,
            final(self).state() == pause_step(old(self).state()),
    {
        hide_unresolved(&mut self.looks, &self.scramble);
        self.pause_left = self.pause_left - 1;
        if self.pause_left <= 0 {
            self.phase = 2;
        }
    }

    #[verifier::rlimit(60)]
    #[verifier::spinoff_prover]
    fn resolve(
        &mut self,
        chars: &[PlacedCharacter],
        order: &Vec<usize>,
        glyphs: &Vec<char>,
        scramble_color: Color,
        highlight: Color,
        Ghost(sc): Ghost<MatrixScene>,
    )
        requires
            old(self).ok(chars@.len(), old(self).columns@.len(), sc.top, sc.bottom, sc.trail_colors.len()),
            old(self).phase == 2,
            chars@.len() < 0x1000_0000,
            order@.len() == chars@.len(),
            forall|i: int| 0 <= i < order@.len() ==> (#[trigger] order@[i] as int) < chars@.len(),
            glyphs@ == matrix_glyphs(),
            sc.chars == chars@,
            sc.order == order@,
            sc.scramble_color == scramble_color,
            sc.highlight == highlight,
        ensures
            final(self).ok(chars@.len(), old(self).columns@.len(), sc.top, sc.bottom, sc.trail_colors.len()),
            final(self).hold_left == old(self).hold_left,
            final(self).state() == resolve_step(sc, old(self).state()),
    {
        let n = chars.len();
        let ghost st = self.state();
        if self.wait > 0 {
            self.wait = self.wait - 1;
        } else {
            self.cursor = release(&mut self.scramble, self.cursor, order, 1 + n / 25);
            self.wait = 1;
        }
        let ghost mid = (self.scramble@, self.cursor as nat, self.wait as int);
        proof {
            assert(mid == (if st.wait > 0 {
                (st.scramble, st.cursor, st.wait - 1)
            } else {
                let (r, c) = released(st.scramble, st.cursor, sc.order, (1 + n / 25) as nat);
                (r, c, 1int)
            }));
        }
        scramble_frame(chars, &mut self.scramble, &mut self.looks, &mut self.rng, glyphs, scramble_color, highlight);
        let ghost after = (self.scramble@, look_texts(self.looks@), self.rng.state);
        proof {
            assert(after == scrambled(sc.chars, mid.0, st.looks, st.rng, sc.scramble_color, sc.highlight, n as nat));
        }
        let done = self.cursor >= n && all_resolved(&self.scramble);
        proof {
            assert(done == (mid.1 >= n && all_zero(after.0, n as nat)));
        }
        if done {
            self.phase = 3;
        }

    }

    /// Runs one frame of the effect.
    fn step(
        &mut self,
        chars: &[PlacedCharacter],
        order: &Vec<usize>,
        glyphs: &Vec<char>,
        trail_colors: &[Color],
        scramble_color: Color,
        highlight: Color,
        top: i32,
        bottom: i32,
    )
        requires
            old(self).ok(chars@.len(), old(self).columns@.len(), top, bottom, trail_colors@.len()),
            old(self).hold_left >= 1,
            chars@.len() < 0x1000_0000,
            order@ == matrix_order(chars@),
            order@.len() == chars@.len(),
            forall|i: int| 0 <= i < order@.len() ==> (#[trigger] order@[i] as int) < chars@.len(),
            glyphs@ == matrix_glyphs(),
        ensures
            final(self).ok(chars@.len(), old(self).columns@.len(), top, bottom, trail_colors@.len()),
            final(self).state() == matrix_step(
                matrix_scene(chars@, trail_colors@, scramble_color, highlight, top, bottom),
                old(self).state(),
            ),
    {
        let ghost sc = matrix_scene(chars@, trail_colors@, scramble_color, highlight, top, bottom);
        if self.phase == 0 {
            self.rain(chars, glyphs, trail_colors, highlight, top, bottom, Ghost(sc));
        } else if self.phase == 1 {
            self.pause();
        } else if self.phase == 2 {
            self.resolve(chars, order, glyphs, scramble_color, highlight, Ghost(sc));
        } else {
            self.hold_left = self.hold_left - 1;
        }
    }
}

impl Matrix {
    /// The frames of the effect for the characters laid out on `canvas`, starting from the
    /// rain `columns` and the generator state `seed` that the column setup left: frame `k`
    /// shows the characters as `matrix_after` leaves them after `k + 1` steps, until the
    /// hold has run out (at most 4000 frames). The trail of a column colors the character
    /// `d` rows behind its head with `trail_colors[d]`. Without characters, one blank frame.
    #[verifier::rlimit(50)]
    #[verifier::spinoff_prover]
    pub fn frames(
        &self,
        canvas: &mut Canvas,
        chars: &[PlacedCharacter],
        columns: &[RainColumn],
        seed: u32,
        trail_colors: &[Color],
        scramble_color: Color,
        highlight: Color,
    ) -> (frames: Vec<String>)
        requires
            old(canvas).wf(),
            old(canvas).width < 0x4000_0000,
            old(canvas).height < 0x4000_0000,
            chars@.len() < 0x1000_0000,
            columns_ok(columns@, old(canvas).top, old(canvas).bottom, trail_colors@.len()),
        ensures
            final(canvas).wf(),
            final(canvas).width == old(canvas).width,
            final(canvas).height == old(canvas).height,
            ({
                let w = old(canvas).width as nat;
                let h = old(canvas).height as nat;
                let n = chars@.len();
                let sc = matrix_scene(chars@, trail_colors@, scramble_color, highlight, old(canvas).top, old(canvas).bottom);
                let start = matrix_start(columns@, seed, n);
                if n == 0 {
                    frames@.len() == 1 && frames@[0]@ == picture(w, h, Seq::empty())
                } else {
                    &&& frames@.len() == matrix_frame_count(sc, start, 0)
                    &&& forall|k: int| 0 <= k < frames@.len() ==> #[trigger] frames@[k]@ == picture(
                        w,
                        h,
                        look_sprites(chars@, matrix_after(sc, start, (k + 1) as nat).looks, n),
                    )
                }
            }),
    {
        let ghost w = canvas.width as nat;
        let ghost h = canvas.height as nat;
        let mut frames: Vec<String> = Vec::new();
        let n = chars.len();
        if n == 0 {
            let none: Vec<(Coord, CharacterVisual)> = Vec::new();
            let f = draw_frame(canvas, none.as_slice());
            proof {
                assert(sprite_texts(none@) =~= Seq::empty());
            }
            frames.push(f);
            return frames;
        }
        let top = canvas.top;
        let bottom = canvas.bottom;
        let ghost sc = matrix_scene(chars@, trail_colors@, scramble_color, highlight, top, bottom);
        let ghost start = matrix_start(columns@, seed, n as nat);
        let mut rows: Vec<i32> = Vec::new();
        let mut cols: Vec<i32> = Vec::new();
        let mut c: usize = 0;
        while c < n
            invariant
                n == chars@.len(),
                c <= n,
                rows@ == chars@.map_values(|p: PlacedCharacter| p.coord.row).take(c as int),
                cols@ == chars@.map_values(|p: PlacedCharacter| p.coord.column).take(c as int),
            decreases n - c,
        {
            rows.push(chars[c].coord.row);
            cols.push(chars[c].coord.column);
            proof {
                assert(rows@ =~= chars@.map_values(|p: PlacedCharacter| p.coord.row).take(c + 1));
                assert(cols@ =~= chars@.map_values(|p: PlacedCharacter| p.coord.column).take(c + 1));
            }
            c = c + 1;
        }
        proof {
            assert(rows@ =~= chars@.map_values(|p: PlacedCharacter| p.coord.row));
            assert(cols@ =~= chars@.map_values(|p: PlacedCharacter| p.coord.column));
        }
        let order = resolve_order(rows.as_slice(), cols.as_slice());
        proof {
            lemma_order(chars@);
            assert(order@ == sc.order);
        }
        let glyphs = glyph_table();
        let mut scramble: Vec<Option<i32>> = Vec::new();
        let mut looks: Vec<Option<CharacterVisual>> = Vec::new();
        let mut c: usize = 0;
        while c < n
            invariant
                c <= n,
                scramble@ == Seq::new(c as nat, |i: int| None::<i32>),
                looks@.len() == c,
                forall|i: int| 0 <= i < c ==> #[trigger] looks@[i] is None,
            decreases n - c,
        {
            scramble.push(None);
            looks.push(None);
            proof {
                assert(scramble@ =~= Seq::new((c + 1) as nat, |i: int| None::<i32>));
            }
            c = c + 1;
        }
        proof {
            assert(look_texts(looks@) =~= Seq::new(n as nat, |i: int| None::<Seq<char>>));
        }
        let mut run = Running {
            columns: vstd::slice::slice_to_vec(columns),
            rng: Rng { state: seed },
            phase: 0,
            pause_left: 6,
            hold_left: 16,
            scramble,
            cursor: 0,
            wait: 0,
            looks,
        };
        let mut k: usize = 0;
        proof {
            assert(run.state() == start);
        }
        loop
            invariant_except_break
                k < 4000,
                run.hold_left >= 1,
                matrix_frame_count(sc, start, 0) == matrix_frame_count(sc, start, k as nat),
            invariant
                canvas.wf(),
                canvas.width == w,
                canvas.height == h,
                canvas.width < 0x4000_0000,
                canvas.height < 0x4000_0000,
                canvas.top == top,
                canvas.bottom == bottom,
                0 < n < 0x1000_0000,
                n == chars@.len(),
                sc == matrix_scene(chars@, trail_colors@, scramble_color, highlight, top, bottom),
                start == matrix_start(columns@, seed, n as nat),
                order@ == sc.order,
                order@.len() == n,
                forall|i: int| 0 <= i < order@.len() ==> (#[trigger] order@[i] as int) < n,
                glyphs@ == matrix_glyphs(),
                run.ok(n as nat, columns@.len(), top, bottom, trail_colors@.len()),
                run.state() == matrix_after(sc, start, k as nat),
                k <= 4000,
                frames@.len() == k,
                forall|q: int| 0 <= q < k ==> #[trigger] frames@[q]@ == picture(
                    w,
                    h,
                    look_sprites(chars@, matrix_after(sc, start, (q + 1) as nat).looks, n as nat),
                ),
            ensures
                k == matrix_frame_count(sc, start, 0),
            decreases 4000 - k,
        {
            run.step(chars, &order, &glyphs, trail_colors, scramble_color, highlight, top, bottom);
            let fr = draw_looks(canvas, chars, &run.looks);
            let ghost earlier = frames@;
            frames.push(fr);
            k = k + 1;
            proof {
                assert forall|q: int| 0 <= q < k implies #[trigger] frames@[q]@ == picture(
                    w,
                    h,
                    look_sprites(chars@, matrix_after(sc, start, (q + 1) as nat).looks, n as nat),
                ) by {
                    if q < k - 1 {
                        assert(frames@[q] == earlier[q]);
                    }
                }
            }
            if run.hold_left <= 0 || k >= 4000 {
                break;
            }
        }
        frames
    }
}

} // verus!
