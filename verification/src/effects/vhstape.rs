//! VHS tape: lines of the text glitch, wave and snow before settling.
use vstd::prelude::*;
use vstd::string::StringSliceAdditionalSpecFns;

use crate::animation::{fg_text, formatted, lemma_fg_text, CharacterVisual};
use crate::canvas::{picture, sprite_texts, Canvas};
use crate::effects::overflow::text_rows;
use crate::effects::random::{high32, lcg64};
use crate::geometry::Coord;
use crate::graphics::{from_hex_splits_char, hex_or_white, Color, ColorPair};
use crate::sorting::{bucket_ids, buckets, group_views, key_order, lemma_buckets_concat, tagged};
use crate::terminal::{draw_frame, PlacedCharacter};
use crate::utils::rem_euclid;

verus! {

/// The vhstape effect.
#[derive(Clone, Copy, Debug, PartialEq, Eq, Structural)]
pub struct Vhstape;

impl Vhstape {
    pub fn new() -> (e: Self)
        ensures
            e == Vhstape,
    {
        Vhstape
    }

    pub fn name(&self) -> (n: &'static str)
        ensures
            n@ == "vhstape"@,
    {
        "vhstape"
    }
}

impl Default for Vhstape {
    fn default() -> (e: Self)
        ensures
            e == Vhstape,
    {
        Vhstape::new()
    }
}

/// The color `value` names, white when it names none.
pub fn hex(value: &str) -> (c: Color)
    requires
        !from_hex_splits_char(value@),
    ensures
        c == hex_or_white(value@),
{
    match Color::from_hex(value) {
        Some(c) => c,
        None => Color::rgb(255, 255, 255),
    }
}

/// A wave travelling over the rows: its head, its direction and the column offset it
/// gives.
#[derive(Clone, Copy, Debug, PartialEq, Eq, Structural)]
pub struct Wave {
    pub head: isize,
    pub dir: isize,
    pub offset: i32,
}

/// The seed fold over the input's bytes (multiply by the FNV prime, add the byte).
pub open spec fn tape_seed(bytes: Seq<u8>) -> u64
    decreases bytes.len(),
{
    if bytes.len() == 0 {
        0x9e37_79b9_7f4a_7c15u64
    } else {
        tape_seed(bytes.drop_last()).wrapping_mul(0x0000_0100_0000_01b3u64).wrapping_add(bytes.last() as u64)
    }
}

/// The effect's 64-bit linear congruential generator, drawing its high 32 bits.
pub struct Rng {
    pub state: u64,
}

impl Rng {
    /// Seeds the generator from the input; the low bit is set.
    pub fn from_input(input: &str) -> (r: Self)
        ensures
            r.state == tape_seed(input.spec_bytes()) | 1,
    {
        let bytes = input.as_bytes();
        let mut state: u64 = 0x9e37_79b9_7f4a_7c15;
        let mut i: usize = 0;
        while i < bytes.len()
            invariant
                i <= bytes@.len(),
                bytes@ == input.spec_bytes(),
                state == tape_seed(bytes@.take(i as int)),
            decreases bytes.len() - i,
        {
            proof {
                assert(bytes@.take(i as int + 1).drop_last() =~= bytes@.take(i as int));
            }
            state = state.wrapping_mul(0x0000_0100_0000_01b3).wrapping_add(bytes[i] as u64);
            i = i + 1;
        }
        proof {
            assert(bytes@.take(bytes@.len() as int) =~= bytes@);
        }
        Rng { state: state | 1 }
    }

    pub fn next_u32(&mut self) -> (v: u32)
        ensures
            final(self).state == lcg64(old(self).state),
            v == high32(final(self).state),
    {
        self.state = self.state.wrapping_mul(6364136223846793005).wrapping_add(1);
        (self.state >> 32u64) as u32
    }

    /// A draw in `lo..hi` (the next value as an `i32`, Euclidean-modulo the span); `lo`,
    /// drawing nothing, when the range is empty.
    pub fn gen_range(&mut self, lo: i32, hi: i32) -> (v: i32)
        requires
            lo < hi ==> hi - lo <= i32::MAX,
        ensures
            hi <= lo ==> v == lo && final(self).state == old(self).state,
            lo < hi ==> final(self).state == lcg64(old(self).state) && v == lo + ((high32(final(self).state) as i32)
                as int) % (hi - lo),
            lo < hi ==> lo <= v < hi,
    {
        if hi <= lo {
            return lo;
        }
        let r = rem_euclid(self.next_u32() as i32, hi - lo);
        lo + r
    }

    /// `1` or `-1`, by the low bit of the next draw.
    pub fn sign(&mut self) -> (s: i32)
        ensures
            final(self).state == lcg64(old(self).state),
            s == (if high32(final(self).state) & 1 == 0 { 1i32 } else { -1i32 }),
    {
        if self.next_u32() & 1 == 0 {
            1
        } else {
            -1
        }
    }

    /// Whether the next draw is at most `limit`: the chance test `draw / (2^32 - 1) < p`
    /// with `limit` the largest draw below `p * (2^32 - 1)`.
    pub fn draw_at_most(&mut self, limit: u32) -> (b: bool)
        ensures
            final(self).state == lcg64(old(self).state),
            b == (high32(final(self).state) <= limit),
    {
        self.next_u32() <= limit
    }

    /// A uniformly drawn item.
    pub fn choice<'a, T>(&mut self, items: &'a [T]) -> (r: &'a T)
        requires
            items@.len() > 0,
        ensures
            final(self).state == lcg64(old(self).state),
            *r == items@[(high32(final(self).state) as usize) as int % (items@.len() as int)],
    {
        let v = self.next_u32();
        &items[v as usize % items.len()]
    }
}


/// The largest draw of a glitch-line chance (`p = 0.05`).
pub const LINE_CHANCE_LIMIT: u32 = 214748364;
/// The largest draw of a wave-start chance (`p = 0.02`).
pub const WAVE_CHANCE_LIMIT: u32 = 85899345;
/// The largest draw of a noise chance (`p = 0.004`).
pub const NOISE_CHANCE_LIMIT: u32 = 17179869;

/// `gen_range(lo, hi)` drawn from state `s` (for `lo < hi`): the value and the new state.
pub open spec fn range_draw(s: u64, lo: i32, hi: i32) -> (int, u64) {
    let s1 = lcg64(s);
    (lo + ((high32(s1) as i32) as int) % (hi - lo), s1)
}

/// `sign()` drawn from state `s`: the sign and the new state.
pub open spec fn sign_draw(s: u64) -> (int, u64) {
    let s1 = lcg64(s);
    (if high32(s1) & 1 == 0 { 1int } else { -1int }, s1)
}

/// The colors of glitching lines and waves: white, red, green, blue, white.
pub open spec fn glitch_colors() -> Seq<Color> {
    seq![
        Color { r: 255, g: 255, b: 255 },
        Color { r: 255, g: 0, b: 0 },
        Color { r: 0, g: 255, b: 0 },
        Color { r: 0, g: 0, b: 255 },
        Color { r: 255, g: 255, b: 255 },
    ]
}

/// The colors of snow, dark grey to white.
pub open spec fn noise_colors() -> Seq<Color> {
    seq![
        Color { r: 0x1e, g: 0x1e, b: 0x1f },
        Color { r: 0x3c, g: 0x3b, b: 0x3d },
        Color { r: 0x6d, g: 0x6c, b: 0x70 },
        Color { r: 0xa2, g: 0xa1, b: 0xa6 },
        Color { r: 0xcb, g: 0xc9, b: 0xcf },
        Color { r: 0xff, g: 0xff, b: 0xff },
    ]
}

/// What stays fixed while the tape plays: the characters, their final colors and the
/// text's rows (top row first) as character positions.
pub struct TapeScene {
    pub chars: Seq<PlacedCharacter>,
    pub finals: Seq<Color>,
    pub lines: Seq<Seq<u32>>,
}

/// The running state: each character's place and look (symbol and formatted text), each
/// line's glitching flag and hold, the wave and the generator.
pub struct TapeView {
    pub pos: Seq<Coord>,
    pub looks: Seq<(Seq<char>, Seq<char>)>,
    pub glitching: Seq<bool>,
    pub hold: Seq<u32>,
    pub wave: Option<Wave>,
    pub rng: u64,
}

/// The first `m` members shift by `offset` columns and take a drawn glitch color.
pub open spec fn glitched(sc: TapeScene, members: Seq<u32>, offset: int, st: TapeView, m: nat) -> TapeView
    decreases m,
{
    if m == 0 {
        st
    } else {
        let t = glitched(sc, members, offset, st, (m - 1) as nat);
        let id = members[m - 1] as int;
        if id < sc.chars.len() {
            let s1 = lcg64(t.rng);
            let color = glitch_colors()[(high32(s1) as int) % 5];
            let p = sc.chars[id];
            TapeView {
                pos: t.pos.update(id, Coord { column: (p.coord.column + offset) as i32, row: p.coord.row }),
                looks: t.looks.update(id, (p.symbol@, fg_text(p.symbol@, color))),
                rng: s1,
                ..t
            }
        } else {
            t
        }
    }
}

/// The first `m` members go back to their place in their final color.
pub open spec fn restored(sc: TapeScene, members: Seq<u32>, st: TapeView, m: nat) -> TapeView
    decreases m,
{
    if m == 0 {
        st
    } else {
        let t = restored(sc, members, st, (m - 1) as nat);
        let id = members[m - 1] as int;
        if id < sc.chars.len() {
            let p = sc.chars[id];
            TapeView {
                pos: t.pos.update(id, p.coord),
                looks: t.looks.update(id, (p.symbol@, fg_text(p.symbol@, sc.finals[id]))),
                ..t
            }
        } else {
            t
        }
    }
}

/// The first `m` members keep their symbol in a drawn snow color.
pub open spec fn snowed(sc: TapeScene, members: Seq<u32>, st: TapeView, m: nat) -> TapeView
    decreases m,
{
    if m == 0 {
        st
    } else {
        let t = snowed(sc, members, st, (m - 1) as nat);
        let id = members[m - 1] as int;
        if id < sc.chars.len() {
            let s1 = lcg64(t.rng);
            let color = noise_colors()[(high32(s1) as int) % 6];
            let sym = t.looks[id].0;
            TapeView { looks: t.looks.update(id, (sym, fg_text(sym, color))), rng: s1, ..t }
        } else {
            t
        }
    }
}

/// Line `i` glitches by `offset` columns.
pub open spec fn glitch_line(sc: TapeScene, i: int, offset: int, st: TapeView) -> TapeView {
    let t = glitched(sc, sc.lines[i], offset, st, sc.lines[i].len());
    TapeView { glitching: t.glitching.update(i, true), ..t }
}

/// Line `i` is restored and stops glitching.
pub open spec fn restore_line(sc: TapeScene, i: int, st: TapeView) -> TapeView {
    let t = restored(sc, sc.lines[i], st, sc.lines[i].len());
    TapeView { glitching: t.glitching.update(i, false), hold: t.hold.update(i, 0u32), ..t }
}

/// The glitching lines among the first `m` are restored, in order.
pub open spec fn restore_glitching(sc: TapeScene, st: TapeView, m: nat) -> TapeView
    decreases m,
{
    if m == 0 {
        st
    } else {
        let t = restore_glitching(sc, st, (m - 1) as nat);
        if t.glitching[m - 1] { restore_line(sc, m - 1, t) } else { t }
    }
}

/// The first `m` lines are restored, in order.
pub open spec fn restore_all(sc: TapeScene, st: TapeView, m: nat) -> TapeView
    decreases m,
{
    if m == 0 {
        st
    } else {
        restore_line(sc, m - 1, restore_all(sc, st, (m - 1) as nat))
    }
}

/// Snow falls on the first `m` lines, in order.
pub open spec fn snow_all(sc: TapeScene, st: TapeView, m: nat) -> TapeView
    decreases m,
{
    if m == 0 {
        st
    } else {
        let t = snow_all(sc, st, (m - 1) as nat);
        snowed(sc, sc.lines[m - 1], t, sc.lines[m - 1].len())
    }
}

/// Without a wave, line `i` takes its turn: a glitching line holds, or is restored once
/// its hold is spent; any other glitches by chance, by a drawn offset of 1 to 8 columns
/// either way, and holds a drawn 5 to 15 frames.
pub open spec fn line_turn(sc: TapeScene, t: TapeView, i: int) -> TapeView {
    if t.glitching[i] {
        if t.hold[i] > 0 {
            TapeView { hold: t.hold.update(i, (t.hold[i] - 1) as u32), ..t }
        } else {
            restore_line(sc, i, t)
        }
    } else {
        let s1 = lcg64(t.rng);
        if high32(s1) <= LINE_CHANCE_LIMIT {
            let (v, s2) = range_draw(s1, 1, 9);
            let (sg, s3) = sign_draw(s2);
            let g = glitch_line(sc, i, v * sg, TapeView { rng: s3, ..t });
            let (h, s4) = range_draw(g.rng, 5, 16);
            TapeView { hold: g.hold.update(i, h as u32), rng: s4, ..g }
        } else {
            TapeView { rng: s1, ..t }
        }
    }
}

/// The first `m` lines take their turn, in order.
pub open spec fn line_pass(sc: TapeScene, st: TapeView, m: nat) -> TapeView
    decreases m,
{
    if m == 0 {
        st
    } else {
        line_turn(sc, line_pass(sc, st, (m - 1) as nat), m - 1)
    }
}

/// A wave is launched from the top line down or the bottom line up, with a drawn offset
/// of 4 to 15 columns either way.
pub open spec fn wave_launch(sc: TapeScene, r: TapeView) -> TapeView {
    let (dir, s2) = sign_draw(r.rng);
    let head = if dir > 0 { 0 } else { sc.lines.len() - 1 };
    let (v, s3) = range_draw(s2, 4, 16);
    let (sg, s4) = sign_draw(s3);
    TapeView { wave: Some(Wave { head: head as isize, dir: dir as isize, offset: (v * sg) as i32 }), rng: s4, ..r }
}

/// By chance a wave starts: glitching lines are restored and the wave is launched.
pub open spec fn maybe_wave(sc: TapeScene, t: TapeView) -> TapeView {
    let s1 = lcg64(t.rng);
    if high32(s1) <= WAVE_CHANCE_LIMIT && sc.lines.len() > 0 {
        wave_launch(sc, restore_glitching(sc, TapeView { rng: s1, ..t }, sc.lines.len()))
    } else {
        TapeView { rng: s1, ..t }
    }
}

/// A frame of the wave: the line three behind the head is restored, and the head line
/// glitches and the head moves on; once the head has left the text, every glitching line
/// is restored and the wave ends.
pub open spec fn wave_frame(sc: TapeScene, st: TapeView, w: Wave) -> TapeView {
    let back = w.head - w.dir * 3;
    let t = if 0 <= back < sc.lines.len() { restore_line(sc, back, st) } else { st };
    if 0 <= w.head < sc.lines.len() {
        let g = glitch_line(sc, w.head as int, w.offset as int, t);
        TapeView { wave: Some(Wave { head: (w.head + w.dir) as isize, ..w }), ..g }
    } else {
        TapeView { wave: None, ..restore_glitching(sc, t, sc.lines.len()) }
    }
}

/// One frame of the tape: the wave's frame, or the lines' turn and maybe a new wave; then
/// by chance snow on every line.
pub open spec fn tape_step(sc: TapeScene, st: TapeView) -> TapeView {
    let t = match st.wave {
        Some(w) => wave_frame(sc, st, w),
        None => maybe_wave(sc, line_pass(sc, st, sc.lines.len())),
    };
    let s1 = lcg64(t.rng);
    if high32(s1) <= NOISE_CHANCE_LIMIT {
        snow_all(sc, TapeView { rng: s1, ..t }, sc.lines.len())
    } else {
        TapeView { rng: s1, ..t }
    }
}

pub open spec fn tape_scene(chars: Seq<PlacedCharacter>, finals: Seq<Color>) -> TapeScene {
    TapeScene { chars, finals, lines: text_rows(chars) }
}

/// The state before the first frame: every character shown as laid out, no line
/// glitching, no wave.
pub open spec fn tape_start(sc: TapeScene, seed: u64) -> TapeView {
    TapeView {
        pos: sc.chars.map_values(|p: PlacedCharacter| p.coord),
        looks: sc.chars.map_values(|p: PlacedCharacter| (p.visual.symbol@, formatted(p.visual))),
        glitching: Seq::new(sc.lines.len(), |i: int| false),
        hold: Seq::new(sc.lines.len(), |i: int| 0u32),
        wave: None,
        rng: seed,
    }
}

/// The state after `k` frames.
pub open spec fn tape_after(sc: TapeScene, start: TapeView, k: nat) -> TapeView
    decreases k,
{
    if k == 0 {
        start
    } else {
        tape_step(sc, tape_after(sc, start, (k - 1) as nat))
    }
}

/// Every character at its place with its look.
pub open spec fn tape_sprites(st: TapeView) -> Seq<(Coord, Seq<char>)> {
    Seq::new(st.pos.len(), |c: int| (st.pos[c], st.looks[c].1))
}

/// The symbol and formatted text of each visual.
pub open spec fn looks_view(v: Seq<CharacterVisual>) -> Seq<(Seq<char>, Seq<char>)> {
    v.map_values(|x: CharacterVisual| (x.symbol@, formatted(x)))
}

/// The scene agrees with the characters, their final colors and the row buckets
/// (bottom row first), and the characters' columns leave room for any glitch offset.
pub open spec fn scene_fits(sc: TapeScene, chars: Seq<PlacedCharacter>, finals: Seq<Color>, asc: Seq<Vec<u32>>) -> bool {
    &&& sc.chars == chars
    &&& sc.finals == finals
    &&& finals.len() == chars.len()
    &&& chars.len() < 0x1000_0000
    &&& sc.lines.len() == asc.len()
    &&& asc.len() <= chars.len()
    &&& forall|g: int| 0 <= g < asc.len() ==> #[trigger] sc.lines[g] == asc[asc.len() - 1 - g]@
    &&& forall|c: int| 0 <= c < chars.len() ==> -0x1000_0000 < #[trigger] chars[c].coord.column < 0x1000_0000
}

/// The tape's running state as the frame loop holds it.
struct Tape {
    pos: Vec<Coord>,
    looks: Vec<CharacterVisual>,
    glitching: Vec<bool>,
    hold: Vec<u32>,
    wave: Option<Wave>,
    rng: Rng,
}

impl Tape {
    spec fn state(&self) -> TapeView {
        TapeView {
            pos: self.pos@,
            looks: looks_view(self.looks@),
            glitching: self.glitching@,
            hold: self.hold@,
            wave: self.wave,
            rng: self.rng.state,
        }
    }

    spec fn ok(&self, n: nat, lines: nat) -> bool {
        &&& self.pos@.len() == n
        &&& self.looks@.len() == n
        &&& self.glitching@.len() == lines
        &&& self.hold@.len() == lines
        &&& (self.wave matches Some(w) ==> -1 <= w.head <= lines && (w.dir == 1 || w.dir == -1) && -15 <= w.offset <= 15)
    }

    fn glitch_members(
        &mut self,
        chars: &[PlacedCharacter],
        members: &Vec<u32>,
        offset: i32,
        colors: &Vec<Color>,
        Ghost(sc): Ghost<TapeScene>,
    )
        requires
            old(self).ok(chars@.len(), old(self).glitching@.len()),
            sc.chars == chars@,
            colors@ == glitch_colors(),
            -15 <= offset <= 15,
            forall|c: int| 0 <= c < chars@.len() ==> -0x1000_0000 < #[trigger] chars@[c].coord.column < 0x1000_0000,
        ensures
            final(self).ok(chars@.len(), old(self).glitching@.len()),
            final(self).state() == glitched(sc, members@, offset as int, old(self).state(), members@.len()),
            final(self).wave == old(self).wave,
    {
        let mut j: usize = 0;
        while j < members.len()
            invariant
                self.ok(chars@.len(), old(self).glitching@.len()),
                sc.chars == chars@,
                colors@ == glitch_colors(),
                -15 <= offset <= 15,
                forall|c: int| 0 <= c < chars@.len() ==> -0x1000_0000 < #[trigger] chars@[c].coord.column < 0x1000_0000,
                j <= members@.len(),
                self.state() == glitched(sc, members@, offset as int, old(self).state(), j as nat),
                self.wave == old(self).wave,
            decreases members@.len() - j,
        {
            let id = members[j] as usize;
            if id < chars.len() {
                let color = *self.rng.choice(colors.as_slice());
                let p = &chars[id];
                self.pos.set(id, Coord { column: p.coord.column + offset, row: p.coord.row });
                let visual = CharacterVisual::new(p.symbol.as_str(), Some(ColorPair::fg(color)));
                proof {
                    lemma_fg_text(visual, color);
                }
                let ghost before = self.looks@;
                self.looks.set(id, visual);
                proof {
                    assert(looks_view(self.looks@) =~= looks_view(before).update(id as int, (visual.symbol@, formatted(visual))));
                }
            }
            j = j + 1;
        }
    }

    fn restore_members(
        &mut self,
        chars: &[PlacedCharacter],
        finals: &[Color],
        members: &Vec<u32>,
        Ghost(sc): Ghost<TapeScene>,
    )
        requires
            old(self).ok(chars@.len(), old(self).glitching@.len()),
            sc.chars == chars@,
            sc.finals == finals@,
            finals@.len() == chars@.len(),
        ensures
            final(self).ok(chars@.len(), old(self).glitching@.len()),
            final(self).state() == restored(sc, members@, old(self).state(), members@.len()),
            final(self).wave == old(self).wave,
    {
        let mut j: usize = 0;
        while j < members.len()
            invariant
                self.ok(chars@.len(), old(self).glitching@.len()),
                sc.chars == chars@,
                sc.finals == finals@,
                finals@.len() == chars@.len(),
                j <= members@.len(),
                self.state() == restored(sc, members@, old(self).state(), j as nat),
                self.wave == old(self).wave,
            decreases members@.len() - j,
        {
            let id = members[j] as usize;
            if id < chars.len() {
                let p = &chars[id];
                self.pos.set(id, p.coord);
                let visual = CharacterVisual::new(p.symbol.as_str(), Some(ColorPair::fg(finals[id])));
                proof {
                    lemma_fg_text(visual, finals@[id as int]);
                }
                let ghost before = self.looks@;
                self.looks.set(id, visual);
                proof {
                    assert(looks_view(self.looks@) =~= looks_view(before).update(id as int, (visual.symbol@, formatted(visual))));
                }
            }
            j = j + 1;
        }
    }

    fn snow_members(&mut self, chars: &[PlacedCharacter], members: &Vec<u32>, colors: &Vec<Color>, Ghost(sc): Ghost<TapeScene>)
        requires
            old(self).ok(chars@.len(), old(self).glitching@.len()),
            sc.chars == chars@,
            colors@ == noise_colors(),
        ensures
            final(self).ok(chars@.len(), old(self).glitching@.len()),
            final(self).state() == snowed(sc, members@, old(self).state(), members@.len()),
            final(self).wave == old(self).wave,
    {
        let mut j: usize = 0;
        while j < members.len()
            invariant
                self.ok(chars@.len(), old(self).glitching@.len()),
                sc.chars == chars@,
                colors@ == noise_colors(),
                j <= members@.len(),
                self.state() == snowed(sc, members@, old(self).state(), j as nat),
                self.wave == old(self).wave,
            decreases members@.len() - j,
        {
            let id = members[j] as usize;
            if id < chars.len() {
                let color = *self.rng.choice(colors.as_slice());
                let visual = CharacterVisual::new(self.looks[id].symbol.as_str(), Some(ColorPair::fg(color)));
                proof {
                    lemma_fg_text(visual, color);
                }
                let ghost before = self.looks@;
                self.looks.set(id, visual);
                proof {
                    assert(looks_view(self.looks@) =~= looks_view(before).update(id as int, (visual.symbol@, formatted(visual))));
                }
            }
            j = j + 1;
        }
    }

    fn glitch_line_at(
        &mut self,
        chars: &[PlacedCharacter],
        finals: &[Color],
        asc: &Vec<Vec<u32>>,
        i: usize,
        offset: i32,
        colors: &Vec<Color>,
        Ghost(sc): Ghost<TapeScene>,
    )
        requires
            scene_fits(sc, chars@, finals@, asc@),
            old(self).ok(chars@.len(), sc.lines.len()),
            i < sc.lines.len(),
            colors@ == glitch_colors(),
            -15 <= offset <= 15,
        ensures
            final(self).ok(chars@.len(), sc.lines.len()),
            final(self).state() == glitch_line(sc, i as int, offset as int, old(self).state()),
            final(self).wave == old(self).wave,
    {
        let count = asc.len();
        self.glitch_members(chars, &asc[count - 1 - i], offset, colors, Ghost(sc));
        self.glitching.set(i, true);
    }

    fn restore_line_at(
        &mut self,
        chars: &[PlacedCharacter],
        finals: &[Color],
        asc: &Vec<Vec<u32>>,
        i: usize,
        Ghost(sc): Ghost<TapeScene>,
    )
        requires
            scene_fits(sc, chars@, finals@, asc@),
            old(self).ok(chars@.len(), sc.lines.len()),
            i < sc.lines.len(),
        ensures
            final(self).ok(chars@.len(), sc.lines.len()),
            final(self).state() == restore_line(sc, i as int, old(self).state()),
            final(self).wave == old(self).wave,
    {
        let count = asc.len();
        self.restore_members(chars, finals, &asc[count - 1 - i], Ghost(sc));
        self.glitching.set(i, false);
        self.hold.set(i, 0);
    }

    fn restore_glitching_lines(&mut self, chars: &[PlacedCharacter], finals: &[Color], asc: &Vec<Vec<u32>>, Ghost(sc): Ghost<TapeScene>)
        requires
            scene_fits(sc, chars@, finals@, asc@),
            old(self).ok(chars@.len(), sc.lines.len()),
        ensures
            final(self).ok(chars@.len(), sc.lines.len()),
            final(self).wave == old(self).wave,
            final(self).state() == restore_glitching(sc, old(self).state(), sc.lines.len()),
    {
        let mut i: usize = 0;
        while i < asc.len()
            invariant
                scene_fits(sc, chars@, finals@, asc@),
                self.ok(chars@.len(), sc.lines.len()),
                self.wave == old(self).wave,
                i <= asc@.len(),
                self.state() == restore_glitching(sc, old(self).state(), i as nat),
            decreases asc@.len() - i,
        {
            if self.glitching[i] {
                self.restore_line_at(chars, finals, asc, i, Ghost(sc));
            }
            i = i + 1;
        }
    }

    fn restore_every_line(&mut self, chars: &[PlacedCharacter], finals: &[Color], asc: &Vec<Vec<u32>>, Ghost(sc): Ghost<TapeScene>)
        requires
            scene_fits(sc, chars@, finals@, asc@),
            old(self).ok(chars@.len(), sc.lines.len()),
        ensures
            final(self).ok(chars@.len(), sc.lines.len()),
            final(self).state() == restore_all(sc, old(self).state(), sc.lines.len()),
            final(self).wave == old(self).wave,
    {
        let mut i: usize = 0;
        while i < asc.len()
            invariant
                scene_fits(sc, chars@, finals@, asc@),
                self.ok(chars@.len(), sc.lines.len()),
                i <= asc@.len(),
                self.state() == restore_all(sc, old(self).state(), i as nat),
                self.wave == old(self).wave,
            decreases asc@.len() - i,
        {
            self.restore_line_at(chars, finals, asc, i, Ghost(sc));
            i = i + 1;
        }
    }

    fn snow_every_line(&mut self, chars: &[PlacedCharacter], finals: &[Color], asc: &Vec<Vec<u32>>, colors: &Vec<Color>, Ghost(sc): Ghost<TapeScene>)
        requires
            scene_fits(sc, chars@, finals@, asc@),
            old(self).ok(chars@.len(), sc.lines.len()),
            colors@ == noise_colors(),
        ensures
            final(self).ok(chars@.len(), sc.lines.len()),
            final(self).state() == snow_all(sc, old(self).state(), sc.lines.len()),
            final(self).wave == old(self).wave,
    {
        let count = asc.len();
        let mut i: usize = 0;
        while i < count
            invariant
                count == asc@.len(),
                scene_fits(sc, chars@, finals@, asc@),
                self.ok(chars@.len(), sc.lines.len()),
                colors@ == noise_colors(),
                i <= count,
                self.state() == snow_all(sc, old(self).state(), i as nat),
                self.wave == old(self).wave,
            decreases count - i,
        {
            self.snow_members(chars, &asc[count - 1 - i], colors, Ghost(sc));
            i = i + 1;
        }
    }
}

impl Tape {
    fn line_turn_at(
        &mut self,
        chars: &[PlacedCharacter],
        finals: &[Color],
        asc: &Vec<Vec<u32>>,
        i: usize,
        colors: &Vec<Color>,
        Ghost(sc): Ghost<TapeScene>,
    )
        requires
            scene_fits(sc, chars@, finals@, asc@),
            old(self).ok(chars@.len(), sc.lines.len()),
            old(self).wave is None,
            i < sc.lines.len(),
            colors@ == glitch_colors(),
        ensures
            final(self).ok(chars@.len(), sc.lines.len()),
            final(self).wave is None,
            final(self).state() == line_turn(sc, old(self).state(), i as int),
    {
        if self.glitching[i] {
            if self.hold[i] > 0 {
                let h = self.hold[i];
                self.hold.set(i, h - 1);
            } else {
                self.restore_line_at(chars, finals, asc, i, Ghost(sc));
            }
        } else if self.rng.draw_at_most(LINE_CHANCE_LIMIT) {
            let v = self.rng.gen_range(1, 9);
            let sg = self.rng.sign();
            let offset: i32 = if sg > 0 { v } else { -v };
            proof {
                assert(offset as int == v as int * sg as int) by {
                    if sg > 0 {
                        assert(sg == 1);
                    } else {
                        assert(sg == -1);
                    }
                }
            }
            self.glitch_line_at(chars, finals, asc, i, offset, colors, Ghost(sc));
            let h = self.rng.gen_range(5, 16);
            self.hold.set(i, h as u32);
        }
    }

    fn line_turns(
        &mut self,
        chars: &[PlacedCharacter],
        finals: &[Color],
        asc: &Vec<Vec<u32>>,
        colors: &Vec<Color>,
        Ghost(sc): Ghost<TapeScene>,
    )
        requires
            scene_fits(sc, chars@, finals@, asc@),
            old(self).ok(chars@.len(), sc.lines.len()),
            old(self).wave is None,
            colors@ == glitch_colors(),
        ensures
            final(self).ok(chars@.len(), sc.lines.len()),
            final(self).wave is None,
            final(self).state() == line_pass(sc, old(self).state(), sc.lines.len()),
    {
        let count = asc.len();
        let mut i: usize = 0;
        while i < count
            invariant
                count == asc@.len(),
                scene_fits(sc, chars@, finals@, asc@),
                self.ok(chars@.len(), sc.lines.len()),
                self.wave is None,
                colors@ == glitch_colors(),
                i <= count,
                self.state() == line_pass(sc, old(self).state(), i as nat),
            decreases count - i,
        {
            self.line_turn_at(chars, finals, asc, i, colors, Ghost(sc));
            i = i + 1;
        }
    }

    fn launch_wave(&mut self, count: usize, Ghost(sc): Ghost<TapeScene>)
        requires
            old(self).ok(old(self).pos@.len(), sc.lines.len()),
            count == sc.lines.len(),
            0 < count < 0x1000_0000,
        ensures
            final(self).ok(old(self).pos@.len(), sc.lines.len()),
            final(self).state() == wave_launch(sc, old(self).state()),
    {
        let dir: isize = self.rng.sign() as isize;
        let head: isize = if dir > 0 { 0 } else { count as isize - 1 };
        let v = self.rng.gen_range(4, 16);
        let sg = self.rng.sign();
        let offset: i32 = if sg > 0 { v } else { -v };
        proof {
            assert(offset as int == v as int * sg as int) by {
                if sg > 0 {
                    assert(sg == 1);
                } else {
                    assert(sg == -1);
                }
            }
        }
        self.wave = Some(Wave { head, dir, offset });
    }

    fn maybe_start_wave(&mut self, chars: &[PlacedCharacter], finals: &[Color], asc: &Vec<Vec<u32>>, Ghost(sc): Ghost<TapeScene>)
        requires
            scene_fits(sc, chars@, finals@, asc@),
            old(self).ok(chars@.len(), sc.lines.len()),
            old(self).wave is None,
        ensures
            final(self).ok(chars@.len(), sc.lines.len()),
            final(self).state() == maybe_wave(sc, old(self).state()),
    {
        let hit = self.rng.draw_at_most(WAVE_CHANCE_LIMIT);
        if hit && asc.len() > 0 {
            self.restore_glitching_lines(chars, finals, asc, Ghost(sc));
            self.launch_wave(asc.len(), Ghost(sc));
        }
    }

    fn wave_step(
        &mut self,
        chars: &[PlacedCharacter],
        finals: &[Color],
        asc: &Vec<Vec<u32>>,
        colors: &Vec<Color>,
        Ghost(sc): Ghost<TapeScene>,
    )
        requires
            scene_fits(sc, chars@, finals@, asc@),
            old(self).ok(chars@.len(), sc.lines.len()),
            old(self).wave is Some,
            colors@ == glitch_colors(),
        ensures
            final(self).ok(chars@.len(), sc.lines.len()),
            final(self).state() == wave_frame(sc, old(self).state(), old(self).wave->0),
    {
        let w = match self.wave {
            Some(w) => w,
            None => Wave { head: 0, dir: 1, offset: 0 },
        };
        let ghost st = self.state();
        let back: isize = w.head - w.dir * 3;
        if back >= 0 && (back as usize) < asc.len() {
            self.restore_line_at(chars, finals, asc, back as usize, Ghost(sc));
        }
        proof {
            let b = w.head - w.dir * 3;
            assert(self.state() == (if 0 <= b < sc.lines.len() { restore_line(sc, b, st) } else { st }));
        }
        if w.head >= 0 && (w.head as usize) < asc.len() {
            self.glitch_line_at(chars, finals, asc, w.head as usize, w.offset, colors, Ghost(sc));
            self.wave = Some(Wave { head: w.head + w.dir, ..w });
        } else {
            self.restore_glitching_lines(chars, finals, asc, Ghost(sc));
            self.wave = None;
        }
    }

    /// Runs one frame of the tape.
    fn step(
        &mut self,
        chars: &[PlacedCharacter],
        finals: &[Color],
        asc: &Vec<Vec<u32>>,
        line_colors: &Vec<Color>,
        snow: &Vec<Color>,
        Ghost(sc): Ghost<TapeScene>,
    )
        requires
            scene_fits(sc, chars@, finals@, asc@),
            old(self).ok(chars@.len(), sc.lines.len()),
            line_colors@ == glitch_colors(),
            snow@ == noise_colors(),
        ensures
            final(self).ok(chars@.len(), sc.lines.len()),
            final(self).state() == tape_step(sc, old(self).state()),
    {
        let ghost st = self.state();
        match self.wave {
            Some(_) => self.wave_step(chars, finals, asc, line_colors, Ghost(sc)),
            None => {
                self.line_turns(chars, finals, asc, line_colors, Ghost(sc));
                self.maybe_start_wave(chars, finals, asc, Ghost(sc));
            },
        }
        let ghost t = self.state();
        proof {
            assert(t == (match st.wave {
                Some(w) => wave_frame(sc, st, w),
                None => maybe_wave(sc, line_pass(sc, st, sc.lines.len())),
            }));
        }
        if self.rng.draw_at_most(NOISE_CHANCE_LIMIT) {
            self.snow_every_line(chars, finals, asc, snow, Ghost(sc));
        }
    }

    fn draw(&self, canvas: &mut Canvas) -> (f: String)
        requires
            old(canvas).wf(),
            old(canvas).width < 0x4000_0000,
            old(canvas).height < 0x4000_0000,
            self.pos@.len() == self.looks@.len(),
        ensures
            final(canvas).wf(),
            final(canvas).width == old(canvas).width,
            final(canvas).height == old(canvas).height,
            f@ == picture(old(canvas).width as nat, old(canvas).height as nat, tape_sprites(self.state())),
    {
        let mut sprites: Vec<(Coord, CharacterVisual)> = Vec::new();
        let mut c: usize = 0;
        while c < self.pos.len()
            invariant
                self.pos@.len() == self.looks@.len(),
                c <= self.pos@.len(),
                sprite_texts(sprites@) == tape_sprites(self.state()).take(c as int),
            decreases self.pos@.len() - c,
        {
            let ghost before = sprites@;
            sprites.push((self.pos[c], self.looks[c].clone()));
            proof {
                assert(sprite_texts(sprites@) =~= sprite_texts(before).push((self.pos@[c as int], formatted(self.looks@[c as int]))));
                assert(tape_sprites(self.state()).take(c + 1) =~= tape_sprites(self.state()).take(c as int).push(
                    tape_sprites(self.state())[c as int],
                ));
            }
            c = c + 1;
        }
        proof {
            assert(tape_sprites(self.state()).take(c as int) =~= tape_sprites(self.state()));
        }
        draw_frame(canvas, sprites.as_slice())
    }
}

proof fn lemma_nonempty_count(ss: Seq<Seq<u32>>)
    requires
        forall|g: int| 0 <= g < ss.len() ==> #[trigger] ss[g].len() > 0,
    ensures
        ss.len() <= ss.flatten_alt().len(),
    decreases ss.len(),
{
    if ss.len() > 0 {
        lemma_nonempty_count(ss.drop_last());
    }
}

proof fn lemma_row_count(chars: Seq<PlacedCharacter>)
    ensures
        text_rows(chars).len() <= chars.len(),
{
    let keys = chars.map_values(|c: PlacedCharacter| c.coord.row as i64);
    let ids = Seq::new(chars.len(), |i: int| i as u32);
    lemma_buckets_concat(keys, ids);
    lemma_nonempty_count(buckets(keys, ids));
    let t = tagged(keys, ids);
    t.sort_by(key_order()).to_multiset_ensures();
    t.to_multiset_ensures();
}

/// The text as it settles: every character at its place in its final color.
pub open spec fn settled_tape(chars: Seq<PlacedCharacter>, finals: Seq<Color>) -> Seq<(Coord, Seq<char>)> {
    Seq::new(chars.len(), |c: int| (chars[c].coord, fg_text(chars[c].symbol@, finals[c])))
}

proof fn lemma_restored(sc: TapeScene, members: Seq<u32>, st: TapeView, m: nat)
    requires
        m <= members.len(),
        sc.chars.len() <= u32::MAX,
        st.pos.len() == sc.chars.len(),
        st.looks.len() == sc.chars.len(),
    ensures
        restored(sc, members, st, m).pos.len() == sc.chars.len(),
        restored(sc, members, st, m).looks.len() == sc.chars.len(),
        restored(sc, members, st, m).glitching == st.glitching,
        restored(sc, members, st, m).hold == st.hold,
        forall|c: int|
            0 <= c < sc.chars.len() ==> if #[trigger] members.take(m as int).contains(c as u32) {
                restored(sc, members, st, m).pos[c] == sc.chars[c].coord && restored(sc, members, st, m).looks[c].1 == fg_text(
                    sc.chars[c].symbol@,
                    sc.finals[c],
                )
            } else {
                restored(sc, members, st, m).pos[c] == st.pos[c] && restored(sc, members, st, m).looks[c] == st.looks[c]
            },
    decreases m,
{
    if m > 0 {
        lemma_restored(sc, members, st, (m - 1) as nat);
        let pre = members.take(m - 1);
        let all = members.take(m as int);
        assert(all =~= pre.push(members[m - 1]));
        assert forall|c: int| 0 <= c < sc.chars.len() implies #[trigger] all.contains(c as u32) == (pre.contains(c as u32)
            || members[m - 1] == c as u32) by {
            if all.contains(c as u32) {
                let j = choose|j: int| 0 <= j < all.len() && #[trigger] all[j] == c as u32;
                if j < m - 1 {
                    assert(pre[j] == c as u32);
                }
            }
            if pre.contains(c as u32) {
                let j = choose|j: int| 0 <= j < pre.len() && #[trigger] pre[j] == c as u32;
                assert(all[j] == c as u32);
            }
            if members[m - 1] == c as u32 {
                assert(all[m - 1] == c as u32);
            }
        }
        let t = restored(sc, members, st, (m - 1) as nat);
        let r = restored(sc, members, st, m);
        let id = members[m - 1] as int;
        assert forall|c: int| 0 <= c < sc.chars.len() implies (if #[trigger] all.contains(c as u32) {
            r.pos[c] == sc.chars[c].coord && r.looks[c].1 == fg_text(sc.chars[c].symbol@, sc.finals[c])
        } else {
            r.pos[c] == st.pos[c] && r.looks[c] == st.looks[c]
        }) by {
            assert(pre.contains(c as u32) ==> t.pos[c] == sc.chars[c].coord && t.looks[c].1 == fg_text(
                sc.chars[c].symbol@,
                sc.finals[c],
            ));
            assert(!pre.contains(c as u32) ==> t.pos[c] == st.pos[c] && t.looks[c] == st.looks[c]);
            if c != id {
                assert(members[m - 1] != c as u32);
                assert(r.pos[c] == t.pos[c] && r.looks[c] == t.looks[c]);
            }
        }
    } else {
        assert forall|c: int| 0 <= c < sc.chars.len() implies !(#[trigger] members.take(m as int).contains(c as u32)) by {
            assert(members.take(0).len() == 0);
        }
    }
}

proof fn lemma_restore_all(sc: TapeScene, st: TapeView, m: nat)
    requires
        m <= sc.lines.len(),
        sc.chars.len() <= u32::MAX,
        st.pos.len() == sc.chars.len(),
        st.looks.len() == sc.chars.len(),
        st.glitching.len() == sc.lines.len(),
        st.hold.len() == sc.lines.len(),
    ensures
        restore_all(sc, st, m).pos.len() == sc.chars.len(),
        restore_all(sc, st, m).looks.len() == sc.chars.len(),
        restore_all(sc, st, m).glitching.len() == sc.lines.len(),
        restore_all(sc, st, m).hold.len() == sc.lines.len(),
        forall|c: int, g: int|
            0 <= c < sc.chars.len() && 0 <= g < m && #[trigger] sc.lines[g].contains(c as u32) ==> restore_all(sc, st, m).pos[c]
                == sc.chars[c].coord && restore_all(sc, st, m).looks[c].1 == fg_text(sc.chars[c].symbol@, sc.finals[c]),
    decreases m,
{
    if m > 0 {
        let prev = restore_all(sc, st, (m - 1) as nat);
        lemma_restore_all(sc, st, (m - 1) as nat);
        let members = sc.lines[m - 1];
        lemma_restored(sc, members, prev, members.len());
        assert(members.take(members.len() as int) =~= members);
        let r = restore_all(sc, st, m);
        let q = restored(sc, members, prev, members.len());
        assert(r.pos == q.pos && r.looks == q.looks);
        assert forall|c: int, g: int|
            0 <= c < sc.chars.len() && 0 <= g < m && #[trigger] sc.lines[g].contains(c as u32) implies r.pos[c]
                == sc.chars[c].coord && r.looks[c].1 == fg_text(sc.chars[c].symbol@, sc.finals[c]) by {
            if members.contains(c as u32) {
                assert(members.take(members.len() as int).contains(c as u32));
            } else {
                assert(!members.take(members.len() as int).contains(c as u32));
                assert(g < m - 1);
            }
        }
    }
}

proof fn lemma_flatten_member(ss: Seq<Seq<u32>>, x: u32)
    requires
        ss.flatten_alt().contains(x),
    ensures
        exists|g: int| 0 <= g < ss.len() && #[trigger] ss[g].contains(x),
    decreases ss.len(),
{
    if ss.len() > 0 {
        let flat = ss.flatten_alt();
        let j = choose|j: int| 0 <= j < flat.len() && #[trigger] flat[j] == x;
        let head = ss.drop_last().flatten_alt();
        if j < head.len() {
            assert(head[j] == x);
            lemma_flatten_member(ss.drop_last(), x);
            let g = choose|g: int| 0 <= g < ss.drop_last().len() && #[trigger] ss.drop_last()[g].contains(x);
            assert(ss[g] == ss.drop_last()[g]);
        } else {
            assert(ss.last()[j - head.len()] == x);
            assert(ss[ss.len() - 1].contains(x));
        }
    }
}

proof fn lemma_every_char_in_a_row(chars: Seq<PlacedCharacter>, c: int)
    requires
        0 <= c < chars.len(),
        chars.len() <= u32::MAX,
    ensures
        exists|g: int| 0 <= g < text_rows(chars).len() && #[trigger] text_rows(chars)[g].contains(c as u32),
{
    let keys = chars.map_values(|p: PlacedCharacter| p.coord.row as i64);
    let ids = Seq::new(chars.len(), |i: int| i as u32);
    let t = tagged(keys, ids);
    lemma_buckets_concat(keys, ids);
    let sorted = t.sort_by(key_order());
    t.to_multiset_ensures();
    sorted.to_multiset_ensures();
    assert(t[c] == (keys[c], c as i64, c as u32));
    assert(t.contains(t[c]));
    assert(t.to_multiset().count(t[c]) > 0);
    assert(sorted.contains(t[c]));
    let j = choose|j: int| 0 <= j < sorted.len() && #[trigger] sorted[j] == t[c];
    let flat = buckets(keys, ids).flatten_alt();
    assert(flat[j] == c as u32);
    assert(flat.contains(c as u32));
    lemma_flatten_member(buckets(keys, ids), c as u32);
    let b = buckets(keys, ids);
    let g = choose|g: int| 0 <= g < b.len() && #[trigger] b[g].contains(c as u32);
    assert(text_rows(chars)[b.len() - 1 - g] == b[g]);
}

/// Law: however the tape has played, restoring every line shows the settled text: each
/// character at its place in its final color.
pub proof fn lemma_tape_settles(chars: Seq<PlacedCharacter>, finals: Seq<Color>, st: TapeView)
    requires
        finals.len() == chars.len(),
        chars.len() <= u32::MAX,
        st.pos.len() == chars.len(),
        st.looks.len() == chars.len(),
        st.glitching.len() == text_rows(chars).len(),
        st.hold.len() == text_rows(chars).len(),
    ensures
        tape_sprites(restore_all(tape_scene(chars, finals), st, text_rows(chars).len())) == settled_tape(chars, finals),
{
    let sc = tape_scene(chars, finals);
    let r = restore_all(sc, st, sc.lines.len());
    lemma_restore_all(sc, st, sc.lines.len());
    assert forall|c: int| 0 <= c < chars.len() implies #[trigger] tape_sprites(r)[c] == settled_tape(chars, finals)[c] by {
        lemma_every_char_in_a_row(chars, c);
        let g = choose|g: int| 0 <= g < text_rows(chars).len() && #[trigger] text_rows(chars)[g].contains(c as u32);
        assert(sc.lines[g].contains(c as u32));
    }
    assert(tape_sprites(r) =~= settled_tape(chars, finals));
}

impl Vhstape {
    /// The frames of the effect for the characters laid out on `canvas`, character `c`
    /// settling in `final_colors[c]`, the generator starting at `seed` (the state
    /// `Rng::from_input` gives for the input): 1000 frames of the tape playing (frame `k`
    /// shows `tape_after` `k + 1` frames), then 6 frames of the settled text.
    /// Without characters, no frames.
    pub fn frames(&self, canvas: &mut Canvas, chars: &[PlacedCharacter], final_colors: &[Color], seed: u64) -> (frames: Vec<String>)
        requires
            old(canvas).wf(),
            old(canvas).width < 0x4000_0000,
            old(canvas).height < 0x4000_0000,
            final_colors@.len() == chars@.len(),
            chars@.len() < 0x1000_0000,
            forall|c: int| 0 <= c < chars@.len() ==> -0x1000_0000 < #[trigger] chars@[c].coord.column < 0x1000_0000,
        ensures
            final(canvas).wf(),
            final(canvas).width == old(canvas).width,
            final(canvas).height == old(canvas).height,
            ({
                let w = old(canvas).width as nat;
                let h = old(canvas).height as nat;
                let sc = tape_scene(chars@, final_colors@);
                let start = tape_start(sc, seed);
                if chars@.len() == 0 {
                    frames@.len() == 0
                } else {
                    &&& frames@.len() == 1006
                    &&& forall|k: int| 0 <= k < 1000 ==> #[trigger] frames@[k]@ == picture(
                        w,
                        h,
                        tape_sprites(tape_after(sc, start, (k + 1) as nat)),
                    )
                    &&& forall|k: int| 1000 <= k < 1006 ==> #[trigger] frames@[k]@ == picture(w, h, settled_tape(chars@, final_colors@))
                }
            }),
    {
        let ghost w = canvas.width as nat;
        let ghost h = canvas.height as nat;
        let mut frames: Vec<String> = Vec::new();
        let n = chars.len();
        if n == 0 {
            return frames;
        }
        let ghost sc = tape_scene(chars@, final_colors@);
        let ghost start = tape_start(sc, seed);
        let mut keys: Vec<i64> = Vec::new();
        let mut ids: Vec<u32> = Vec::new();
        let mut pos: Vec<Coord> = Vec::new();
        let mut looks: Vec<CharacterVisual> = Vec::new();
        let mut i: usize = 0;
        while i < n
            invariant
                n == chars@.len(),
                n < 0x1000_0000,
                i <= n,
                keys@ == chars@.map_values(|c: PlacedCharacter| c.coord.row as i64).take(i as int),
                ids@ == Seq::new(i as nat, |j: int| j as u32),
                pos@ == chars@.map_values(|p: PlacedCharacter| p.coord).take(i as int),
                looks_view(looks@) == chars@.map_values(|p: PlacedCharacter| (p.visual.symbol@, formatted(p.visual))).take(i as int),
                looks@.len() == i,
            decreases n - i,
        {
            keys.push(chars[i].coord.row as i64);
            ids.push(i as u32);
            pos.push(chars[i].coord);
            let ghost before = looks@;
            looks.push(chars[i].visual.clone());
            proof {
                assert(keys@ =~= chars@.map_values(|c: PlacedCharacter| c.coord.row as i64).take(i + 1));
                assert(ids@ =~= Seq::new((i + 1) as nat, |j: int| j as u32));
                assert(pos@ =~= chars@.map_values(|p: PlacedCharacter| p.coord).take(i + 1));
                assert(looks_view(looks@) =~= chars@.map_values(|p: PlacedCharacter| (p.visual.symbol@, formatted(p.visual))).take(
                    i + 1,
                ));
            }
            i = i + 1;
        }
        proof {
            assert(keys@ =~= chars@.map_values(|c: PlacedCharacter| c.coord.row as i64));
            assert(ids@ =~= Seq::new(n as nat, |j: int| j as u32));
            assert(pos@ =~= chars@.map_values(|p: PlacedCharacter| p.coord));
            assert(looks_view(looks@) =~= chars@.map_values(|p: PlacedCharacter| (p.visual.symbol@, formatted(p.visual))));
        }
        let asc = bucket_ids(keys.as_slice(), ids.as_slice());
        let count = asc.len();
        proof {
            lemma_row_count(chars@);
            assert(sc.lines.len() == count);
            assert forall|g: int| 0 <= g < count implies #[trigger] sc.lines[g] == asc@[count - 1 - g]@ by {
                assert(group_views(asc@)[count - 1 - g] == asc@[count - 1 - g]@);
            }
            assert(scene_fits(sc, chars@, final_colors@, asc@));
        }
        let mut glitching: Vec<bool> = Vec::new();
        let mut hold: Vec<u32> = Vec::new();
        let mut g: usize = 0;
        while g < count
            invariant
                g <= count,
                glitching@ == Seq::new(g as nat, |i: int| false),
                hold@ == Seq::new(g as nat, |i: int| 0u32),
            decreases count - g,
        {
            glitching.push(false);
            hold.push(0);
            proof {
                assert(glitching@ =~= Seq::new((g + 1) as nat, |i: int| false));
                assert(hold@ =~= Seq::new((g + 1) as nat, |i: int| 0u32));
            }
            g = g + 1;
        }
        let line_colors = vec![
            Color::rgb(255, 255, 255),
            Color::rgb(255, 0, 0),
            Color::rgb(0, 255, 0),
            Color::rgb(0, 0, 255),
            Color::rgb(255, 255, 255),
        ];
        let snow = vec![
            Color::rgb(0x1e, 0x1e, 0x1f),
            Color::rgb(0x3c, 0x3b, 0x3d),
            Color::rgb(0x6d, 0x6c, 0x70),
            Color::rgb(0xa2, 0xa1, 0xa6),
            Color::rgb(0xcb, 0xc9, 0xcf),
            Color::rgb(0xff, 0xff, 0xff),
        ];
        proof {
            assert(line_colors@ =~= glitch_colors());
            assert(snow@ =~= noise_colors());
        }
        let mut tape = Tape { pos, looks, glitching, hold, wave: None, rng: Rng { state: seed } };
        proof {
            assert(tape.state() == start);
        }
        let mut k: usize = 0;
        while k < 1000
            invariant
                canvas.wf(),
                canvas.width == w,
                canvas.height == h,
                canvas.width < 0x4000_0000,
                canvas.height < 0x4000_0000,
                n == chars@.len(),
                scene_fits(sc, chars@, final_colors@, asc@),
                sc == tape_scene(chars@, final_colors@),
                start == tape_start(sc, seed),
                line_colors@ == glitch_colors(),
                snow@ == noise_colors(),
                tape.ok(n as nat, sc.lines.len()),
                tape.state() == tape_after(sc, start, k as nat),
                k <= 1000,
                frames@.len() == k,
                forall|q: int| 0 <= q < k ==> #[trigger] frames@[q]@ == picture(w, h, tape_sprites(tape_after(sc, start, (q + 1) as nat))),
            decreases 1000 - k,
        {
            tape.step(chars, final_colors, &asc, &line_colors, &snow, Ghost(sc));
            let fr = tape.draw(canvas);
            let ghost earlier = frames@;
            frames.push(fr);
            k = k + 1;
            proof {
                assert forall|q: int| 0 <= q < k implies #[trigger] frames@[q]@ == picture(
                    w,
                    h,
                    tape_sprites(tape_after(sc, start, (q + 1) as nat)),
                ) by {
                    if q < k - 1 {
                        assert(frames@[q] == earlier[q]);
                    }
                }
            }
        }
        tape.restore_every_line(chars, final_colors, &asc, Ghost(sc));
        proof {
            lemma_tape_settles(chars@, final_colors@, tape_after(sc, start, 1000));
        }
        let held = tape.draw(canvas);
        let mut j: usize = 0;
        while j < 6
            invariant
                j <= 6,
                frames@.len() == 1000 + j,
                held@ == picture(w, h, settled_tape(chars@, final_colors@)),
                forall|q: int| 0 <= q < 1000 ==> #[trigger] frames@[q]@ == picture(w, h, tape_sprites(tape_after(sc, start, (q + 1) as nat))),
                forall|q: int| 1000 <= q < 1000 + j ==> #[trigger] frames@[q]@ == held@,
            decreases 6 - j,
        {
            let ghost earlier = frames@;
            frames.push(held.clone());
            proof {
                assert forall|q: int| 0 <= q < 1000 implies #[trigger] frames@[q]@ == picture(
                    w,
                    h,
                    tape_sprites(tape_after(sc, start, (q + 1) as nat)),
                ) by {
                    assert(frames@[q] == earlier[q]);
                }
                assert forall|q: int| 1000 <= q < 1000 + j + 1 implies #[trigger] frames@[q]@ == held@ by {
                    if q < 1000 + j {
                        assert(frames@[q] == earlier[q]);
                    }
                }
            }
            j = j + 1;
        }
        frames
    }
}

} // verus!
