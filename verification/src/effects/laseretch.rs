//! Laser etch: a beam traces the glyphs along a nearest-neighbour tour, and
//! the etched characters cool into their final colors.
use vstd::prelude::*;

use crate::animation::{formatted, sgr_opt, sgr_reset, CharacterVisual};
use crate::canvas::{picture, sprite_texts, Canvas};
use crate::geometry::{find_coords_on_line, lemma_walk_is_line, line_walk, Coord};
use crate::graphics::{from_hex_splits_char, gradient_spectrum, hex_or_white, lemma_gradient_stops, Color, ColorPair, Gradient};
use crate::terminal::{draw_frame, PlacedCharacter};
use crate::text::chars_of;

verus! {

/// The laseretch effect.
#[derive(Clone, Copy, Debug, PartialEq, Eq, Structural)]
pub struct Laseretch;

impl Laseretch {
    pub fn new() -> (e: Self)
        ensures
            e == Laseretch,
    {
        Laseretch
    }

    pub fn name(&self) -> (n: &'static str)
        ensures
            n@ == "laseretch"@,
    {
        "laseretch"
    }
}

impl Default for Laseretch {
    fn default() -> (e: Self)
        ensures
            e == Laseretch,
    {
        Laseretch::new()
    }
}

/// What the etching needs of a character: identifier, home, glyph and input colors.
pub struct EtchChar {
    pub id: u32,
    pub coord: Coord,
    pub symbol: String,
    pub fg: Option<Color>,
    pub bg: Option<Color>,
}

/// The color `s` names, white when it names none.
pub fn hex(s: &str) -> (c: Color)
    requires
        !from_hex_splits_char(s@),
    ensures
        c == hex_or_white(s@),
{
    match Color::from_hex(s) {
        Some(c) => c,
        None => Color::rgb(255, 255, 255),
    }
}

/// Whether the laser etches a character: anything but a bare space.
pub fn is_etchable(info: &EtchChar) -> (b: bool)
    ensures
        b == (info.symbol@ != " "@ || info.fg is Some || info.bg is Some),
{
    let chars = chars_of(info.symbol.as_str());
    proof {
        reveal_strlit(" ");
    }
    let space = chars.len() == 1 && chars[0] == ' ';
    proof {
        if space {
            assert(info.symbol@ =~= " "@);
        }
        if info.symbol@ == " "@ {
            assert(chars@.len() == 1);
        }
    }
    !space || info.fg.is_some() || info.bg.is_some()
}

/// Whether every etched character has cooled for `cool_total` frames.
pub fn all_cooled(age: &[Option<usize>], cool_total: usize) -> (b: bool)
    ensures
        b == (forall|i: int| 0 <= i < age@.len() ==> match #[trigger] age@[i] {
            Some(v) => v >= cool_total,
            None => true,
        }),
{
    let mut i: usize = 0;
    while i < age.len()
        invariant
            i <= age@.len(),
            forall|k: int| 0 <= k < i ==> match #[trigger] age@[k] {
                Some(v) => v >= cool_total,
                None => true,
            },
        decreases age.len() - i,
    {
        match age[i] {
            Some(v) => {
                if v < cool_total {
                    return false;
                }
            },
            None => {},
        }
        i = i + 1;
    }
    true
}

/// Whether every etchable character has been etched.
pub fn cooled_or_shown(age: &[Option<usize>], etchable: &[usize]) -> (b: bool)
    requires
        forall|i: int| 0 <= i < etchable@.len() ==> (#[trigger] etchable@[i] as int) < age@.len(),
    ensures
        b == (forall|i: int| 0 <= i < etchable@.len() ==> #[trigger] age@[etchable@[i] as int] is Some),
{
    let mut i: usize = 0;
    while i < etchable.len()
        invariant
            i <= etchable@.len(),
            forall|k: int| 0 <= k < etchable@.len() ==> (#[trigger] etchable@[k] as int) < age@.len(),
            forall|k: int| 0 <= k < i ==> #[trigger] age@[etchable@[k] as int] is Some,
        decreases etchable.len() - i,
    {
        if age[etchable[i]].is_none() {
            return false;
        }
        i = i + 1;
    }
    true
}

/// Squared distance between two cells.
pub open spec fn dist2(a: Coord, b: Coord) -> int {
    (a.column - b.column) * (a.column - b.column) + (a.row - b.row) * (a.row - b.row)
}

/// Position among the first `n` remaining characters of the first one nearest `current`.
pub open spec fn nearest_pos(coords: Seq<Coord>, remaining: Seq<usize>, current: Coord, n: nat) -> int
    decreases n,
{
    if n <= 1 {
        0
    } else {
        let b = nearest_pos(coords, remaining, current, (n - 1) as nat);
        if dist2(coords[remaining[n - 1] as int], current) < dist2(coords[remaining[b] as int], current) {
            n - 1
        } else {
            b
        }
    }
}

/// The greedy tour: from `current`, repeatedly go to the nearest remaining character
/// (the first of equals), until none remain.
pub open spec fn tour(coords: Seq<Coord>, remaining: Seq<usize>, current: Coord) -> Seq<usize>
    decreases remaining.len(),
{
    if remaining.len() == 0 {
        Seq::empty()
    } else {
        let b = nearest_pos(coords, remaining, current, remaining.len());
        if 0 <= b < remaining.len() {
            let idx = remaining[b];
            seq![idx] + tour(coords, remaining.remove(b), coords[idx as int])
        } else {
            Seq::empty()
        }
    }
}

proof fn lemma_nearest_in_range(coords: Seq<Coord>, remaining: Seq<usize>, current: Coord, n: nat)
    requires
        1 <= n,
    ensures
        0 <= nearest_pos(coords, remaining, current, n) < n,
    decreases n,
{
    if n > 1 {
        lemma_nearest_in_range(coords, remaining, current, (n - 1) as nat);
    }
}

/// Cells close enough to the origin for squared distances to fit an `i64`.
pub open spec fn near_origin(c: Coord) -> bool {
    -0x4000_0000 < c.column < 0x4000_0000 && -0x4000_0000 < c.row < 0x4000_0000
}

fn distance2(a: Coord, b: Coord) -> (d: i64)
    requires
        near_origin(a),
        near_origin(b),
    ensures
        d == dist2(a, b),
        d < 0x7fff_ffff_ffff_ffff,
{
    let dc = a.column as i64 - b.column as i64;
    let dr = a.row as i64 - b.row as i64;
    assert(0 <= dc * dc <= 0x3FFF_FFFF_0000_0001) by (nonlinear_arith)
        requires -0x8000_0000 < dc < 0x8000_0000;
    assert(0 <= dr * dr <= 0x3FFF_FFFF_0000_0001) by (nonlinear_arith)
        requires -0x8000_0000 < dr < 0x8000_0000;
    dc * dc + dr * dr
}

/// The order the laser visits the etchable characters: nearest neighbour first, from
/// `start`.
pub fn nearest_neighbor(infos: &[EtchChar], etchable: &[usize], start: Coord) -> (order: Vec<usize>)
    requires
        near_origin(start),
        forall|i: int| 0 <= i < infos@.len() ==> near_origin(#[trigger] infos@[i].coord),
        forall|i: int| 0 <= i < etchable@.len() ==> (#[trigger] etchable@[i] as int) < infos@.len(),
    ensures
        order@ == tour(infos@.map_values(|e: EtchChar| e.coord), etchable@, start),
{
    let ghost coords = infos@.map_values(|e: EtchChar| e.coord);
    let mut remaining: Vec<usize> = Vec::new();
    let mut k: usize = 0;
    while k < etchable.len()
        invariant
            k <= etchable@.len(),
            remaining@ == etchable@.take(k as int),
        decreases etchable.len() - k,
    {
        remaining.push(etchable[k]);
        proof {
            assert(remaining@ =~= etchable@.take(k + 1));
        }
        k = k + 1;
    }
    proof {
        assert(remaining@ =~= etchable@);
    }
    let mut order: Vec<usize> = Vec::new();
    let mut current = start;
    while remaining.len() > 0
        invariant
            coords == infos@.map_values(|e: EtchChar| e.coord),
            near_origin(current),
            forall|i: int| 0 <= i < infos@.len() ==> near_origin(#[trigger] infos@[i].coord),
            forall|i: int| 0 <= i < remaining@.len() ==> (#[trigger] remaining@[i] as int) < infos@.len(),
            order@ + tour(coords, remaining@, current) == tour(coords, etchable@, start),
        decreases remaining.len(),
    {
        let mut best: usize = 0;
        let mut best_d: i64 = i64::MAX;
        let mut ri: usize = 0;
        while ri < remaining.len()
            invariant
                coords == infos@.map_values(|e: EtchChar| e.coord),
                near_origin(current),
                forall|i: int| 0 <= i < infos@.len() ==> near_origin(#[trigger] infos@[i].coord),
                forall|i: int| 0 <= i < remaining@.len() ==> (#[trigger] remaining@[i] as int) < infos@.len(),
                remaining@.len() > 0,
                ri <= remaining@.len(),
                ri == 0 ==> best == 0 && best_d == i64::MAX,
                ri > 0 ==> best == nearest_pos(coords, remaining@, current, ri as nat) && best < ri
                    && best_d == dist2(coords[remaining@[best as int] as int], current),
            decreases remaining.len() - ri,
        {
            let idx = remaining[ri];
            proof {
                assert(coords[idx as int] == infos@[idx as int].coord);
            }
            let d = distance2(infos[idx].coord, current);
            if d < best_d {
                best_d = d;
                best = ri;
            }
            proof {
                if ri > 0 {
                    lemma_nearest_in_range(coords, remaining@, current, ri as nat);
                }
            }
            ri = ri + 1;
        }
        proof {
            lemma_nearest_in_range(coords, remaining@, current, remaining@.len());
        }
        let ghost before = remaining@;
        let idx = remaining.remove(best);
        proof {
            assert(coords[idx as int] == infos@[idx as int].coord);
            assert(tour(coords, before, current) == seq![idx] + tour(coords, remaining@, coords[idx as int]));
            assert forall|i: int| 0 <= i < remaining@.len() implies (#[trigger] remaining@[i] as int) < infos@.len() by {
                if i < best {
                    assert(remaining@[i] == before[i]);
                } else {
                    assert(remaining@[i] == before[i + 1]);
                }
            }
        }
        current = infos[idx].coord;
        order.push(idx);
        proof {
            assert(order@ + tour(coords, remaining@, current) =~= (order@.drop_last() + seq![idx]) + tour(
                coords,
                remaining@,
                current,
            ));
        }
    }
    proof {
        assert(order@ + tour(coords, remaining@, current) =~= order@);
    }
    order
}


proof fn lemma_tour_members(coords: Seq<Coord>, remaining: Seq<usize>, current: Coord, bound: nat)
    requires
        forall|i: int| 0 <= i < remaining.len() ==> (#[trigger] remaining[i] as int) < bound,
    ensures
        forall|i: int|
            0 <= i < tour(coords, remaining, current).len() ==> (#[trigger] tour(coords, remaining, current)[i] as int) < bound,
    decreases remaining.len(),
{
    if remaining.len() > 0 {
        let b = nearest_pos(coords, remaining, current, remaining.len());
        lemma_nearest_in_range(coords, remaining, current, remaining.len());
        let idx = remaining[b];
        let rest = remaining.remove(b);
        assert forall|i: int| 0 <= i < rest.len() implies (#[trigger] rest[i] as int) < bound by {
            if i < b {
                assert(rest[i] == remaining[i]);
            } else {
                assert(rest[i] == remaining[i + 1]);
            }
        }
        lemma_tour_members(coords, rest, coords[idx as int], bound);
        let t = tour(coords, remaining, current);
        assert forall|i: int| 0 <= i < t.len() implies (#[trigger] t[i] as int) < bound by {
            if i > 0 {
                assert(t[i] == tour(coords, rest, coords[idx as int])[i - 1]);
            }
        }
    }
}

/// Whether the laser etches a character: anything but a bare space.
pub open spec fn etches(ch: PlacedCharacter) -> bool {
    ch.symbol@ != " "@ || ch.fg is Some || ch.bg is Some
}

/// The positions of the etched characters among the first `m`.
pub open spec fn etchable_ids(chars: Seq<PlacedCharacter>, m: nat) -> Seq<usize>
    decreases m,
{
    if m == 0 {
        Seq::empty()
    } else if etches(chars[m - 1]) {
        etchable_ids(chars, (m - 1) as nat).push((m - 1) as usize)
    } else {
        etchable_ids(chars, (m - 1) as nat)
    }
}

/// The corner the laser starts from: the top right of a `width` by `height` canvas.
pub open spec fn emitter(width: nat, height: nat) -> Coord {
    Coord { column: width as i32, row: height as i32 }
}

/// The points the laser visits: the emitter, then the characters in tour order.
pub open spec fn waypoints(chars: Seq<PlacedCharacter>, e: Coord) -> Seq<Coord> {
    let t = tour(chars.map_values(|c: PlacedCharacter| c.coord), etchable_ids(chars, chars.len()), e);
    seq![e] + t.map_values(|i: usize| chars[i as int].coord)
}

/// The cells of the lines through `points` in turn, each joint once.
pub open spec fn route(points: Seq<Coord>) -> Seq<Coord>
    decreases points.len(),
{
    if points.len() <= 1 {
        points
    } else {
        route(points.drop_last()) + line_walk(points[points.len() - 2], points.last()).skip(1)
    }
}

/// The laser's path.
pub open spec fn laser_path(chars: Seq<PlacedCharacter>, e: Coord) -> Seq<Coord> {
    route(waypoints(chars, e))
}

/// The way back from the path's end to the emitter.
pub open spec fn retreat(path: Seq<Coord>, e: Coord) -> Seq<Coord> {
    line_walk(path.last(), e).skip(1)
}

/// The first of the first `m` cells of `path` that is `c`.
pub open spec fn first_visit(path: Seq<Coord>, c: Coord, m: nat) -> Option<nat>
    decreases m,
{
    if m == 0 {
        None
    } else {
        match first_visit(path, c, (m - 1) as nat) {
            Some(j) => Some(j),
            None => if path[m - 1] == c {
                Some((m - 1) as nat)
            } else {
                None
            },
        }
    }
}

/// The character etched where character `i` stands: the last etched one there.
pub open spec fn stands_for(chars: Seq<PlacedCharacter>, i: int) -> bool {
    etches(chars[i]) && forall|j: int| i < j < chars.len() && etches(#[trigger] chars[j]) ==> chars[j].coord != chars[i].coord
}

/// The frame in which character `i` is etched: when the laser, three cells a frame,
/// first passes its place.
pub open spec fn etch_frame(chars: Seq<PlacedCharacter>, path: Seq<Coord>, i: int) -> Option<nat> {
    if stands_for(chars, i) {
        match first_visit(path, chars[i].coord, path.len()) {
            Some(j) => Some(j / 3),
            None => None,
        }
    } else {
        None
    }
}

/// The colors an etched character cools through.
pub open spec fn cool_colors() -> Seq<Color> {
    gradient_spectrum(
        seq![
            Color { r: 0xe6, g: 0x3e, b: 0x31 },
            Color { r: 0xff, g: 0x9d, b: 0x00 },
            Color { r: 0x6e, g: 0x6e, b: 0x6e },
            Color { r: 0xfe, g: 0xff, b: 0xff },
        ],
        4,
    )
}

/// The color of a character `a` frames after it is etched: each cooling color held 2
/// frames, then its final color.
pub open spec fn etch_color(final_color: Color, a: int) -> Color {
    if a >= 26 {
        final_color
    } else {
        cool_colors()[a / 2]
    }
}

/// A symbol in a foreground and maybe a background color.
pub open spec fn pair_text(symbol: Seq<char>, fg: Color, bg: Option<Color>) -> Seq<char> {
    sgr_opt('3', Some(fg)) + sgr_opt('4', bg) + symbol + sgr_reset()
}

/// Frames the beam is drawn: three cells a frame along the path, then back.
pub open spec fn beam_frames(path: Seq<Coord>, back: Seq<Coord>) -> nat {
    (path.len() + 2) / 3 + (back.len() + 2) / 3
}

/// Where the laser is in frame `f`.
pub open spec fn laser_at(path: Seq<Coord>, back: Seq<Coord>, f: int) -> Coord {
    let f1 = (path.len() + 2) / 3;
    if f < f1 {
        path[if 3 * f + 2 < path.len() { 3 * f + 2 } else { path.len() - 1 }]
    } else {
        back[if 3 * (f - f1) + 2 < back.len() { 3 * (f - f1) + 2 } else { back.len() - 1 }]
    }
}

/// The beam from the emitter to the laser, and the laser.
pub open spec fn beam_sprites(e: Coord, laser: Coord) -> Seq<(Coord, Seq<char>)> {
    line_walk(e, laser).map_values(|c: Coord| (c, seq!['\u{b7}'])).push((laser, seq!['*']))
}

/// The latest frame, among the first `m` characters, by which all have cooled.
pub open spec fn cooled_by(chars: Seq<PlacedCharacter>, path: Seq<Coord>, m: nat) -> nat
    decreases m,
{
    if m == 0 {
        0
    } else {
        let r = cooled_by(chars, path, (m - 1) as nat);
        match etch_frame(chars, path, m - 1) {
            Some(e) => if e + 26 > r {
                e + 26
            } else {
                r
            },
            None => r,
        }
    }
}

/// Frames of the etching: until the beam is back and every etched character has cooled,
/// then 8 more; at most 10000.
pub open spec fn etch_frame_count(chars: Seq<PlacedCharacter>, path: Seq<Coord>, back: Seq<Coord>) -> nat {
    let b = beam_frames(path, back);
    let c = cooled_by(chars, path, chars.len());
    let g = if b > c { b } else { c };
    if g + 8 <= 10000 {
        g + 8
    } else {
        10000
    }
}

/// The etched characters in frame `f`, among the first `m`.
pub open spec fn etched_sprites(chars: Seq<PlacedCharacter>, finals: Seq<Color>, path: Seq<Coord>, f: int, m: nat) -> Seq<(Coord, Seq<char>)>
    decreases m,
{
    if m == 0 {
        Seq::empty()
    } else {
        let prev = etched_sprites(chars, finals, path, f, (m - 1) as nat);
        let i = m - 1;
        match etch_frame(chars, path, i) {
            Some(e) => if e <= f {
                prev.push((chars[i].coord, pair_text(chars[i].symbol@, etch_color(finals[i], f - e), chars[i].bg)))
            } else {
                prev
            },
            None => prev,
        }
    }
}

/// Frame `f` of the etching: the beam while it is drawn, under the etched characters.
pub open spec fn etch_sprites(chars: Seq<PlacedCharacter>, finals: Seq<Color>, e: Coord, path: Seq<Coord>, back: Seq<Coord>, f: int) -> Seq<(Coord, Seq<char>)> {
    (if f < beam_frames(path, back) {
        beam_sprites(e, laser_at(path, back, f))
    } else {
        Seq::empty()
    }) + etched_sprites(chars, finals, path, f, chars.len())
}

/// Among the first `m` characters, the etchable ones in their final colors.
pub open spec fn final_sprites(chars: Seq<PlacedCharacter>, finals: Seq<Color>, all: bool, m: nat) -> Seq<(Coord, Seq<char>)>
    decreases m,
{
    if m == 0 {
        Seq::empty()
    } else {
        let prev = final_sprites(chars, finals, all, (m - 1) as nat);
        let i = m - 1;
        if all || etches(chars[i]) {
            prev.push((chars[i].coord, pair_text(chars[i].symbol@, finals[i], chars[i].bg)))
        } else {
            prev
        }
    }
}

/// Some etchable character was not etched in the first `t` frames.
pub open spec fn left_unetched(chars: Seq<PlacedCharacter>, path: Seq<Coord>, t: nat) -> bool {
    exists|i: int|
        0 <= i < chars.len() && etches(#[trigger] chars[i]) && !(etch_frame(chars, path, i) matches Some(e) && e < t)
}

/// Cells kept near the origin, so that every line between them can be walked.
pub open spec fn in_reach(c: Coord) -> bool {
    -0x1000_0000 < c.column < 0x1000_0000 && -0x1000_0000 < c.row < 0x1000_0000
}

proof fn lemma_pair_text(v: CharacterVisual, fg: Color, bg: Option<Color>)
    requires
        !v.bold && !v.dim && !v.italic && !v.underline && !v.blink && !v.reverse && !v.hidden && !v.strike,
        v.colors == Some(ColorPair { fg: Some(fg), bg }),
    ensures
        formatted(v) == pair_text(v.symbol@, fg, bg),
{
    assert(crate::animation::attribute_codes(v) =~= Seq::<char>::empty());
    assert(crate::animation::visual_formatting(v) =~= sgr_opt('3', Some(fg)) + sgr_opt('4', bg));
    assert(sgr_opt('3', Some(fg)).len() > 0);
}

proof fn lemma_plain_text(v: CharacterVisual)
    requires
        !v.bold && !v.dim && !v.italic && !v.underline && !v.blink && !v.reverse && !v.hidden && !v.strike,
        v.colors is None,
    ensures
        formatted(v) == v.symbol@,
{
    assert(crate::animation::attribute_codes(v) =~= Seq::<char>::empty());
    assert(crate::animation::visual_formatting(v) =~= Seq::<char>::empty());
}

fn etches_exec(ch: &PlacedCharacter) -> (b: bool)
    ensures
        b == etches(*ch),
{
    let cs = chars_of(ch.symbol.as_str());
    proof {
        reveal_strlit(" ");
    }
    let space = cs.len() == 1 && cs[0] == ' ';
    proof {
        if space {
            assert(ch.symbol@ =~= " "@);
        }
        if ch.symbol@ == " "@ {
            assert(cs@.len() == 1);
        }
    }
    !space || ch.fg.is_some() || ch.bg.is_some()
}

/// The line's cells from `start` to `end`.
fn walk(start: Coord, end: Coord) -> (cells: Vec<Coord>)
    requires
        in_reach(start),
        in_reach(end),
    ensures
        cells@ == line_walk(start, end),
        cells@.len() >= 1,
        cells@[0] == start,
        forall|i: int| 0 <= i < cells@.len() ==> in_reach(#[trigger] cells@[i]),
{
    let cells = find_coords_on_line(start, end);
    proof {
        lemma_walk_is_line(cells@, start, end);
        assert forall|i: int| 0 <= i < cells@.len() implies in_reach(#[trigger] cells@[i]) by {
            let p = cells@[i];
            assert(crate::geometry::line_invariant(start, end, p));
            if start.column < end.column {
                assert(crate::geometry::sign_toward(start.column as int, end.column as int) == 1);
            } else {
                assert(crate::geometry::sign_toward(start.column as int, end.column as int) == -1);
            }
            if start.row < end.row {
                assert(crate::geometry::sign_toward(start.row as int, end.row as int) == 1);
            } else {
                assert(crate::geometry::sign_toward(start.row as int, end.row as int) == -1);
            }
        }
    }
    cells
}

proof fn lemma_route_shape(points: Seq<Coord>)
    requires
        points.len() >= 1,
    ensures
        route(points).len() >= 1,
        route(points)[0] == points[0],
    decreases points.len(),
{
    if points.len() > 1 {
        lemma_route_shape(points.drop_last());
    }
}

/// The laser's path through `e` and then the characters in `order`.
fn build_path(chars: &[PlacedCharacter], order: &[usize], e: Coord) -> (path: Vec<Coord>)
    requires
        in_reach(e),
        forall|i: int| 0 <= i < chars@.len() ==> in_reach(#[trigger] chars@[i].coord),
        forall|i: int| 0 <= i < order@.len() ==> (#[trigger] order@[i] as int) < chars@.len(),
    ensures
        path@ == route(seq![e] + order@.map_values(|i: usize| chars@[i as int].coord)),
        path@.len() >= 1,
        forall|i: int| 0 <= i < path@.len() ==> in_reach(#[trigger] path@[i]),
{
    let ghost points = seq![e] + order@.map_values(|i: usize| chars@[i as int].coord);
    let mut path: Vec<Coord> = Vec::new();
    path.push(e);
    proof {
        assert(points.take(1) =~= seq![e]);
    }
    let mut cursor = e;
    let mut k: usize = 0;
    while k < order.len()
        invariant
            points == seq![e] + order@.map_values(|i: usize| chars@[i as int].coord),
            forall|i: int| 0 <= i < chars@.len() ==> in_reach(#[trigger] chars@[i].coord),
            forall|i: int| 0 <= i < order@.len() ==> (#[trigger] order@[i] as int) < chars@.len(),
            k <= order@.len(),
            path@ == route(points.take(k + 1)),
            cursor == points[k as int],
            in_reach(cursor),
            path@.len() >= 1,
            forall|i: int| 0 <= i < path@.len() ==> in_reach(#[trigger] path@[i]),
        decreases order.len() - k,
    {
        let next = chars[order[k]].coord;
        let line = walk(cursor, next);
        let ghost before = path@;
        let mut j: usize = 1;
        while j < line.len()
            invariant
                1 <= j <= line@.len(),
                path@ == before + line@.subrange(1, j as int),
                forall|i: int| 0 <= i < line@.len() ==> in_reach(#[trigger] line@[i]),
                forall|i: int| 0 <= i < before.len() ==> in_reach(#[trigger] before[i]),
                before.len() >= 1,
            decreases line.len() - j,
        {
            path.push(line[j]);
            proof {
                assert(path@ =~= before + line@.subrange(1, j + 1));
            }
            j = j + 1;
        }
        proof {
            assert(line@.subrange(1, line@.len() as int) =~= line@.skip(1));
            let t = points.take(k + 2);
            assert(t.drop_last() =~= points.take(k + 1));
            assert(t[t.len() - 2] == cursor);
            assert(t.last() == next);
            assert forall|i: int| 0 <= i < path@.len() implies in_reach(#[trigger] path@[i]) by {
                if i >= before.len() {
                    assert(path@[i] == line@[i - before.len() + 1]);
                }
            }
        }
        cursor = next;
        k = k + 1;
    }
    proof {
        assert(points.take(order@.len() as int + 1) =~= points);
    }
    path
}

/// Whether character `i` is the one etched at its place.
fn stands_for_exec(chars: &[PlacedCharacter], etch: &[bool], i: usize) -> (b: bool)
    requires
        i < chars@.len(),
        etch@.len() == chars@.len(),
        forall|j: int| 0 <= j < chars@.len() ==> #[trigger] etch@[j] == etches(chars@[j]),
    ensures
        b == stands_for(chars@, i as int),
{
    if !etch[i] {
        return false;
    }
    let mut j: usize = i + 1;
    while j < chars.len()
        invariant
            i < j <= chars@.len(),
            etch@.len() == chars@.len(),
            forall|q: int| 0 <= q < chars@.len() ==> #[trigger] etch@[q] == etches(chars@[q]),
            forall|q: int| i < q < j && etches(#[trigger] chars@[q]) ==> chars@[q].coord != chars@[i as int].coord,
        decreases chars.len() - j,
    {
        if etch[j] && chars[j].coord == chars[i].coord {
            return false;
        }
        j = j + 1;
    }
    true
}

/// The frame in which each character is etched.
fn etch_frames_of(chars: &[PlacedCharacter], etch: &[bool], path: &[Coord]) -> (frames: Vec<Option<usize>>)
    requires
        etch@.len() == chars@.len(),
        forall|j: int| 0 <= j < chars@.len() ==> #[trigger] etch@[j] == etches(chars@[j]),
    ensures
        frames@.len() == chars@.len(),
        forall|i: int|
            0 <= i < chars@.len() ==> match #[trigger] frames@[i] {
                Some(e) => etch_frame(chars@, path@, i) == Some(e as nat),
                None => etch_frame(chars@, path@, i) is None,
            },
{
    let mut frames: Vec<Option<usize>> = Vec::new();
    let mut i: usize = 0;
    while i < chars.len()
        invariant
            i <= chars@.len(),
            etch@.len() == chars@.len(),
            forall|j: int| 0 <= j < chars@.len() ==> #[trigger] etch@[j] == etches(chars@[j]),
            frames@.len() == i,
            forall|q: int|
                0 <= q < i ==> match #[trigger] frames@[q] {
                    Some(e) => etch_frame(chars@, path@, q) == Some(e as nat),
                    None => etch_frame(chars@, path@, q) is None,
                },
        decreases chars.len() - i,
    {
        let mut found: Option<usize> = None;
        if stands_for_exec(chars, etch, i) {
            let c = chars[i].coord;
            let mut j: usize = 0;
            while j < path.len()
                invariant_except_break
                    found is None,
                invariant
                    j <= path@.len(),
                    first_visit(path@, c, j as nat) is None,
                ensures
                    found is None ==> first_visit(path@, c, path@.len()) is None,
                    found matches Some(e) ==> (first_visit(path@, c, path@.len()) matches Some(v) && e == v / 3),
                decreases path.len() - j,
            {
                if path[j] == c {
                    found = Some(j / 3);
                    proof {
                        assert(first_visit(path@, c, (j + 1) as nat) == Some(j as nat));
                        lemma_first_visit_stays(path@, c, (j + 1) as nat, path@.len());
                    }
                    break;
                }
                j = j + 1;
            }
        }
        frames.push(found);
        i = i + 1;
    }
    frames
}

proof fn lemma_first_visit_bound(path: Seq<Coord>, c: Coord, m: nat)
    ensures
        first_visit(path, c, m) matches Some(j) ==> j < m,
    decreases m,
{
    if m > 0 {
        lemma_first_visit_bound(path, c, (m - 1) as nat);
    }
}

proof fn lemma_first_visit_stays(path: Seq<Coord>, c: Coord, m: nat, to: nat)
    requires
        m <= to,
        first_visit(path, c, m) is Some,
    ensures
        first_visit(path, c, to) == first_visit(path, c, m),
    decreases to - m,
{
    if m < to {
        lemma_first_visit_stays(path, c, m, (to - 1) as nat);
    }
}

fn spectrum_vec(stops: &[Color], steps: usize) -> (v: Vec<Color>)
    ensures
        v@ == gradient_spectrum(stops@, steps),
{
    let g = Gradient::new(stops, steps);
    vstd::slice::slice_to_vec(g.spectrum())
}

/// Draws every character in its final color (only the etchable ones unless `all`).
fn final_frame(canvas: &mut Canvas, chars: &[PlacedCharacter], finals: &[Color], etch: &[bool], all: bool) -> (f: String)
    requires
        old(canvas).wf(),
        old(canvas).width < 0x4000_0000,
        old(canvas).height < 0x4000_0000,
        finals@.len() == chars@.len(),
        etch@.len() == chars@.len(),
        forall|j: int| 0 <= j < chars@.len() ==> #[trigger] etch@[j] == etches(chars@[j]),
    ensures
        final(canvas).wf(),
        final(canvas).width == old(canvas).width,
        final(canvas).height == old(canvas).height,
        f@ == picture(old(canvas).width as nat, old(canvas).height as nat, final_sprites(chars@, finals@, all, chars@.len())),
{
    let mut sprites: Vec<(Coord, CharacterVisual)> = Vec::new();
    let mut i: usize = 0;
    while i < chars.len()
        invariant
            finals@.len() == chars@.len(),
            etch@.len() == chars@.len(),
            forall|j: int| 0 <= j < chars@.len() ==> #[trigger] etch@[j] == etches(chars@[j]),
            i <= chars@.len(),
            sprite_texts(sprites@) == final_sprites(chars@, finals@, all, i as nat),
        decreases chars.len() - i,
    {
        if all || etch[i] {
            let visual = CharacterVisual::new(chars[i].symbol.as_str(), Some(ColorPair::new(Some(finals[i]), chars[i].bg)));
            proof {
                lemma_pair_text(visual, finals@[i as int], chars@[i as int].bg);
            }
            let ghost before = sprites@;
            sprites.push((chars[i].coord, visual));
            proof {
                assert(sprite_texts(sprites@) =~= sprite_texts(before).push((chars@[i as int].coord, formatted(visual))));
            }
        }
        i = i + 1;
    }
    draw_frame(canvas, sprites.as_slice())
}

impl Laseretch {
    /// The frames of the effect for the characters laid out on `canvas`, character `i`
    /// cooling to `final_colors[i]`: the laser runs from the canvas's top right corner
    /// along the nearest-neighbour tour of the etchable characters, three cells a frame,
    /// and back, its beam drawn under the characters (`etch_sprites`); each character
    /// appears when the laser first passes its place and cools 26 frames; 8 frames after
    /// the beam is back and all have cooled the etching ends, and should an etchable
    /// character never have been etched, one more frame shows them all in their final
    /// colors. With nothing to etch, one frame of the text in its final colors; without
    /// characters, one blank frame.
    pub fn frames(&self, canvas: &mut Canvas, chars: &[PlacedCharacter], final_colors: &[Color]) -> (frames: Vec<String>)
        requires
            old(canvas).wf(),
            old(canvas).width < 0x1000_0000,
            old(canvas).height < 0x1000_0000,
            final_colors@.len() == chars@.len(),
            chars@.len() < 0x100_0000,
            forall|i: int| 0 <= i < chars@.len() ==> in_reach(#[trigger] chars@[i].coord),
        ensures
            final(canvas).wf(),
            final(canvas).width == old(canvas).width,
            final(canvas).height == old(canvas).height,
            ({
                let w = old(canvas).width as nat;
                let h = old(canvas).height as nat;
                let n = chars@.len();
                let e = emitter(w, h);
                let path = laser_path(chars@, e);
                let back = retreat(path, e);
                let t = etch_frame_count(chars@, path, back);
                if n == 0 {
                    frames@.len() == 1 && frames@[0]@ == picture(w, h, Seq::empty())
                } else if etchable_ids(chars@, n).len() == 0 {
                    frames@.len() == 1 && frames@[0]@ == picture(w, h, final_sprites(chars@, final_colors@, true, n))
                } else {
                    &&& frames@.len() == t + (if left_unetched(chars@, path, t) { 1nat } else { 0nat })
                    &&& forall|k: int| 0 <= k < t ==> #[trigger] frames@[k]@ == picture(
                        w,
                        h,
                        etch_sprites(chars@, final_colors@, e, path, back, k),
                    )
                    &&& left_unetched(chars@, path, t) ==> frames@[t as int]@ == picture(
                        w,
                        h,
                        final_sprites(chars@, final_colors@, false, n),
                    )
                }
            }),
    {
        let ghost w = canvas.width as nat;
        let ghost h = canvas.height as nat;
        let mut frames: Vec<String> = Vec::new();
        let n = chars.len();
        if n == 0 {
            let none: Vec<(Coord, CharacterVisual)> = Vec::new();
            let f = draw_frame(canvas, none.as_slice());
            proof {
                assert(sprite_texts(none@) =~= Seq::empty());
            }
            frames.push(f);
            return frames;
        }
        let mut etch: Vec<bool> = Vec::new();
        let mut ids: Vec<usize> = Vec::new();
        let mut infos: Vec<EtchChar> = Vec::new();
        let mut i: usize = 0;
        while i < n
            invariant
                n == chars@.len(),
                n < 0x100_0000,
                i <= n,
                etch@.len() == i,
                forall|j: int| 0 <= j < i ==> #[trigger] etch@[j] == etches(chars@[j]),
                ids@ == etchable_ids(chars@, i as nat),
                forall|j: int| 0 <= j < ids@.len() ==> (#[trigger] ids@[j] as int) < i,
                infos@.len() == i,
                forall|j: int| 0 <= j < i ==> (#[trigger] infos@[j]).coord == chars@[j].coord,
            decreases n - i,
        {
            let b = etches_exec(&chars[i]);
            etch.push(b);
            if b {
                ids.push(i);
            }
            infos.push(EtchChar { id: i as u32, coord: chars[i].coord, symbol: String::new(), fg: chars[i].fg, bg: chars[i].bg });
            i = i + 1;
        }
        if ids.len() == 0 {
            frames.push(final_frame(canvas, chars, final_colors, etch.as_slice(), true));
            return frames;
        }
        let e = Coord::new(canvas.right, canvas.top);
        proof {
            assert(infos@.map_values(|x: EtchChar| x.coord) =~= chars@.map_values(|c: PlacedCharacter| c.coord));
            assert(e == emitter(w, h));
        }
        let order = nearest_neighbor(infos.as_slice(), ids.as_slice(), e);
        proof {
            lemma_tour_members(chars@.map_values(|c: PlacedCharacter| c.coord), ids@, e, n as nat);
        }
        let path = build_path(chars, order.as_slice(), e);
        let ghost waypts = waypoints(chars@, e);
        proof {
            assert(seq![e] + order@.map_values(|i: usize| chars@[i as int].coord) =~= waypts);
        }
        let etched = etch_frames_of(chars, etch.as_slice(), path.as_slice());
        let way_back = walk(path[path.len() - 1], e);
        let mut back: Vec<Coord> = Vec::new();
        let mut j: usize = 1;
        while j < way_back.len()
            invariant
                1 <= j <= way_back@.len(),
                back@ == way_back@.subrange(1, j as int),
                forall|q: int| 0 <= q < way_back@.len() ==> in_reach(#[trigger] way_back@[q]),
                forall|q: int| 0 <= q < back@.len() ==> in_reach(#[trigger] back@[q]),
            decreases way_back.len() - j,
        {
            back.push(way_back[j]);
            proof {
                assert(back@ =~= way_back@.subrange(1, j + 1));
            }
            j = j + 1;
        }
        proof {
            assert(back@ =~= retreat(path@, e));
        }
        let cool_stops = vec![
            Color::rgb(0xe6, 0x3e, 0x31),
            Color::rgb(0xff, 0x9d, 0x00),
            Color::rgb(0x6e, 0x6e, 0x6e),
            Color::rgb(0xfe, 0xff, 0xff),
        ];
        proof {
            assert(cool_stops@ =~= seq![
                Color { r: 0xe6, g: 0x3e, b: 0x31 },
                Color { r: 0xff, g: 0x9d, b: 0x00 },
                Color { r: 0x6e, g: 0x6e, b: 0x6e },
                Color { r: 0xfe, g: 0xff, b: 0xff },
            ]);
            lemma_gradient_stops(cool_stops@, 4, 0);
        }
        let cool = spectrum_vec(cool_stops.as_slice(), 4);
        let lp = path.len();
        let f1: usize = lp / 3 + if lp % 3 > 0 { 1 } else { 0 };
        let rb = back.len();
        let beam: usize = f1 + rb / 3 + if rb % 3 > 0 { 1 } else { 0 };
        proof {
            assert(f1 == (lp + 2) / 3);
            assert(beam == beam_frames(path@, back@));
        }
        proof {
            assert forall|q: int| 0 <= q < n implies (#[trigger] etched@[q] matches Some(x) ==> x <= lp / 3) by {
                lemma_first_visit_bound(path@, chars@[q].coord, path@.len());
            }
        }
        let mut cooled: usize = 0;
        let mut i: usize = 0;
        while i < n
            invariant
                n == chars@.len(),
                etched@.len() == n,
                forall|q: int|
                    0 <= q < n ==> match #[trigger] etched@[q] {
                        Some(x) => etch_frame(chars@, path@, q) == Some(x as nat),
                        None => etch_frame(chars@, path@, q) is None,
                    },
                forall|q: int| 0 <= q < n ==> (#[trigger] etched@[q] matches Some(x) ==> x <= lp / 3),
                i <= n,
                cooled as nat == cooled_by(chars@, path@, i as nat),
                cooled <= lp / 3 + 26,
            decreases n - i,
        {
            match etched[i] {
                Some(x) => {
                    if x + 26 > cooled {
                        cooled = x + 26;
                    }
                },
                None => {},
            }
            i = i + 1;
        }
        let g = if beam > cooled { beam } else { cooled };
        let total: usize = if g <= 9992 { g + 8 } else { 10000 };
        let ghost pth = path@;
        let ghost bck = back@;
        proof {
            assert(total == etch_frame_count(chars@, pth, bck));
        }
        let mut k: usize = 0;
        while k < total
            invariant
                canvas.wf(),
                canvas.width == w,
                canvas.height == h,
                canvas.width < 0x1000_0000,
                canvas.height < 0x1000_0000,
                n == chars@.len(),
                n == final_colors@.len(),
                e == emitter(w, h),
                in_reach(e),
                pth == path@,
                bck == back@,
                lp == pth.len(),
                lp >= 1,
                f1 == (lp + 2) / 3,
                beam == beam_frames(pth, bck),
                forall|q: int| 0 <= q < pth.len() ==> in_reach(#[trigger] pth[q]),
                forall|q: int| 0 <= q < bck.len() ==> in_reach(#[trigger] bck[q]),
                etched@.len() == n,
                forall|q: int|
                    0 <= q < n ==> match #[trigger] etched@[q] {
                        Some(x) => etch_frame(chars@, pth, q) == Some(x as nat),
                        None => etch_frame(chars@, pth, q) is None,
                    },
                cool@ == cool_colors(),
                cool@.len() == 13,
                rb == bck.len(),
                beam == f1 + (rb + 2) / 3,
                total <= 10000,
                k <= total,
                frames@.len() == k,
                forall|q: int| 0 <= q < k ==> #[trigger] frames@[q]@ == picture(w, h, etch_sprites(chars@, final_colors@, e, pth, bck, q)),
            decreases total - k,
        {
            let mut sprites: Vec<(Coord, CharacterVisual)> = Vec::new();
            if k < beam {
                let laser = if k < f1 {
                    let at = if 3 * k + 2 < lp { 3 * k + 2 } else { lp - 1 };
                    path[at]
                } else {
                    assert(rb >= 1);
                    let at = if 3 * (k - f1) + 2 < rb { 3 * (k - f1) + 2 } else { rb - 1 };
                    back[at]
                };
                proof {
                    assert(laser == laser_at(pth, bck, k as int));
                }
                let line = walk(e, laser);
                let mut q: usize = 0;
                while q < line.len()
                    invariant
                        q <= line@.len(),
                        sprite_texts(sprites@) == line@.take(q as int).map_values(|c: Coord| (c, seq!['\u{b7}'])),
                    decreases line.len() - q,
                {
                    let dot = CharacterVisual::new("\u{b7}", None);
                    proof {
                        lemma_plain_text(dot);
                        reveal_strlit("\u{b7}");
                        assert(dot.symbol@ =~= seq!['\u{b7}']);
                    }
                    let ghost before = sprites@;
                    sprites.push((line[q], dot));
                    proof {
                        assert(sprite_texts(sprites@) =~= sprite_texts(before).push((line@[q as int], formatted(dot))));
                        assert(line@.take(q + 1).map_values(|c: Coord| (c, seq!['\u{b7}'])) =~= line@.take(q as int).map_values(
                            |c: Coord| (c, seq!['\u{b7}']),
                        ).push((line@[q as int], seq!['\u{b7}'])));
                    }
                    q = q + 1;
                }
                let star = CharacterVisual::new("*", None);
                proof {
                    lemma_plain_text(star);
                    reveal_strlit("*");
                    assert(star.symbol@ =~= seq!['*']);
                }
                let ghost before = sprites@;
                sprites.push((laser, star));
                proof {
                    assert(line@.take(line@.len() as int) =~= line@);
                    assert(sprite_texts(sprites@) =~= beam_sprites(e, laser));
                }
            } else {
                proof {
                    assert(sprite_texts(sprites@) =~= Seq::<(Coord, Seq<char>)>::empty());
                }
            }
            let ghost backdrop = sprite_texts(sprites@);
            let mut i: usize = 0;
            while i < n
                invariant
                    n == chars@.len(),
                    n == final_colors@.len(),
                    etched@.len() == n,
                    forall|q: int|
                        0 <= q < n ==> match #[trigger] etched@[q] {
                            Some(x) => etch_frame(chars@, pth, q) == Some(x as nat),
                            None => etch_frame(chars@, pth, q) is None,
                        },
                    cool@ == cool_colors(),
                    cool@.len() == 13,
                    i <= n,
                    k < total,
                    sprite_texts(sprites@) == backdrop + etched_sprites(chars@, final_colors@, pth, k as int, i as nat),
                decreases n - i,
            {
                match etched[i] {
                    Some(x) => {
                        if x <= k {
                            let a = k - x;
                            let color = if a >= 26 { final_colors[i] } else { cool[a / 2] };
                            let visual = CharacterVisual::new(chars[i].symbol.as_str(), Some(ColorPair::new(Some(color), chars[i].bg)));
                            proof {
                                lemma_pair_text(visual, color, chars@[i as int].bg);
                            }
                            let ghost before = sprites@;
                            sprites.push((chars[i].coord, visual));
                            proof {
                                assert(sprite_texts(sprites@) =~= sprite_texts(before).push((chars@[i as int].coord, formatted(visual))));
                            }
                        }
                    },
                    None => {},
                }
                i = i + 1;
            }
            let f = draw_frame(canvas, sprites.as_slice());
            let ghost earlier = frames@;
            frames.push(f);
            proof {
                assert forall|q: int| 0 <= q < k + 1 implies #[trigger] frames@[q]@ == picture(
                    w,
                    h,
                    etch_sprites(chars@, final_colors@, e, pth, bck, q),
                ) by {
                    if q < k {
                        assert(frames@[q] == earlier[q]);
                    }
                }
            }
            k = k + 1;
        }
        let mut all_etched = true;
        let mut i: usize = 0;
        while i < n
            invariant
                n == chars@.len(),
                etch@.len() == n,
                forall|j: int| 0 <= j < n ==> #[trigger] etch@[j] == etches(chars@[j]),
                etched@.len() == n,
                forall|q: int|
                    0 <= q < n ==> match #[trigger] etched@[q] {
                        Some(x) => etch_frame(chars@, pth, q) == Some(x as nat),
                        None => etch_frame(chars@, pth, q) is None,
                    },
                i <= n,
                all_etched == (forall|q: int|
                    0 <= q < i ==> (etches(#[trigger] chars@[q]) ==> (etch_frame(chars@, pth, q) matches Some(x) && x < total))),
            decreases n - i,
        {
            let shown = match etched[i] {
                Some(x) => x < total,
                None => false,
            };
            if etch[i] && !shown {
                all_etched = false;
            }
            i = i + 1;
        }
        if !all_etched {
            let ghost earlier = frames@;
            frames.push(final_frame(canvas, chars, final_colors, etch.as_slice(), false));
            proof {
                assert forall|q: int| 0 <= q < total implies #[trigger] frames@[q]@ == picture(
                    w,
                    h,
                    etch_sprites(chars@, final_colors@, e, pth, bck, q),
                ) by {
                    assert(frames@[q] == earlier[q]);
                }
            }
        }
        frames
    }
}
} // verus!
