//! Orbiting volley: launchers circle the canvas and fire the characters
//! into place.
use vstd::prelude::*;

use crate::animation::{formatted, CharacterVisual};
use crate::canvas::Canvas;
use crate::geometry::{find_coords_on_line, lemma_route_extend, line_fits, walks_line, walks_route, Coord};
use crate::graphics::{Color, ColorPair};

verus! {

/// The orbittingvolley effect.
#[derive(Clone, Copy, Debug, PartialEq, Eq, Structural)]
pub struct Orbittingvolley;

impl Orbittingvolley {
    pub fn new() -> (e: Self)
        ensures
            e == Orbittingvolley,
    {
        Orbittingvolley
    }

    pub fn name(&self) -> (n: &'static str)
        ensures
            n@ == "orbittingvolley"@,
    {
        "orbittingvolley"
    }
}

impl Default for Orbittingvolley {
    fn default() -> (e: Self)
        ensures
            e == Orbittingvolley,
    {
        Orbittingvolley::new()
    }
}

/// A launcher's look: its symbol in white.
pub fn launcher_visual(symbol: &str) -> (v: CharacterVisual)
    ensures
        v.symbol@ == symbol@,
        !v.bold && !v.dim && !v.italic && !v.underline && !v.blink && !v.reverse && !v.hidden && !v.strike,
        v.colors == Some(ColorPair { fg: Some(Color { r: 0xff, g: 0xff, b: 0xff }), bg: None }),
        v.formatted_symbol@ == formatted(v),
{
    let mut visual = CharacterVisual::new(symbol, None);
    visual.colors = Some(ColorPair::fg(Color::rgb(0xff, 0xff, 0xff)));
    visual.refresh();
    visual
}

/// The canvas corners clockwise from the top right.
pub open spec fn corners(canvas: Canvas) -> Seq<Coord> {
    seq![
        Coord { column: canvas.right, row: canvas.top },
        Coord { column: canvas.right, row: canvas.bottom },
        Coord { column: canvas.left, row: canvas.bottom },
        Coord { column: canvas.left, row: canvas.top },
    ]
}

/// The corner a launcher starts at: the first corner equal to `start`, else the first.
pub open spec fn start_corner(canvas: Canvas, start: Coord) -> int {
    let c = corners(canvas);
    if c[0] == start {
        0
    } else if c[1] == start {
        1
    } else if c[2] == start {
        2
    } else if c[3] == start {
        3
    } else {
        0
    }
}

/// The launcher's round: all four corners from its starting corner, back to it.
pub open spec fn round_trip(canvas: Canvas, start: Coord) -> Seq<Coord> {
    let s = start_corner(canvas, start);
    Seq::new(5, |i: int| corners(canvas)[(s + i) % 4])
}

/// The canvas is small enough for its edges to be drawn as lines.
pub open spec fn edges_fit(canvas: Canvas) -> bool {
    &&& line_fits(Coord { column: canvas.right, row: canvas.top }, Coord { column: canvas.left, row: canvas.bottom })
}

/// The path a launcher travels: around the canvas edge from its starting corner and
/// back.
pub fn perimeter_path(start: Coord, canvas: &Canvas) -> (path: Vec<Coord>)
    requires
        edges_fit(*canvas),
    ensures
        walks_route(path@, round_trip(*canvas, start)),
{
    let corners_v = vec![
        Coord::new(canvas.right, canvas.top),
        Coord::new(canvas.right, canvas.bottom),
        Coord::new(canvas.left, canvas.bottom),
        Coord::new(canvas.left, canvas.top),
    ];
    let ghost cs = corners(*canvas);
    proof {
        assert(corners_v@ =~= cs);
        assert(cs.len() == 4);
    }
    let mut start_idx: usize = 0;
    let mut found = false;
    let mut k: usize = 0;
    while k < 4
        invariant
            k <= 4,
            corners_v@ == cs,
            cs == corners(*canvas),
            corners_v@.len() == 4,
            start_idx < 4,
            found ==> cs[start_idx as int] == start && forall|j: int| 0 <= j < start_idx ==> cs[j] != start,
            !found ==> start_idx == 0 && forall|j: int| 0 <= j < k ==> cs[j] != start,
        decreases 4 - k,
    {
        if !found && corners_v[k] == start {
            start_idx = k;
            found = true;
        }
        k = k + 1;
    }
    proof {
        assert(start_idx as int == start_corner(*canvas, start));
    }
    let ghost way = round_trip(*canvas, start);
    let mut path: Vec<Coord> = Vec::new();
    let mut i: usize = 0;
    while i < 4
        invariant
            i <= 4,
            corners_v@ == cs,
            cs == corners(*canvas),
            corners_v@.len() == 4,
            start_idx < 4,
            start_idx as int == start_corner(*canvas, start),
            way == round_trip(*canvas, start),
            edges_fit(*canvas),
            i == 0 ==> path@.len() == 0,
            i > 0 ==> walks_route(path@, way.take(i as int + 1)) && path@.len() >= 1,
        decreases 4 - i,
    {
        let a = corners_v[(start_idx + i) % 4];
        let b = corners_v[(start_idx + i + 1) % 4];
        proof {
            let sc = start_corner(*canvas, start);
            assert(way =~= Seq::new(5, |x: int| corners(*canvas)[(sc + x) % 4]));
            assert(way[i as int] == corners(*canvas)[(sc + i) % 4]);
            assert(way[i as int + 1] == corners(*canvas)[(sc + i + 1) % 4]);
        }
        let mut line = find_coords_on_line(a, b);
        let ghost l = line@;
        let ghost before = path@;
        if path.len() > 0 && line.len() > 0 {
            line.remove(0);
        }
        let mut j: usize = 0;
        while j < line.len()
            invariant
                j <= line@.len(),
                path@ == before + line@.take(j as int),
            decreases line.len() - j,
        {
            path.push(line[j]);
            proof {
                assert(line@.take(j + 1) =~= line@.take(j as int).push(line@[j as int]));
            }
            j = j + 1;
        }
        proof {
            assert(line@.take(line@.len() as int) =~= line@);
            assert(way.take(i as int + 2) =~= way.take(i as int + 1).push(b));
            if i == 0 {
                assert(walks_route(seq![a], seq![a]));
                assert(seq![a] + l.skip(1) =~= l);
                assert(way.take(1) =~= seq![a]);
                lemma_route_extend(seq![a], seq![a], l, b);
                assert(path@ =~= l);
            } else {
                assert(line@ =~= l.skip(1));
                assert(way.take(i as int + 1).last() == a);
                lemma_route_extend(before, way.take(i as int + 1), l, b);
            }
        }
        i = i + 1;
    }
    proof {
        assert(way.take(5) =~= way);
    }
    if path.len() == 0 {
        path.push(start);
    }
    path
}

} // verus!
