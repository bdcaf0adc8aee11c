//! Colorshift: the text cycles through a rainbow gradient that travels
//! across it before settling on the final gradient.
use vstd::prelude::*;

use crate::animation::{fg_text, formatted, lemma_fg_text, CharacterVisual};
use crate::canvas::{picture, sprite_texts, Canvas};
use crate::geometry::Coord;
use crate::graphics::{gradient_spectrum, lemma_gradient_stops, Color, ColorPair, Gradient};
use crate::sorting::value_range;
use crate::terminal::{draw_frame, PlacedCharacter};

verus! {

/// The colorshift effect.
#[derive(Clone, Copy, Debug, PartialEq, Eq, Structural)]
pub struct Colorshift;

impl Colorshift {
    pub fn new() -> (e: Self)
        ensures
            e == Colorshift,
    {
        Colorshift
    }

    pub fn name(&self) -> (n: &'static str)
        ensures
            n@ == "colorshift"@,
    {
        "colorshift"
    }
}

/// `values` has a least element `lo` and a greatest element `hi`.
pub open spec fn spans(values: Seq<i32>, lo: i32, hi: i32) -> bool {
    &&& exists|i: int| 0 <= i < values.len() && values[i] == lo
    &&& exists|i: int| 0 <= i < values.len() && values[i] == hi
    &&& forall|i: int| 0 <= i < values.len() ==> lo <= #[trigger] values[i] <= hi
}

/// The text's `(left, right, bottom, top)`, each 1 when there is no text.
pub fn text_extents(columns: &[i32], rows: &[i32]) -> (e: (i32, i32, i32, i32))
    ensures
        columns@.len() == 0 ==> e.0 == 1 && e.1 == 1,
        columns@.len() > 0 ==> spans(columns@, e.0, e.1),
        rows@.len() == 0 ==> e.2 == 1 && e.3 == 1,
        rows@.len() > 0 ==> spans(rows@, e.2, e.3),
{
    let (left, right) = match value_range(columns) {
        Some(r) => r,
        None => (1, 1),
    };
    let (bottom, top) = match value_range(rows) {
        Some(r) => r,
        None => (1, 1),
    };
    (left, right, bottom, top)
}

/// The spectrum position of a column when the gradient travels horizontally:
/// `(column - left) * n / (right - left)` wrapped into `0..n`, clamping the distances
/// below at 0 and 1.
pub open spec fn travel_index_spec(column: i32, left: i32, right: i32, n: usize) -> usize {
    if n == 0 {
        0
    } else {
        let span = if right - left > 1 { right - left } else { 1 };
        let pos = if column - left > 0 { column - left } else { 0 };
        ((pos * n / span) % (n as int)) as usize
    }
}

pub fn travel_index(column: i32, row: i32, left: i32, right: i32, bottom: i32, top: i32, n: usize) -> (i: usize)
    requires
        i32::MIN <= right - left <= i32::MAX,
        i32::MIN <= column - left <= i32::MAX,
        (column - left) * n <= usize::MAX,
    ensures
        i == travel_index_spec(column, left, right, n),
        n > 0 ==> i < n,
{
    if n == 0 {
        return 0;
    }
    let d = right - left;
    let span: usize = if d > 1 { d as usize } else { 1 };
    let p = column - left;
    let pos: usize = if p > 0 { p as usize } else { 0 };
    proof {
        if p > 0 {
            assert(pos * n <= usize::MAX);
        } else {
            assert(pos * n == 0);
        }
    }
    (pos * n / span) % n
}

/// Steps of the gradient between two rainbow colors.
pub const GRADIENT_STEPS: usize = 12;

/// Frames each gradient color is held.
pub const GRADIENT_FRAMES: usize = 5;

/// The rainbow the text cycles through: red, orange, yellow, green, blue, indigo, violet.
pub open spec fn rainbow() -> Seq<Color> {
    seq![
        Color { r: 0xe8, g: 0x14, b: 0x16 },
        Color { r: 0xff, g: 0xa5, b: 0x00 },
        Color { r: 0xfa, g: 0xeb, b: 0x36 },
        Color { r: 0x79, g: 0xc3, b: 0x14 },
        Color { r: 0x48, g: 0x7d, b: 0xe7 },
        Color { r: 0x4b, g: 0x36, b: 0x9d },
        Color { r: 0x70, g: 0x36, b: 0x9d },
    ]
}

fn rainbow_stops() -> (v: Vec<Color>)
    ensures
        v@ == rainbow(),
{
    let v = vec![
        Color::rgb(0xe8, 0x14, 0x16),
        Color::rgb(0xff, 0xa5, 0x00),
        Color::rgb(0xfa, 0xeb, 0x36),
        Color::rgb(0x79, 0xc3, 0x14),
        Color::rgb(0x48, 0x7d, 0xe7),
        Color::rgb(0x4b, 0x36, 0x9d),
        Color::rgb(0x70, 0x36, 0x9d),
    ];
    proof {
        assert(v@ =~= rainbow());
    }
    v
}

/// The colors the text cycles through.
pub open spec fn rainbow_spectrum() -> Seq<Color> {
    gradient_spectrum(rainbow(), GRADIENT_STEPS)
}

/// The input columns of the characters.
pub open spec fn char_columns(chars: Seq<PlacedCharacter>) -> Seq<i32> {
    chars.map_values(|c: PlacedCharacter| c.coord.column)
}

/// What the characters show at gradient step `step`: each its symbol in the spectrum
/// color its column's travel offset plus `step` lands on.
pub open spec fn shifted(chars: Seq<PlacedCharacter>, left: i32, right: i32, step: int) -> Seq<(Coord, Seq<char>)> {
    let sp = rainbow_spectrum();
    let n = sp.len() as usize;
    Seq::new(
        chars.len(),
        |i: int| (chars[i].coord, fg_text(chars[i].symbol@, sp[(travel_index_spec(chars[i].coord.column, left, right, n) + step) % (n as int)])),
    )
}

proof fn lemma_spans_unique(values: Seq<i32>, a: i32, b: i32, c: i32, d: i32)
    requires
        spans(values, a, b),
        spans(values, c, d),
    ensures
        a == c && b == d,
{
    let i = choose|i: int| 0 <= i < values.len() && values[i] == a;
    let j = choose|i: int| 0 <= i < values.len() && values[i] == c;
    let k = choose|i: int| 0 <= i < values.len() && values[i] == b;
    let l = choose|i: int| 0 <= i < values.len() && values[i] == d;
    assert(c <= values[i] && a <= values[j]);
    assert(values[k] <= d && values[l] <= b);
}

impl Colorshift {
    /// The frames of the effect for characters laid out on `canvas`: every character
    /// shown, each its symbol in a rainbow color that travels across the text from left
    /// to right, one gradient step every `GRADIENT_FRAMES` frames, once through the
    /// rainbow; a single blank frame without characters.
    pub fn frames(&self, canvas: &mut Canvas, chars: &[PlacedCharacter]) -> (frames: Vec<String>)
        requires
            old(canvas).wf(),
            old(canvas).width < 0x100_0000,
            old(canvas).height < 0x100_0000,
            forall|i: int| 0 <= i < chars@.len() ==> {
                let c = #[trigger] chars@[i].coord;
                1 <= c.column <= old(canvas).width && 1 <= c.row <= old(canvas).height
            },
        ensures
            final(canvas).wf(),
            final(canvas).width == old(canvas).width,
            final(canvas).height == old(canvas).height,
            chars@.len() == 0 ==> frames@.len() == 1 && frames@[0]@ == picture(
                old(canvas).width as nat,
                old(canvas).height as nat,
                Seq::empty(),
            ),
            chars@.len() > 0 ==> frames@.len() == rainbow_spectrum().len() * GRADIENT_FRAMES,
            chars@.len() > 0 ==> forall|left: i32, right: i32|
                spans(char_columns(chars@), left, right) ==> forall|k: int|
                    0 <= k < frames@.len() ==> #[trigger] frames@[k]@ == picture(
                        old(canvas).width as nat,
                        old(canvas).height as nat,
                        shifted(chars@, left, right, k / (GRADIENT_FRAMES as int)),
                    ),
    {
        let ghost w = canvas.width as nat;
        let ghost h = canvas.height as nat;
        let mut frames: Vec<String> = Vec::new();
        if chars.len() == 0 {
            let none: Vec<(Coord, CharacterVisual)> = Vec::new();
            let f = draw_frame(canvas, none.as_slice());
            proof {
                assert(sprite_texts(none@) =~= Seq::empty());
            }
            frames.push(f);
            return frames;
        }
        let mut columns: Vec<i32> = Vec::new();
        let mut rows: Vec<i32> = Vec::new();
        let mut i: usize = 0;
        while i < chars.len()
            invariant
                i <= chars@.len(),
                columns@ == char_columns(chars@).take(i as int),
                rows@.len() == i,
            decreases chars.len() - i,
        {
            columns.push(chars[i].coord.column);
            rows.push(chars[i].coord.row);
            proof {
                assert(char_columns(chars@).take(i + 1) =~= char_columns(chars@).take(i as int).push(chars@[i as int].coord.column));
            }
            i = i + 1;
        }
        proof {
            assert(char_columns(chars@).take(chars@.len() as int) =~= char_columns(chars@));
        }
        let (left, right, bottom, top) = text_extents(&columns, &rows);
        let stops = rainbow_stops();
        let gradient = Gradient::new(&stops, GRADIENT_STEPS);
        let spectrum = gradient.spectrum();
        proof {
            lemma_gradient_stops(rainbow(), GRADIENT_STEPS, 0);
        }
        let n = spectrum.len();
        let ghost sp = rainbow_spectrum();
        proof {
            assert(sp == spectrum@);
            assert(n == 73);
            let a = choose|k: int| 0 <= k < columns@.len() && columns@[k] == left;
            let b = choose|k: int| 0 <= k < columns@.len() && columns@[k] == right;
            assert(columns@[a] == chars@[a].coord.column);
            assert(columns@[b] == chars@[b].coord.column);
        }
        let mut offsets: Vec<usize> = Vec::new();
        let mut j: usize = 0;
        while j < chars.len()
            invariant
                n == 73,
                j <= chars@.len(),
                spans(columns@, left, right),
                columns@ == char_columns(chars@),
                1 <= left <= right,
                right <= canvas.width,
                canvas.width < 0x100_0000,
                offsets@.len() == j,
                forall|q: int| 0 <= q < j ==> #[trigger] offsets@[q] == travel_index_spec(chars@[q].coord.column, left, right, n),
                forall|q: int| 0 <= q < j ==> offsets@[q] < n,
            decreases chars.len() - j,
        {
            proof {
                assert(columns@[j as int] == chars@[j as int].coord.column);
                assert(left <= columns@[j as int] <= right);
                assert((chars@[j as int].coord.column - left) * 73 <= 0x100_0000 * 73) by (nonlinear_arith)
                    requires 0 <= chars@[j as int].coord.column - left <= 0x100_0000;
            }
            let c = chars[j].coord;
            offsets.push(travel_index(c.column, c.row, left, right, bottom, top, n));
            j = j + 1;
        }
        let total_steps = n;
        let mut step: usize = 0;
        while step < total_steps
            invariant
                canvas.wf(),
                canvas.width == w,
                canvas.height == h,
                canvas.width < 0x100_0000,
                canvas.height < 0x100_0000,
                n == 73,
                total_steps == n,
                step <= total_steps,
                sp == spectrum@,
                sp == rainbow_spectrum(),
                sp.len() == n,
                spans(char_columns(chars@), left, right),
                offsets@.len() == chars@.len(),
                forall|q: int| 0 <= q < chars@.len() ==> #[trigger] offsets@[q] == travel_index_spec(chars@[q].coord.column, left, right, n),
                forall|q: int| 0 <= q < chars@.len() ==> offsets@[q] < n,
                frames@.len() == step * GRADIENT_FRAMES,
                forall|k: int| 0 <= k < frames@.len() ==> #[trigger] frames@[k]@ == picture(w, h, shifted(chars@, left, right, k / (GRADIENT_FRAMES as int))),
            decreases total_steps - step,
        {
            let mut sprites: Vec<(Coord, CharacterVisual)> = Vec::new();
            let mut q: usize = 0;
            while q < chars.len()
                invariant
                    n == 73,
                    sp == spectrum@,
                    sp == rainbow_spectrum(),
                    sp.len() == n,
                    step < n,
                    offsets@.len() == chars@.len(),
                    forall|r: int| 0 <= r < chars@.len() ==> #[trigger] offsets@[r] == travel_index_spec(chars@[r].coord.column, left, right, n),
                    forall|r: int| 0 <= r < chars@.len() ==> offsets@[r] < n,
                    q <= chars@.len(),
                    sprite_texts(sprites@) == shifted(chars@, left, right, step as int).take(q as int),
                decreases chars.len() - q,
            {
                let idx = (offsets[q] + step) % n;
                let visual = CharacterVisual::new(chars[q].symbol.as_str(), Some(ColorPair::fg(spectrum[idx])));
                proof {
                    lemma_fg_text(visual, spectrum@[idx as int]);
                }
                let ghost before = sprites@;
                sprites.push((chars[q].coord, visual));
                proof {
                    let expect = shifted(chars@, left, right, step as int)[q as int];
                    assert(visual.symbol@ == chars@[q as int].symbol@);
                    assert(idx as int == (travel_index_spec(chars@[q as int].coord.column, left, right, sp.len() as usize) + step) % (sp.len() as int));
                    assert(formatted(visual) == fg_text(visual.symbol@, sp[idx as int]));
                    assert(expect.1 == fg_text(chars@[q as int].symbol@, sp[idx as int]));
                    assert(expect == (chars@[q as int].coord, formatted(visual)));
                    assert(sprite_texts(sprites@) =~= sprite_texts(before).push((chars@[q as int].coord, formatted(visual))));
                    assert(shifted(chars@, left, right, step as int).take(q + 1) =~= shifted(chars@, left, right, step as int).take(q as int).push(shifted(chars@, left, right, step as int)[q as int]));
                }
                q = q + 1;
            }
            proof {
                assert(shifted(chars@, left, right, step as int).take(chars@.len() as int) =~= shifted(chars@, left, right, step as int));
            }
            let mut rep: usize = 0;
            while rep < GRADIENT_FRAMES
                invariant
                    canvas.wf(),
                    canvas.width == w,
                    canvas.height == h,
                    canvas.width < 0x100_0000,
                    canvas.height < 0x100_0000,
                    rep <= GRADIENT_FRAMES,
                    sprite_texts(sprites@) == shifted(chars@, left, right, step as int),
                    frames@.len() == step * GRADIENT_FRAMES + rep,
                    forall|k: int| 0 <= k < frames@.len() ==> #[trigger] frames@[k]@ == picture(w, h, shifted(chars@, left, right, k / (GRADIENT_FRAMES as int))),
                decreases GRADIENT_FRAMES - rep,
            {
                let f = draw_frame(canvas, sprites.as_slice());
                proof {
                    let k = frames@.len() as int;
                    assert(k / (GRADIENT_FRAMES as int) == step) by (nonlinear_arith)
                        requires k == step * 5 + rep, 0 <= rep < 5;
                }
                frames.push(f);
                rep = rep + 1;
            }
            step = step + 1;
        }
        proof {
            assert forall|l: i32, r: i32| spans(char_columns(chars@), l, r) implies forall|k: int|
                0 <= k < frames@.len() ==> #[trigger] frames@[k]@ == picture(w, h, shifted(chars@, l, r, k / (GRADIENT_FRAMES as int))) by {
                lemma_spans_unique(char_columns(chars@), l, r, left, right);
            }
        }
        frames
    }
}

/// Law: across the text, a column's place in the traveling spectrum grows with its
/// distance from the left edge: for a column `c` left of the right edge, its index `k` is
/// the whole part of `(c - left) * n / (right - left)` (so `k * span <= (c - left) * n <
/// (k + 1) * span`), the left edge starts at 0, and a column further right never gets a
/// smaller index.
pub proof fn lemma_travel_index_grows(c1: i32, c2: i32, left: i32, right: i32, n: usize)
    requires
        n > 0,
        right - left > 1,
        left <= c1 <= c2 < right,
    ensures
        ({
            let span = right - left;
            let k = travel_index_spec(c1, left, right, n) as int;
            &&& k * span <= (c1 - left) * n < (k + 1) * span
            &&& travel_index_spec(left, left, right, n) == 0
            &&& travel_index_spec(c1, left, right, n) <= travel_index_spec(c2, left, right, n)
        }),
{
    let span = right - left;
    let n = n as int;
    let p1 = c1 - left;
    let p2 = c2 - left;
    assert(0 <= p1 * n <= p2 * n < span * n) by (nonlinear_arith)
        requires 0 <= p1 <= p2 < span, n > 0;
    let q1 = p1 * n / span;
    let q2 = p2 * n / span;
    vstd::arithmetic::div_mod::lemma_fundamental_div_mod(p1 * n, span);
    vstd::arithmetic::div_mod::lemma_fundamental_div_mod(p2 * n, span);
    assert(0 <= q1 < n) by (nonlinear_arith)
        requires p1 * n == span * q1 + (p1 * n) % span, 0 <= (p1 * n) % span < span, 0 <= p1 * n < span * n, span > 0;
    assert(0 <= q2 < n) by (nonlinear_arith)
        requires p2 * n == span * q2 + (p2 * n) % span, 0 <= (p2 * n) % span < span, 0 <= p2 * n < span * n, span > 0;
    vstd::arithmetic::div_mod::lemma_div_is_ordered(p1 * n, p2 * n, span);
    vstd::arithmetic::div_mod::lemma_small_mod(q1 as nat, n as nat);
    vstd::arithmetic::div_mod::lemma_small_mod(q2 as nat, n as nat);
    assert(travel_index_spec(c1, left, right, n as usize) as int == q1);
    assert(travel_index_spec(c2, left, right, n as usize) as int == q2);
    assert(q1 * span <= p1 * n < (q1 + 1) * span) by (nonlinear_arith)
        requires p1 * n == span * q1 + (p1 * n) % span, 0 <= (p1 * n) % span < span;
    assert(0 * n / span == 0);
    vstd::arithmetic::div_mod::lemma_small_mod(0nat, n as nat);
}

} // verus!
