//! Sweep: a bright bar sweeps across the canvas and reveals the text.
use vstd::prelude::*;

use crate::animation::{formatted, lemma_plain_text, plain_text, CharacterVisual};
use crate::canvas::{picture, sprite_texts, Canvas};
use crate::geometry::Coord;
use crate::graphics::{Color, ColorPair};
use crate::terminal::{draw_frame, PlacedCharacter};

verus! {

/// The sweep effect.
#[derive(Clone, Copy, Debug, PartialEq, Eq, Structural)]
pub struct Sweep;

impl Sweep {
    pub fn new() -> (e: Self)
        ensures
            e == Sweep,
    {
        Sweep
    }

    pub fn name(&self) -> (n: &'static str)
        ensures
            n@ == "sweep"@,
    {
        "sweep"
    }
}

/// Width of the bright bar, in columns.
pub const BAR_WIDTH: i32 = 7;

/// The leftmost column among the first `m` characters (`m >= 1`).
pub open spec fn min_column(chars: Seq<PlacedCharacter>, m: nat) -> int
    decreases m,
{
    if m <= 1 {
        chars[0].coord.column as int
    } else {
        let r = min_column(chars, (m - 1) as nat);
        if chars[m - 1].coord.column < r { chars[m - 1].coord.column as int } else { r }
    }
}

/// The rightmost column among the first `m` characters (`m >= 1`).
pub open spec fn max_column(chars: Seq<PlacedCharacter>, m: nat) -> int
    decreases m,
{
    if m <= 1 {
        chars[0].coord.column as int
    } else {
        let r = max_column(chars, (m - 1) as nat);
        if chars[m - 1].coord.column > r { chars[m - 1].coord.column as int } else { r }
    }
}

/// A character `dist` columns behind the bar's front: in the bar, its symbol in
/// `trail[dist]` over its input background; behind it, as the input had it.
pub open spec fn sweep_look(p: PlacedCharacter, dist: int, trail: Seq<Color>) -> Seq<char> {
    if dist < BAR_WIDTH {
        plain_text(p.symbol@, Some(ColorPair { fg: Some(trail[dist]), bg: p.bg }))
    } else {
        plain_text(p.symbol@, if p.fg is Some || p.bg is Some { Some(ColorPair { fg: p.fg, bg: p.bg }) } else { None })
    }
}

/// The first `m` characters the front at column `front` has reached, each at its place.
pub open spec fn sweep_sprites(chars: Seq<PlacedCharacter>, front: int, trail: Seq<Color>, m: nat) -> Seq<(Coord, Seq<char>)>
    decreases m,
{
    if m == 0 {
        Seq::empty()
    } else {
        let prev = sweep_sprites(chars, front, trail, (m - 1) as nat);
        let p = chars[m - 1];
        let dist = front - p.coord.column;
        if dist < 0 { prev } else { prev.push((p.coord, sweep_look(p, dist, trail))) }
    }
}

fn sweep_frame(canvas: &mut Canvas, chars: &[PlacedCharacter], front: i32, trail: &[Color]) -> (f: String)
    requires
        old(canvas).wf(),
        old(canvas).width < 0x4000_0000,
        old(canvas).height < 0x4000_0000,
        trail@.len() >= BAR_WIDTH,
        forall|c: int| 0 <= c < chars@.len() ==> -0x1000_0000 < #[trigger] chars@[c].coord.column < 0x1000_0000,
        -0x2000_0000 < front < 0x2000_0000,
    ensures
        final(canvas).wf(),
        final(canvas).width == old(canvas).width,
        final(canvas).height == old(canvas).height,
        f@ == picture(old(canvas).width as nat, old(canvas).height as nat, sweep_sprites(chars@, front as int, trail@, chars@.len())),
{
    let mut sprites: Vec<(Coord, CharacterVisual)> = Vec::new();
    let mut c: usize = 0;
    while c < chars.len()
        invariant
            c <= chars@.len(),
            trail@.len() >= BAR_WIDTH,
            forall|c: int| 0 <= c < chars@.len() ==> -0x1000_0000 < #[trigger] chars@[c].coord.column < 0x1000_0000,
            -0x2000_0000 < front < 0x2000_0000,
            sprite_texts(sprites@) == sweep_sprites(chars@, front as int, trail@, c as nat),
        decreases chars@.len() - c,
    {
        let p = &chars[c];
        let dist = front - p.coord.column;
        if dist >= 0 {
            let colors = if dist < BAR_WIDTH {
                Some(ColorPair::new(Some(trail[dist as usize]), p.bg))
            } else if p.fg.is_some() || p.bg.is_some() {
                Some(ColorPair::new(p.fg, p.bg))
            } else {
                None
            };
            let visual = CharacterVisual::new(p.symbol.as_str(), colors);
            proof {
                lemma_plain_text(visual);
            }
            let ghost before = sprites@;
            sprites.push((p.coord, visual));
            proof {
                assert(sprite_texts(sprites@) =~= sprite_texts(before).push((p.coord, formatted(visual))));
            }
        }
        c = c + 1;
    }
    draw_frame(canvas, sprites.as_slice())
}

impl Sweep {
    /// The frames of the effect for the characters laid out on `canvas`: a blank frame;
    /// then, for each front column from the text's leftmost column to seven past its
    /// rightmost, the characters the bar has reached (`sweep_sprites`), the bar colored by
    /// `trail` (`trail[d]` at `d` columns behind the front); then that last frame ten times
    /// more. Without characters, one blank frame.
    pub fn frames(&self, canvas: &mut Canvas, chars: &[PlacedCharacter], trail: &[Color]) -> (frames: Vec<String>)
        requires
            old(canvas).wf(),
            old(canvas).width < 0x4000_0000,
            old(canvas).height < 0x4000_0000,
            trail@.len() >= BAR_WIDTH,
            forall|c: int| 0 <= c < chars@.len() ==> -0x1000_0000 < #[trigger] chars@[c].coord.column < 0x1000_0000,
        ensures
            final(canvas).wf(),
            final(canvas).width == old(canvas).width,
            final(canvas).height == old(canvas).height,
            ({
                let w = old(canvas).width as nat;
                let h = old(canvas).height as nat;
                let n = chars@.len();
                if n == 0 {
                    frames@.len() == 1 && frames@[0]@ == picture(w, h, Seq::empty())
                } else {
                    let lo = min_column(chars@, n);
                    let span = max_column(chars@, n) + BAR_WIDTH - lo + 1;
                    &&& frames@.len() == 1 + span + 10
                    &&& frames@[0]@ == picture(w, h, Seq::empty())
                    &&& forall|k: int| 1 <= k <= span ==> #[trigger] frames@[k]@ == picture(
                        w,
                        h,
                        sweep_sprites(chars@, lo + k - 1, trail@, n),
                    )
                    &&& forall|k: int| span < k < frames@.len() ==> #[trigger] frames@[k]@ == picture(
                        w,
                        h,
                        sweep_sprites(chars@, lo + span - 1, trail@, n),
                    )
                }
            }),
    {
        let ghost w = canvas.width as nat;
        let ghost h = canvas.height as nat;
        let mut frames: Vec<String> = Vec::new();
        let none: Vec<(Coord, CharacterVisual)> = Vec::new();
        let blank = draw_frame(canvas, none.as_slice());
        proof {
            assert(sprite_texts(none@) =~= Seq::empty());
        }
        frames.push(blank);
        let n = chars.len();
        if n == 0 {
            return frames;
        }
        let mut lo: i32 = chars[0].coord.column;
        let mut hi: i32 = chars[0].coord.column;
        let mut c: usize = 1;
        while c < n
            invariant
                n == chars@.len(),
                1 <= c <= n,
                lo == min_column(chars@, c as nat),
                hi == max_column(chars@, c as nat),
                -0x1000_0000 < lo < 0x1000_0000,
                -0x1000_0000 < hi < 0x1000_0000,
                forall|c: int| 0 <= c < chars@.len() ==> -0x1000_0000 < #[trigger] chars@[c].coord.column < 0x1000_0000,
            decreases n - c,
        {
            if chars[c].coord.column < lo {
                lo = chars[c].coord.column;
            }
            if chars[c].coord.column > hi {
                hi = chars[c].coord.column;
            }
            c = c + 1;
        }
        let last = hi + BAR_WIDTH;
        let ghost span = last - lo + 1;
        let mut front: i32 = lo;
        let mut shown = String::new();
        while front <= last
            invariant
                canvas.wf(),
                canvas.width == w,
                canvas.height == h,
                canvas.width < 0x4000_0000,
                canvas.height < 0x4000_0000,
                n == chars@.len(),
                n > 0,
                lo == min_column(chars@, n as nat),
                last == max_column(chars@, n as nat) + BAR_WIDTH,
                -0x1000_0000 < lo < 0x1000_0000,
                -0x1000_0000 < last < 0x1000_0010,
                lo <= front <= last + 1,
                trail@.len() >= BAR_WIDTH,
                forall|c: int| 0 <= c < chars@.len() ==> -0x1000_0000 < #[trigger] chars@[c].coord.column < 0x1000_0000,
                frames@.len() == 1 + (front - lo),
                frames@[0]@ == picture(w, h, Seq::empty()),
                front > lo ==> shown@ == picture(w, h, sweep_sprites(chars@, front - 1, trail@, n as nat)),
                forall|k: int| 1 <= k <= front - lo ==> #[trigger] frames@[k]@ == picture(
                    w,
                    h,
                    sweep_sprites(chars@, lo + k - 1, trail@, n as nat),
                ),
            decreases last + 1 - front,
        {
            let f = sweep_frame(canvas, chars, front, trail);
            let ghost earlier = frames@;
            shown = f.clone();
            frames.push(f);
            proof {
                assert forall|k: int| 1 <= k <= front + 1 - lo implies #[trigger] frames@[k]@ == picture(
                    w,
                    h,
                    sweep_sprites(chars@, lo + k - 1, trail@, n as nat),
                ) by {
                    if k < front + 1 - lo {
                        assert(frames@[k] == earlier[k]);
                    }
                }
            }
            front = front + 1;
        }
        let mut j: usize = 0;
        while j < 10
            invariant
                j <= 10,
                frames@.len() == 1 + span + j,
                span == last - lo + 1,
                span >= 1,
                shown@ == picture(w, h, sweep_sprites(chars@, lo + span - 1, trail@, n as nat)),
                frames@[0]@ == picture(w, h, Seq::empty()),
                forall|k: int| 1 <= k <= span ==> #[trigger] frames@[k]@ == picture(
                    w,
                    h,
                    sweep_sprites(chars@, lo + k - 1, trail@, n as nat),
                ),
                forall|k: int| span < k < frames@.len() ==> #[trigger] frames@[k]@ == shown@,
            decreases 10 - j,
        {
            let ghost earlier = frames@;
            frames.push(shown.clone());
            proof {
                assert(frames@[0] == earlier[0]);
                assert forall|k: int| 1 <= k <= span implies #[trigger] frames@[k]@ == picture(
                    w,
                    h,
                    sweep_sprites(chars@, lo + k - 1, trail@, n as nat),
                ) by {
                    assert(frames@[k] == earlier[k]);
                }
                assert forall|k: int| span < k < frames@.len() implies #[trigger] frames@[k]@ == shown@ by {
                    if k < frames@.len() - 1 {
                        assert(frames@[k] == earlier[k]);
                    }
                }
            }
            j = j + 1;
        }
        frames
    }
}

} // verus!
