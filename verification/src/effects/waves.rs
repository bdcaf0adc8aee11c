//! Waves: waves of glyphs roll across the text before it settles.
use vstd::prelude::*;

use crate::animation::{fg_text, formatted, lemma_fg_text, CharacterVisual};
use crate::canvas::{picture, sprite_texts, Canvas};
use crate::geometry::Coord;
use crate::graphics::{gradient_spectrum, Color, ColorPair, Gradient};
use crate::sorting::{bucket_ids, buckets, group_views, key_order, lemma_key_order_total, lemma_runs_nonempty, tagged};
use crate::terminal::{draw_frame, PlacedCharacter};

verus! {

/// The waves effect.
#[derive(Clone, Copy, Debug, PartialEq, Eq, Structural)]
pub struct Waves;

impl Waves {
    pub fn new() -> (e: Self)
        ensures
            e == Waves,
    {
        Waves
    }

    pub fn name(&self) -> (n: &'static str)
        ensures
            n@ == "waves"@,
    {
        "waves"
    }
}

impl Default for Waves {
    fn default() -> (e: Self)
        ensures
            e == Waves,
    {
        Waves::new()
    }
}

/// Where a character is in the waves: waiting, riding the waves (a symbol step and the
/// frames left on it), settling through its final colors, or done.
#[derive(Clone, Copy, Debug, PartialEq, Eq, Structural)]
pub enum Phase {
    Pending,
    Wave { step: usize, hold: usize },
    Settle { step: usize, hold: usize },
    Done,
}

/// What to show after a step.
#[derive(Clone, Copy, Debug, PartialEq, Eq, Structural)]
pub enum Paint {
    /// Nothing changes.
    Keep,
    /// The wave glyph for this step.
    Wave(usize),
    /// This step of the settling gradient.
    Settle(usize),
    /// The final color.
    Final,
}

/// Waves each character rides.
pub const WAVE_COUNT: usize = 7;

/// Glyphs in one wave.
pub const WAVE_SYMBOL_COUNT: usize = 15;

/// Frames each wave glyph is held.
pub const WAVE_LENGTH: usize = 2;

/// Frames each settling color is held.
pub const FINAL_GRADIENT_FRAMES: usize = 5;

/// Steps of the final gradient.
pub const FINAL_GRADIENT_STEPS: usize = 12;

/// Colors a character settles through: the length of a two-stop gradient of
/// `FINAL_GRADIENT_STEPS` steps.
pub fn settle_len() -> (n: usize)
    ensures
        n == gradient_spectrum(seq![Color { r: 0, g: 0, b: 0 }, Color { r: 0, g: 0, b: 0 }], FINAL_GRADIENT_STEPS).len(),
        n == FINAL_GRADIENT_STEPS + 1,
{
    let stops = vec![Color::rgb(0, 0, 0), Color::rgb(0, 0, 0)];
    proof {
        assert(stops@ =~= seq![Color { r: 0, g: 0, b: 0 }, Color { r: 0, g: 0, b: 0 }]);
    }
    Gradient::new(stops.as_slice(), FINAL_GRADIENT_STEPS).len()
}

/// One frame of a character: holds count down; a wave step moves to the next glyph, and
/// after the last glyph of the last wave settling begins; a settle step moves to the next
/// color, and after the last one the character is done. Returns the new phase, what to
/// show, and whether the character is still animating.
pub open spec fn advance_spec(phase: Phase, settle: usize) -> (Phase, Paint, bool) {
    match phase {
        Phase::Pending => (phase, Paint::Keep, false),
        Phase::Done => (phase, Paint::Keep, false),
        Phase::Wave { step, hold } => if hold > 1 {
            (Phase::Wave { step, hold: (hold - 1) as usize }, Paint::Keep, true)
        } else if step + 1 >= WAVE_COUNT * WAVE_SYMBOL_COUNT {
            (Phase::Settle { step: 0, hold: FINAL_GRADIENT_FRAMES }, Paint::Settle(0), true)
        } else {
            (Phase::Wave { step: (step + 1) as usize, hold: WAVE_LENGTH }, Paint::Wave((step + 1) as usize), true)
        },
        Phase::Settle { step, hold } => if hold > 1 {
            (Phase::Settle { step, hold: (hold - 1) as usize }, Paint::Keep, true)
        } else if step + 1 >= settle {
            (Phase::Done, Paint::Final, false)
        } else {
            (Phase::Settle { step: (step + 1) as usize, hold: FINAL_GRADIENT_FRAMES }, Paint::Settle((step + 1) as usize), true)
        },
    }
}

pub fn advance_phase(phase: Phase, settle: usize) -> (r: (Phase, Paint, bool))
    requires
        match phase {
            Phase::Wave { step, .. } | Phase::Settle { step, .. } => step < usize::MAX,
            _ => true,
        },
    ensures
        r == advance_spec(phase, settle),
{
    match phase {
        Phase::Pending => (phase, Paint::Keep, false),
        Phase::Done => (phase, Paint::Keep, false),
        Phase::Wave { step, hold } => {
            if hold > 1 {
                (Phase::Wave { step, hold: hold - 1 }, Paint::Keep, true)
            } else if step + 1 >= WAVE_COUNT * WAVE_SYMBOL_COUNT {
                (Phase::Settle { step: 0, hold: FINAL_GRADIENT_FRAMES }, Paint::Settle(0), true)
            } else {
                (Phase::Wave { step: step + 1, hold: WAVE_LENGTH }, Paint::Wave(step + 1), true)
            }
        },
        Phase::Settle { step, hold } => {
            if hold > 1 {
                (Phase::Settle { step, hold: hold - 1 }, Paint::Keep, true)
            } else if step + 1 >= settle {
                (Phase::Done, Paint::Final, false)
            } else {
                (Phase::Settle { step: step + 1, hold: FINAL_GRADIENT_FRAMES }, Paint::Settle(step + 1), true)
            }
        },
    }
}


/// The glyphs of one wave, rising and falling.
pub open spec fn wave_glyphs() -> Seq<char> {
    seq![
        '\u{2581}', '\u{2582}', '\u{2583}', '\u{2584}', '\u{2585}', '\u{2586}', '\u{2587}', '\u{2588}',
        '\u{2587}', '\u{2586}', '\u{2585}', '\u{2584}', '\u{2583}', '\u{2582}', '\u{2581}',
    ]
}

/// The color the waves end in, where settling starts: the last stop of the wave
/// gradient, white.
pub open spec fn wave_end() -> Color {
    Color { r: 0xff, g: 0xff, b: 0xff }
}

/// Whether the waves carry a character: anything but a bare space.
pub open spec fn rides(ch: PlacedCharacter) -> bool {
    !(ch.symbol@ == " "@ && ch.fg is None && ch.bg is None)
}

/// The columns of the carried characters among the first `m`.
pub open spec fn rider_columns(chars: Seq<PlacedCharacter>, m: nat) -> Seq<i64>
    decreases m,
{
    if m == 0 {
        Seq::empty()
    } else if rides(chars[m - 1]) {
        rider_columns(chars, (m - 1) as nat).push(chars[m - 1].coord.column as i64)
    } else {
        rider_columns(chars, (m - 1) as nat)
    }
}

/// The positions of the carried characters among the first `m`.
pub open spec fn rider_ids(chars: Seq<PlacedCharacter>, m: nat) -> Seq<u32>
    decreases m,
{
    if m == 0 {
        Seq::empty()
    } else if rides(chars[m - 1]) {
        rider_ids(chars, (m - 1) as nat).push((m - 1) as u32)
    } else {
        rider_ids(chars, (m - 1) as nat)
    }
}

/// The carried characters grouped by column, columns left to right: the waves reach
/// group `g` in frame `g`.
pub open spec fn wave_groups(chars: Seq<PlacedCharacter>) -> Seq<Seq<u32>> {
    buckets(rider_columns(chars, chars.len()), rider_ids(chars, chars.len()))
}

/// The frame in which the waves last reach character `c`, among the first `m` groups.
pub open spec fn wave_start(groups: Seq<Seq<u32>>, c: int, m: nat) -> Option<usize>
    decreases m,
{
    if m == 0 {
        None
    } else if groups[m - 1].contains(c as u32) {
        Some((m - 1) as usize)
    } else {
        wave_start(groups, c, (m - 1) as nat)
    }
}

/// What a character shows `e` frames after the waves reach it: 7 waves of glyphs, each
/// glyph held 2 frames in its wave color; then its own symbol through the 12-step gradient
/// from the waves' end to its final color, each step held 5 frames; then the final color.
pub open spec fn wave_text(ch: PlacedCharacter, waves: Seq<Color>, final_color: Color, e: nat) -> Seq<char> {
    if e < 210 {
        let g = (e / 2) % 15;
        fg_text(seq![wave_glyphs()[g as int]], waves[g as int])
    } else if e < 275 {
        fg_text(ch.symbol@, gradient_spectrum(seq![wave_end(), final_color], 12)[(e - 210) / 5])
    } else {
        fg_text(ch.symbol@, final_color)
    }
}

/// Frame `k` among the first `m` characters: each one the waves have reached, in order.
pub open spec fn wave_sprites(
    chars: Seq<PlacedCharacter>,
    groups: Seq<Seq<u32>>,
    waves: Seq<Color>,
    finals: Seq<Color>,
    k: int,
    m: nat,
) -> Seq<(Coord, Seq<char>)>
    decreases m,
{
    if m == 0 {
        Seq::empty()
    } else {
        let prev = wave_sprites(chars, groups, waves, finals, k, (m - 1) as nat);
        let c = m - 1;
        match wave_start(groups, c, groups.len()) {
            Some(a) => if a <= k {
                prev.push((chars[c].coord, wave_text(chars[c], waves, finals[c], (k - a) as nat)))
            } else {
                prev
            },
            None => prev,
        }
    }
}

/// Frames of the waves: the last column reached in frame `groups - 1`, then 275 frames of
/// waves and settling and one more with everything settled, at most 100000.
pub open spec fn wave_frame_count(groups: nat) -> nat {
    if groups + 273 <= 99999 {
        groups + 275
    } else {
        100000
    }
}

fn rides_exec(ch: &PlacedCharacter) -> (b: bool)
    ensures
        b == rides(*ch),
{
    let cs = crate::text::chars_of(ch.symbol.as_str());
    proof {
        reveal_strlit(" ");
    }
    let blank = cs.len() == 1 && cs[0] == ' ';
    proof {
        if cs@.len() == 1 {
            assert(blank ==> ch.symbol@ =~= " "@);
        }
        if ch.symbol@ == " "@ {
            assert(cs@.len() == 1);
        }
    }
    !(blank && ch.fg.is_none() && ch.bg.is_none())
}

fn glyph_strings() -> (g: Vec<String>)
    ensures
        g@.len() == 15,
        forall|i: int| 0 <= i < 15 ==> (#[trigger] g@[i])@ == seq![wave_glyphs()[i]],
{
    let glyphs: [char; 15] = [
        '\u{2581}', '\u{2582}', '\u{2583}', '\u{2584}', '\u{2585}', '\u{2586}', '\u{2587}', '\u{2588}',
        '\u{2587}', '\u{2586}', '\u{2585}', '\u{2584}', '\u{2583}', '\u{2582}', '\u{2581}',
    ];
    proof {
        assert(glyphs@ =~= wave_glyphs());
    }
    let mut out: Vec<String> = Vec::new();
    let mut i: usize = 0;
    while i < 15
        invariant
            i <= 15,
            glyphs@ == wave_glyphs(),
            out@.len() == i,
            forall|j: int| 0 <= j < i ==> (#[trigger] out@[j])@ == seq![wave_glyphs()[j]],
        decreases 15 - i,
    {
        out.push(crate::text::char_string(glyphs[i]));
        i = i + 1;
    }
    out
}

impl Waves {
    /// The frames of the effect for the characters laid out on `canvas`: the waves reach
    /// the carried characters column by column, one column a frame, each shown as
    /// `wave_text` from then on, glyph `g` of a wave in `wave_colors[g]` and character `c`
    /// settling on `final_colors[c]`; characters not yet reached stay hidden. With nothing
    /// to carry the text is shown as laid out; without characters, one blank frame.
    pub fn frames(
        &self,
        canvas: &mut Canvas,
        chars: &[PlacedCharacter],
        wave_colors: &[Color],
        final_colors: &[Color],
    ) -> (frames: Vec<String>)
        requires
            old(canvas).wf(),
            old(canvas).width < 0x4000_0000,
            old(canvas).height < 0x4000_0000,
            wave_colors@.len() == WAVE_SYMBOL_COUNT,
            final_colors@.len() == chars@.len(),
            chars@.len() < 0x1000_0000,
        ensures
            final(canvas).wf(),
            final(canvas).width == old(canvas).width,
            final(canvas).height == old(canvas).height,
            ({
                let w = old(canvas).width as nat;
                let h = old(canvas).height as nat;
                let g = wave_groups(chars@);
                if chars@.len() == 0 {
                    frames@.len() == 1 && frames@[0]@ == picture(w, h, Seq::empty())
                } else if g.len() == 0 {
                    frames@.len() == 1 && frames@[0]@ == picture(
                        w,
                        h,
                        chars@.map_values(|p: PlacedCharacter| (p.coord, formatted(p.visual))),
                    )
                } else {
                    &&& frames@.len() == wave_frame_count(g.len())
                    &&& forall|k: int| 0 <= k < frames@.len() ==> #[trigger] frames@[k]@ == picture(
                        w,
                        h,
                        wave_sprites(chars@, g, wave_colors@, final_colors@, k, chars@.len()),
                    )
                }
            }),
    {
        let ghost w = canvas.width as nat;
        let ghost h = canvas.height as nat;
        let mut frames: Vec<String> = Vec::new();
        let n = chars.len();
        if n == 0 {
            let none: Vec<(Coord, CharacterVisual)> = Vec::new();
            let f = draw_frame(canvas, none.as_slice());
            proof {
                assert(sprite_texts(none@) =~= Seq::empty());
            }
            frames.push(f);
            return frames;
        }
        let mut columns: Vec<i64> = Vec::new();
        let mut ids: Vec<u32> = Vec::new();
        let mut i: usize = 0;
        while i < n
            invariant
                n == chars@.len(),
                n < 0x1000_0000,
                i <= n,
                columns@ == rider_columns(chars@, i as nat),
                ids@ == rider_ids(chars@, i as nat),
                columns@.len() == ids@.len(),
                ids@.len() <= i,
            decreases n - i,
        {
            if rides_exec(&chars[i]) {
                columns.push(chars[i].coord.column as i64);
                ids.push(i as u32);
            }
            i = i + 1;
        }
        let groups = bucket_ids(columns.as_slice(), ids.as_slice());
        let ghost g = wave_groups(chars@);
        let count = groups.len();
        if count == 0 {
            let mut all: Vec<(Coord, CharacterVisual)> = Vec::new();
            let mut c: usize = 0;
            while c < n
                invariant
                    n == chars@.len(),
                    c <= n,
                    sprite_texts(all@) == chars@.map_values(|p: PlacedCharacter| (p.coord, formatted(p.visual))).take(c as int),
                decreases n - c,
            {
                let ghost before = all@;
                all.push((chars[c].coord, chars[c].visual.clone()));
                proof {
                    assert(sprite_texts(all@) =~= sprite_texts(before).push((chars@[c as int].coord, formatted(chars@[c as int].visual))));
                    assert(chars@.map_values(|p: PlacedCharacter| (p.coord, formatted(p.visual))).take(c + 1) =~= chars@.map_values(
                        |p: PlacedCharacter| (p.coord, formatted(p.visual)),
                    ).take(c as int).push((chars@[c as int].coord, formatted(chars@[c as int].visual))));
                }
                c = c + 1;
            }
            proof {
                assert(chars@.map_values(|p: PlacedCharacter| (p.coord, formatted(p.visual))).take(n as int) =~= chars@.map_values(
                    |p: PlacedCharacter| (p.coord, formatted(p.visual)),
                ));
            }
            frames.push(draw_frame(canvas, all.as_slice()));
            return frames;
        }
        let mut starts: Vec<Option<usize>> = Vec::new();
        while starts.len() < n
            invariant
                n == chars@.len(),
                starts@.len() <= n,
                forall|c: int| 0 <= c < starts@.len() ==> #[trigger] starts@[c] is None,
            decreases n - starts.len(),
        {
            starts.push(None);
        }
        let mut gi: usize = 0;
        while gi < count
            invariant
                n == chars@.len(),
                n < 0x1000_0000,
                count == groups@.len(),
                group_views(groups@) == g,
                gi <= count,
                starts@.len() == n,
                forall|c: int| 0 <= c < n ==> #[trigger] starts@[c] == wave_start(g, c, gi as nat),
            decreases count - gi,
        {
            let members = groups[gi].as_slice();
            proof {
                assert(members@ == g[gi as int]);
            }
            let mut j: usize = 0;
            while j < members.len()
                invariant
                    n == chars@.len(),
                    n < 0x1000_0000,
                    count == groups@.len(),
                    group_views(groups@) == g,
                    gi < count,
                    members@ == g[gi as int],
                    j <= members@.len(),
                    starts@.len() == n,
                    forall|c: int|
                        0 <= c < n ==> #[trigger] starts@[c] == (if members@.take(j as int).contains(c as u32) {
                            Some(gi)
                        } else {
                            wave_start(g, c, gi as nat)
                        }),
                decreases members.len() - j,
            {
                let id = members[j];
                if (id as usize) < n {
                    starts.set(id as usize, Some(gi));
                }
                proof {
                    assert forall|c: int|
                        0 <= c < n implies #[trigger] starts@[c] == (if members@.take(j + 1).contains(c as u32) {
                            Some(gi)
                        } else {
                            wave_start(g, c, gi as nat)
                        }) by {
                        assert(members@.take(j + 1) =~= members@.take(j as int).push(id));
                        if c == id as int {
                            assert(members@.take(j + 1)[j as int] == id);
                        }
                    }
                }
                j = j + 1;
            }
            proof {
                assert(members@.take(members@.len() as int) =~= members@);
            }
            gi = gi + 1;
        }
        let glyphs = glyph_strings();
        let white = Color::rgb(0xff, 0xff, 0xff);
        let mut settles: Vec<Vec<Color>> = Vec::new();
        let mut c: usize = 0;
        while c < n
            invariant
                n == chars@.len(),
                n == final_colors@.len(),
                white == wave_end(),
                c <= n,
                settles@.len() == c,
                forall|q: int|
                    0 <= q < c ==> (#[trigger] settles@[q])@ == gradient_spectrum(seq![wave_end(), final_colors@[q]], 12)
                        && settles@[q]@.len() == 13,
            decreases n - c,
        {
            let pair = vec![white, final_colors[c]];
            proof {
                assert(pair@ =~= seq![wave_end(), final_colors@[c as int]]);
                crate::graphics::lemma_gradient_stops(pair@, 12, 0);
            }
            let grad = Gradient::new(pair.as_slice(), 12);
            settles.push(vstd::slice::slice_to_vec(grad.spectrum()));
            c = c + 1;
        }
        let total: usize = if count <= 99999 - 273 { count + 275 } else { 100000 };
        let mut k: usize = 0;
        while k < total
            invariant
                canvas.wf(),
                canvas.width == w,
                canvas.height == h,
                canvas.width < 0x4000_0000,
                canvas.height < 0x4000_0000,
                n == chars@.len(),
                n == final_colors@.len(),
                wave_colors@.len() == 15,
                count == g.len(),
                total == wave_frame_count(g.len()),
                starts@.len() == n,
                forall|c: int| 0 <= c < n ==> #[trigger] starts@[c] == wave_start(g, c, g.len()),
                glyphs@.len() == 15,
                forall|i: int| 0 <= i < 15 ==> (#[trigger] glyphs@[i])@ == seq![wave_glyphs()[i]],
                settles@.len() == n,
                forall|q: int|
                    0 <= q < n ==> (#[trigger] settles@[q])@ == gradient_spectrum(seq![wave_end(), final_colors@[q]], 12)
                        && settles@[q]@.len() == 13,
                k <= total,
                frames@.len() == k,
                forall|q: int| 0 <= q < k ==> #[trigger] frames@[q]@ == picture(
                    w,
                    h,
                    wave_sprites(chars@, g, wave_colors@, final_colors@, q, n as nat),
                ),
            decreases total - k,
        {
            let mut sprites: Vec<(Coord, CharacterVisual)> = Vec::new();
            let mut c: usize = 0;
            while c < n
                invariant
                    n == chars@.len(),
                    n == final_colors@.len(),
                    wave_colors@.len() == 15,
                    starts@.len() == n,
                    forall|c: int| 0 <= c < n ==> #[trigger] starts@[c] == wave_start(g, c, g.len()),
                    glyphs@.len() == 15,
                    forall|i: int| 0 <= i < 15 ==> (#[trigger] glyphs@[i])@ == seq![wave_glyphs()[i]],
                    settles@.len() == n,
                    forall|q: int|
                        0 <= q < n ==> (#[trigger] settles@[q])@ == gradient_spectrum(seq![wave_end(), final_colors@[q]], 12)
                            && settles@[q]@.len() == 13,
                    c <= n,
                    k < total,
                    total <= 100001,
                    sprite_texts(sprites@) == wave_sprites(chars@, g, wave_colors@, final_colors@, k as int, c as nat),
                decreases n - c,
            {
                let ghost before = sprites@;
                match starts[c] {
                    Some(a) => {
                        if a <= k {
                            let e = k - a;
                            let visual = if e < 210 {
                                let gl = (e / 2) % 15;
                                CharacterVisual::new(glyphs[gl].as_str(), Some(ColorPair::fg(wave_colors[gl])))
                            } else if e < 275 {
                                CharacterVisual::new(chars[c].symbol.as_str(), Some(ColorPair::fg(settles[c][(e - 210) / 5])))
                            } else {
                                CharacterVisual::new(chars[c].symbol.as_str(), Some(ColorPair::fg(final_colors[c])))
                            };
                            proof {
                                lemma_fg_text(visual, visual.colors.unwrap().fg.unwrap());
                            }
                            sprites.push((chars[c].coord, visual));
                            proof {
                                assert(sprite_texts(sprites@) =~= sprite_texts(before).push((chars@[c as int].coord, formatted(visual))));
                            }
                        }
                    },
                    None => {},
                }
                c = c + 1;
            }
            let f = draw_frame(canvas, sprites.as_slice());
            let ghost earlier = frames@;
            frames.push(f);
            proof {
                assert forall|q: int| 0 <= q < k + 1 implies #[trigger] frames@[q]@ == picture(
                    w,
                    h,
                    wave_sprites(chars@, g, wave_colors@, final_colors@, q, n as nat),
                ) by {
                    if q < k {
                        assert(frames@[q] == earlier[q]);
                    }
                }
            }
            k = k + 1;
        }
        frames
    }
}

} // verus!
