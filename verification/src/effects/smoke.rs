//! Smoke: smoke drifts over the canvas to conceal, then reveal, the text.
use vstd::prelude::*;

use crate::animation::{fg_text, formatted, lemma_fg_text, CharacterVisual};
use crate::canvas::{picture, sprite_texts, Canvas};
use crate::effects::random::{lemma_permutes_range, lemma_swapped_multiset, slot_of, swap_items, swapped};
use crate::geometry::Coord;
use crate::graphics::{gradient_spectrum, lemma_gradient_stops, Color, ColorPair, Gradient};
use crate::terminal::{draw_frame, PlacedCharacter};

verus! {

/// The smoke effect.
#[derive(Clone, Copy, Debug, PartialEq, Eq, Structural)]
pub struct Smoke;

impl Smoke {
    pub fn new() -> (e: Self)
        ensures
            e == Smoke,
    {
        Smoke
    }

    pub fn name(&self) -> (n: &'static str)
        ensures
            n@ == "smoke"@,
    {
        "smoke"
    }
}

/// Where a character is in the smoke.
#[derive(Clone, Copy, Debug, PartialEq, Eq, Structural)]
pub enum Phase {
    Smoke,
    Dissipate,
    Reveal,
    Done,
}

/// One step of the MMIX linear congruential generator.
pub open spec fn mmix(x: u64) -> u64 {
    x.wrapping_mul(6364136223846793005u64).wrapping_add(1442695040888963407u64)
}

/// Fisher–Yates over positions `i` down to 1, each step swapping position `i` with the
/// next MMIX state modulo `i + 1`.
pub open spec fn mmix_shuffled<T>(s: Seq<T>, state: u64, i: nat) -> Seq<T>
    decreases i,
{
    if i == 0 {
        s
    } else {
        let next = mmix(state);
        mmix_shuffled(swapped(s, i as int, ((next as usize) as int) % (i as int + 1)), next, (i - 1) as nat)
    }
}

proof fn lemma_mmix_shuffled_multiset<T>(s: Seq<T>, state: u64, i: nat)
    requires
        i < s.len(),
    ensures
        mmix_shuffled(s, state, i).to_multiset() == s.to_multiset(),
    decreases i,
{
    if i > 0 {
        let next = mmix(state);
        let j = ((next as usize) as int) % (i as int + 1);
        lemma_swapped_multiset(s, i as int, j);
        lemma_mmix_shuffled_multiset(swapped(s, i as int, j), next, (i - 1) as nat);
    }
}

/// Shuffles `items` in place with the MMIX generator seeded with `state`.
pub fn lcg_shuffle<T: Copy>(items: &mut Vec<T>, state: u64)
    ensures
        final(items)@ == (if old(items)@.len() <= 1 {
            old(items)@
        } else {
            mmix_shuffled(old(items)@, state, (old(items)@.len() - 1) as nat)
        }),
        final(items)@.to_multiset() == old(items)@.to_multiset(),
{
    let n = items.len();
    if n <= 1 {
        return;
    }
    proof {
        lemma_mmix_shuffled_multiset(items@, state, (n - 1) as nat);
    }
    let ghost target = mmix_shuffled(items@, state, (n - 1) as nat);
    let mut st = state;
    let mut i: usize = n - 1;
    while i > 0
        invariant
            i < n,
            items@.len() == n,
            mmix_shuffled(items@, st, i as nat) == target,
        decreases i,
    {
        st = st.wrapping_mul(6364136223846793005).wrapping_add(1442695040888963407);
        let j = (st as usize) % (i + 1);
        swap_items(items, i, j);
        i = i - 1;
    }
}


/// The stops of the smoke greys.
pub open spec fn smoke_stops() -> Seq<Color> {
    seq![
        Color { r: 0x81, g: 0x85, b: 0x96 },
        Color { r: 0x73, g: 0x74, b: 0x7a },
        Color { r: 0x5d, g: 0x5f, b: 0x6b },
        Color { r: 0x3c, g: 0x3d, b: 0x43 },
        Color { r: 0x2a, g: 0x2c, b: 0x38 },
    ]
}

/// The smoke greys: five steps between each pair of stops, 21 colors.
pub open spec fn smoke_greys() -> Seq<Color> {
    gradient_spectrum(smoke_stops(), 5)
}

pub open spec fn black() -> Color {
    Color { r: 0, g: 0, b: 0 }
}

/// The order in which `n` characters are unveiled.
pub open spec fn unveil_order(n: nat) -> Seq<usize> {
    let ids = Seq::new(n, |i: int| i as usize);
    if n <= 1 {
        ids
    } else {
        mmix_shuffled(ids, 0xC0FF_EE54u64.wrapping_mul((n + 1) as u64), (n - 1) as nat)
    }
}

/// The frame in which the last characters are unveiled, three a frame.
pub open spec fn last_launch(n: nat) -> int {
    (n - 1) / 3
}

/// Frames of the effect for `n > 0` characters: the smoke until the last-unveiled
/// character has held every grey 10 frames, 32 frames of dissipating and 66 of revealing,
/// at most 2500.
pub open spec fn smoke_frame_count(n: nat) -> nat {
    let t = last_launch(n) + 308;
    if t <= 2500 {
        t as nat
    } else {
        2500
    }
}

/// What the character unveiled in frame `launch` shows in frame `k` of `n` characters:
/// nothing before it is unveiled; the smoke greys, each held 10 frames, keeping the
/// last; then, once all smoke has played, 30 frames fading from its final color to black
/// (each of 6 steps held 5 frames) and 2 frames blank; then 66 frames fading back in from
/// black over 13 steps held 5 frames each.
pub open spec fn smoke_text(ch: PlacedCharacter, final_color: Color, launch: int, n: nat, k: int) -> Option<Seq<char>> {
    let start = last_launch(n) + 210;
    if k < start {
        if launch <= k {
            let g = if (k - launch) / 10 < 20 { (k - launch) / 10 } else { 20 };
            Some(fg_text(ch.symbol@, smoke_greys()[g]))
        } else {
            None
        }
    } else if k < start + 32 {
        let d = k - start;
        if d < 30 {
            Some(fg_text(ch.symbol@, gradient_spectrum(seq![final_color, black()], 6)[d / 5 + 1]))
        } else {
            Some(fg_text(seq![' '], black()))
        }
    } else {
        let r = k - start - 32;
        let g = if r / 5 < 12 { r / 5 } else { 12 };
        Some(fg_text(ch.symbol@, gradient_spectrum(seq![black(), final_color], 12)[g]))
    }
}

/// Frame `k` among the first `m` characters: each one shown, in order.
pub open spec fn smoke_sprites(chars: Seq<PlacedCharacter>, finals: Seq<Color>, k: int, m: nat) -> Seq<(Coord, Seq<char>)>
    decreases m,
{
    if m == 0 {
        Seq::empty()
    } else {
        let prev = smoke_sprites(chars, finals, k, (m - 1) as nat);
        let c = m - 1;
        let n = chars.len();
        match smoke_text(chars[c], finals[c], slot_of(unveil_order(n), c) / 3, n, k) {
            Some(t) => prev.push((chars[c].coord, t)),
            None => prev,
        }
    }
}

fn spectrum_vec(stops: &[Color], steps: usize) -> (v: Vec<Color>)
    ensures
        v@ == gradient_spectrum(stops@, steps),
{
    let g = Gradient::new(stops, steps);
    vstd::slice::slice_to_vec(g.spectrum())
}

impl Smoke {
    /// The frames of the effect for the characters laid out on `canvas`, character `c`
    /// revealed in `final_colors[c]`: frame `k` shows `smoke_text` of each character,
    /// the characters unveiled three a frame in a shuffled order. Without characters,
    /// one blank frame.
    pub fn frames(&self, canvas: &mut Canvas, chars: &[PlacedCharacter], final_colors: &[Color]) -> (frames: Vec<String>)
        requires
            old(canvas).wf(),
            old(canvas).width < 0x4000_0000,
            old(canvas).height < 0x4000_0000,
            final_colors@.len() == chars@.len(),
            chars@.len() < 0x1000_0000,
        ensures
            final(canvas).wf(),
            final(canvas).width == old(canvas).width,
            final(canvas).height == old(canvas).height,
            ({
                let w = old(canvas).width as nat;
                let h = old(canvas).height as nat;
                let n = chars@.len();
                if n == 0 {
                    frames@.len() == 1 && frames@[0]@ == picture(w, h, Seq::empty())
                } else {
                    &&& frames@.len() == smoke_frame_count(n)
                    &&& forall|k: int| 0 <= k < frames@.len() ==> #[trigger] frames@[k]@ == picture(
                        w,
                        h,
                        smoke_sprites(chars@, final_colors@, k, n),
                    )
                }
            }),
    {
        let ghost w = canvas.width as nat;
        let ghost h = canvas.height as nat;
        let mut frames: Vec<String> = Vec::new();
        let n = chars.len();
        if n == 0 {
            let none: Vec<(Coord, CharacterVisual)> = Vec::new();
            let f = draw_frame(canvas, none.as_slice());
            proof {
                assert(sprite_texts(none@) =~= Seq::empty());
            }
            frames.push(f);
            return frames;
        }
        let mut order: Vec<usize> = Vec::new();
        while order.len() < n
            invariant
                order.len() <= n,
                order@ == Seq::new(order@.len(), |i: int| i as usize),
            decreases n - order.len(),
        {
            let ghost before = order@;
            order.push(order.len());
            proof {
                assert(order@ =~= Seq::new(order@.len(), |i: int| i as usize));
            }
        }
        let ghost ids = order@;
        lcg_shuffle(&mut order, 0xC0FF_EE54u64.wrapping_mul(n as u64 + 1));
        proof {
            assert(order@ == unveil_order(n as nat));
            lemma_permutes_range(order@, n as nat);
        }
        let mut slot: Vec<usize> = Vec::new();
        while slot.len() < n
            invariant
                slot.len() <= n,
            decreases n - slot.len(),
        {
            slot.push(0);
        }
        let mut p: usize = 0;
        while p < n
            invariant
                n == order@.len(),
                slot@.len() == n,
                p <= n,
                order@.no_duplicates(),
                forall|q: int| 0 <= q < n ==> #[trigger] order@[q] < n,
                forall|q: int| 0 <= q < p ==> #[trigger] slot@[order@[q] as int] == q,
            decreases n - p,
        {
            let c = order[p];
            slot.set(c, p);
            proof {
                assert forall|q: int| 0 <= q < p + 1 implies #[trigger] slot@[order@[q] as int] == q by {
                    if q < p {
                        assert(order@[q] != order@[p as int]);
                    }
                }
            }
            p = p + 1;
        }
        proof {
            assert forall|c: int| 0 <= c < n implies #[trigger] slot@[c] == slot_of(order@, c) by {
                assert(slot@[order@[slot_of(order@, c)] as int] == slot_of(order@, c));
            }
        }
        let stops = vec![
            Color::rgb(0x81, 0x85, 0x96),
            Color::rgb(0x73, 0x74, 0x7a),
            Color::rgb(0x5d, 0x5f, 0x6b),
            Color::rgb(0x3c, 0x3d, 0x43),
            Color::rgb(0x2a, 0x2c, 0x38),
        ];
        proof {
            assert(stops@ =~= smoke_stops());
            lemma_gradient_stops(smoke_stops(), 5, 0);
        }
        let greys = spectrum_vec(stops.as_slice(), 5);
        let dark = Color::rgb(0, 0, 0);
        let mut fades: Vec<Vec<Color>> = Vec::new();
        let mut reveals: Vec<Vec<Color>> = Vec::new();
        let mut c: usize = 0;
        while c < n
            invariant
                n == final_colors@.len(),
                dark == black(),
                c <= n,
                fades@.len() == c,
                reveals@.len() == c,
                forall|q: int|
                    0 <= q < c ==> (#[trigger] fades@[q])@ == gradient_spectrum(seq![final_colors@[q], black()], 6)
                        && fades@[q]@.len() == 7,
                forall|q: int|
                    0 <= q < c ==> (#[trigger] reveals@[q])@ == gradient_spectrum(seq![black(), final_colors@[q]], 12)
                        && reveals@[q]@.len() == 13,
            decreases n - c,
        {
            let out = vec![final_colors[c], dark];
            let back = vec![dark, final_colors[c]];
            proof {
                assert(out@ =~= seq![final_colors@[c as int], black()]);
                assert(back@ =~= seq![black(), final_colors@[c as int]]);
                lemma_gradient_stops(out@, 6, 0);
                lemma_gradient_stops(back@, 12, 0);
            }
            fades.push(spectrum_vec(out.as_slice(), 6));
            reveals.push(spectrum_vec(back.as_slice(), 12));
            c = c + 1;
        }
        let blank = crate::text::char_string(' ');
        let last: usize = (n - 1) / 3;
        let start: usize = last + 210;
        let total: usize = if last + 308 <= 2500 { last + 308 } else { 2500 };
        let mut k: usize = 0;
        while k < total
            invariant
                canvas.wf(),
                canvas.width == w,
                canvas.height == h,
                canvas.width < 0x4000_0000,
                canvas.height < 0x4000_0000,
                n == chars@.len(),
                n == final_colors@.len(),
                0 < n < 0x1000_0000,
                order@ == unveil_order(n as nat),
                slot@.len() == n,
                forall|c: int| 0 <= c < n ==> #[trigger] slot@[c] == slot_of(order@, c),
                forall|c: int| 0 <= c < n ==> 0 <= #[trigger] slot_of(order@, c) < n,
                greys@ == smoke_greys(),
                greys@.len() == 21,
                blank@ == seq![' '],
                dark == black(),
                fades@.len() == n,
                reveals@.len() == n,
                forall|q: int|
                    0 <= q < n ==> (#[trigger] fades@[q])@ == gradient_spectrum(seq![final_colors@[q], black()], 6)
                        && fades@[q]@.len() == 7,
                forall|q: int|
                    0 <= q < n ==> (#[trigger] reveals@[q])@ == gradient_spectrum(seq![black(), final_colors@[q]], 12)
                        && reveals@[q]@.len() == 13,
                last == last_launch(n as nat),
                start == last + 210,
                total == smoke_frame_count(n as nat),
                k <= total,
                frames@.len() == k,
                forall|q: int| 0 <= q < k ==> #[trigger] frames@[q]@ == picture(w, h, smoke_sprites(chars@, final_colors@, q, n as nat)),
            decreases total - k,
        {
            let mut sprites: Vec<(Coord, CharacterVisual)> = Vec::new();
            let mut c: usize = 0;
            while c < n
                invariant
                    n == chars@.len(),
                    n == final_colors@.len(),
                    0 < n < 0x1000_0000,
                    order@ == unveil_order(n as nat),
                    slot@.len() == n,
                    forall|c: int| 0 <= c < n ==> #[trigger] slot@[c] == slot_of(order@, c),
                    greys@ == smoke_greys(),
                    greys@.len() == 21,
                    blank@ == seq![' '],
                    dark == black(),
                    fades@.len() == n,
                    reveals@.len() == n,
                    forall|q: int|
                        0 <= q < n ==> (#[trigger] fades@[q])@ == gradient_spectrum(seq![final_colors@[q], black()], 6)
                            && fades@[q]@.len() == 7,
                    forall|q: int|
                        0 <= q < n ==> (#[trigger] reveals@[q])@ == gradient_spectrum(seq![black(), final_colors@[q]], 12)
                            && reveals@[q]@.len() == 13,
                    last == last_launch(n as nat),
                    start == last + 210,
                    k < total,
                    total <= 2500,
                    c <= n,
                    sprite_texts(sprites@) == smoke_sprites(chars@, final_colors@, k as int, c as nat),
                decreases n - c,
            {
                let ghost before = sprites@;
                let launch = slot[c] / 3;
                let shown: Option<CharacterVisual> = if k < start {
                    if launch <= k {
                        let age = (k - launch) / 10;
                        let g = if age < 20 { age } else { 20 };
                        Some(CharacterVisual::new(chars[c].symbol.as_str(), Some(ColorPair::fg(greys[g]))))
                    } else {
                        None
                    }
                } else if k < start + 32 {
                    let d = k - start;
                    if d < 30 {
                        Some(CharacterVisual::new(chars[c].symbol.as_str(), Some(ColorPair::fg(fades[c][d / 5 + 1]))))
                    } else {
                        Some(CharacterVisual::new(blank.as_str(), Some(ColorPair::fg(dark))))
                    }
                } else {
                    let r = (k - start - 32) / 5;
                    let g = if r < 12 { r } else { 12 };
                    Some(CharacterVisual::new(chars[c].symbol.as_str(), Some(ColorPair::fg(reveals[c][g]))))
                };
                match shown {
                    Some(visual) => {
                        proof {
                            lemma_fg_text(visual, visual.colors.unwrap().fg.unwrap());
                        }
                        sprites.push((chars[c].coord, visual));
                        proof {
                            assert(sprite_texts(sprites@) =~= sprite_texts(before).push((chars@[c as int].coord, formatted(visual))));
                        }
                    },
                    None => {},
                }
                c = c + 1;
            }
            let f = draw_frame(canvas, sprites.as_slice());
            let ghost earlier = frames@;
            frames.push(f);
            proof {
                assert forall|q: int| 0 <= q < k + 1 implies #[trigger] frames@[q]@ == picture(
                    w,
                    h,
                    smoke_sprites(chars@, final_colors@, q, n as nat),
                ) by {
                    if q < k {
                        assert(frames@[q] == earlier[q]);
                    }
                }
            }
            k = k + 1;
        }
        frames
    }
}

} // verus!
