//! Error correct: pairs of characters start swapped and slide back to
//! their correct places.
use vstd::prelude::*;
use vstd::string::StringSliceAdditionalSpecFns;

use crate::effects::random::{fnv1a, fnv1a64, high32, lcg64, lemma_swapped_multiset, swap_items, swapped};
use crate::geometry::Coord;
use crate::graphics::{
    from_hex_splits_char, gradient_spectrum, hex_or_white, lemma_hex6_color, Color, Gradient,
};

verus! {

/// The error-correct effect.
#[derive(Clone, Copy, Debug, PartialEq, Eq, Structural)]
pub struct Errorcorrect;

impl Errorcorrect {
    pub fn new() -> (e: Self)
        ensures
            e == Errorcorrect,
    {
        Errorcorrect
    }

    pub fn name(&self) -> (n: &'static str)
        ensures
            n@ == "errorcorrect"@,
    {
        "errorcorrect"
    }
}

/// The color `hex` names, white when it names none.
pub fn hex_color(hex: &str) -> (c: Color)
    requires
        !from_hex_splits_char(hex@),
    ensures
        c == hex_or_white(hex@),
{
    match Color::from_hex(hex) {
        Some(c) => c,
        None => Color::rgb(255, 255, 255),
    }
}

/// The color of a character out of place.
pub fn error_color() -> (c: Color)
    ensures
        c == (Color { r: 0xe7, g: 0x4c, b: 0x3c }),
{
    proof {
        reveal_strlit("e74c3c");
        lemma_hex6_color("e74c3c"@);
    }
    hex_color("e74c3c")
}

/// The color of a character back in place.
pub fn correct_color() -> (c: Color)
    ensures
        c == (Color { r: 0x45, g: 0xbf, b: 0x55 }),
{
    proof {
        reveal_strlit("45bf55");
        lemma_hex6_color("45bf55"@);
    }
    hex_color("45bf55")
}

/// The stops of the final gradient.
pub fn final_stops() -> (s: [Color; 3])
    ensures
        s@ == seq![
            Color { r: 0x8a, g: 0x00, b: 0x8a },
            Color { r: 0x00, g: 0xd1, b: 0xff },
            Color { r: 0xff, g: 0xff, b: 0xff },
        ],
{
    proof {
        reveal_strlit("8A008A");
        reveal_strlit("00D1FF");
        reveal_strlit("FFFFFF");
        lemma_hex6_color("8A008A"@);
        lemma_hex6_color("00D1FF"@);
        lemma_hex6_color("FFFFFF"@);
    }
    let s = [hex_color("8A008A"), hex_color("00D1FF"), hex_color("FFFFFF")];
    proof {
        assert(s@ =~= seq![
            Color { r: 0x8a, g: 0x00, b: 0x8a },
            Color { r: 0x00, g: 0xd1, b: 0xff },
            Color { r: 0xff, g: 0xff, b: 0xff },
        ]);
    }
    s
}

/// Whether a character shows anything: a glyph other than a space or tab, or a color.
pub fn is_content(symbol: &str, fg: Option<Color>, bg: Option<Color>) -> (b: bool)
    ensures
        b == ((symbol@ != " "@ && symbol@ != "\t"@) || fg is Some || bg is Some),
{
    let chars = crate::text::chars_of(symbol);
    proof {
        reveal_strlit(" ");
        reveal_strlit("\t");
    }
    let blank = chars.len() == 1 && (chars[0] == ' ' || chars[0] == '\t');
    proof {
        if chars@.len() == 1 {
            assert(blank ==> (symbol@ =~= " "@ || symbol@ =~= "\t"@));
        }
        if symbol@ == " "@ || symbol@ == "\t"@ {
            assert(chars@.len() == 1);
        }
    }
    !blank || fg.is_some() || bg.is_some()
}

/// The seed of the effect: FNV-1a over the input's bytes.
pub fn input_hash(input: &str) -> (h: u64)
    ensures
        h == fnv1a64(input.spec_bytes()),
{
    fnv1a(input.as_bytes())
}

/// The effect's 64-bit linear congruential generator, drawing its high 32 bits.
pub struct Rng(pub u64);

/// Fisher–Yates over positions `i` down to 1, each step swapping position `i` with the
/// next state's high 32 bits modulo `i + 1`.
pub open spec fn shuffled<T>(s: Seq<T>, state: u64, i: nat) -> (Seq<T>, u64)
    decreases i,
{
    if i == 0 {
        (s, state)
    } else {
        let next = lcg64(state);
        let j = (high32(next) as int) % (i as int + 1);
        shuffled(swapped(s, i as int, j), next, (i - 1) as nat)
    }
}

/// The shuffled items and the generator state after shuffling `s`.
pub open spec fn shuffle_result<T>(s: Seq<T>, state: u64) -> (Seq<T>, u64) {
    if s.len() <= 1 {
        (s, state)
    } else {
        shuffled(s, state, (s.len() - 1) as nat)
    }
}

proof fn lemma_shuffled_multiset<T>(s: Seq<T>, state: u64, i: nat)
    requires
        i < s.len(),
    ensures
        shuffled(s, state, i).0.to_multiset() == s.to_multiset(),
    decreases i,
{
    if i > 0 {
        let next = lcg64(state);
        let j = (high32(next) as int) % (i as int + 1);
        lemma_swapped_multiset(s, i as int, j);
        lemma_shuffled_multiset(swapped(s, i as int, j), next, (i - 1) as nat);
    }
}

impl Rng {
    /// Seeds the generator with the low bit set.
    pub fn new(seed: u64) -> (r: Self)
        ensures
            r.0 == seed | 1,
    {
        Rng(seed | 1)
    }

    pub fn next_u32(&mut self) -> (v: u32)
        ensures
            final(self).0 == lcg64(old(self).0),
            v == high32(final(self).0),
    {
        self.0 = self.0.wrapping_mul(6364136223846793005).wrapping_add(1);
        (self.0 >> 32u64) as u32
    }

    /// A draw in `0..max`; `0`, drawing nothing, when `max` is zero.
    pub fn gen_index(&mut self, max: usize) -> (i: usize)
        ensures
            max == 0 ==> i == 0 && final(self).0 == old(self).0,
            max > 0 ==> final(self).0 == lcg64(old(self).0) && i == (high32(final(self).0) as int) % (max as int),
            max > 0 ==> i < max,
    {
        if max == 0 {
            0
        } else {
            (self.next_u32() as usize) % max
        }
    }

    /// Shuffles `items` in place (Fisher–Yates, last position first).
    pub fn shuffle<T: Copy>(&mut self, items: &mut Vec<T>)
        ensures
            (final(items)@, final(self).0) == shuffle_result(old(items)@, old(self).0),
            final(items)@.to_multiset() == old(items)@.to_multiset(),
    {
        let n = items.len();
        if n <= 1 {
            return;
        }
        proof {
            lemma_shuffled_multiset(items@, self.0, (n - 1) as nat);
        }
        let mut i: usize = n - 1;
        while i > 0
            invariant
                i < n,
                items@.len() == n,
                shuffled(items@, self.0, i as nat) == shuffle_result(old(items)@, old(self).0),
            decreases i,
        {
            let j = self.gen_index(i + 1);
            swap_items(items, i, j);
            i = i - 1;
        }
    }
}

/// Frames each color of a fade is held.
pub const FINAL_GRADIENT_FRAMES: usize = 5;

/// A character fading through a spectrum, holding each color for a few frames.
pub struct Fade {
    pub id: u32,
    pub spectrum: Vec<Color>,
    pub step: usize,
    pub hold: usize,
}

impl Fade {
    pub fn new(id: u32, spectrum: Vec<Color>) -> (f: Self)
        ensures
            f.id == id,
            f.spectrum@ == spectrum@,
            f.step == 0,
            f.hold == 0,
    {
        Fade { id, spectrum, step: 0, hold: 0 }
    }

    /// The color shown now, if the spectrum reaches that far.
    pub fn color(&self) -> (c: Option<Color>)
        ensures
            c == (if self.step < self.spectrum@.len() { Some(self.spectrum@[self.step as int]) } else { None }),
    {
        if self.step < self.spectrum.len() {
            Some(self.spectrum[self.step])
        } else {
            None
        }
    }

    /// One frame: after holding a color for its frames, moves to the next one. False
    /// once the last color has been held (or there are no colors).
    pub fn advance(&mut self) -> (running: bool)
        requires
            old(self).hold < FINAL_GRADIENT_FRAMES,
        ensures
            final(self).id == old(self).id,
            final(self).spectrum@ == old(self).spectrum@,
            old(self).spectrum@.len() == 0 ==> !running && final(self).step == old(self).step && final(self).hold == old(self).hold,
            old(self).spectrum@.len() > 0 && old(self).hold + 1 < FINAL_GRADIENT_FRAMES ==> running
                && final(self).hold == old(self).hold + 1 && final(self).step == old(self).step,
            old(self).spectrum@.len() > 0 && old(self).hold + 1 >= FINAL_GRADIENT_FRAMES ==> final(self).hold == 0
                && (if old(self).step + 1 < old(self).spectrum@.len() {
                    running && final(self).step == old(self).step + 1
                } else {
                    !running && final(self).step == old(self).step
                }),
            final(self).hold < FINAL_GRADIENT_FRAMES,
    {
        if self.spectrum.len() == 0 {
            return false;
        }
        self.hold = self.hold + 1;
        if self.hold < FINAL_GRADIENT_FRAMES {
            return true;
        }
        self.hold = 0;
        if self.step < self.spectrum.len() - 1 {
            self.step = self.step + 1;
            true
        } else {
            false
        }
    }
}

/// The columns and rows spanned by the characters that show something, if any do:
/// `(left, right, bottom, top)`.
pub fn text_bounds(coords: &[Coord], content: &[bool]) -> (b: Option<(i32, i32, i32, i32)>)
    requires
        coords@.len() == content@.len(),
    ensures
        (b is None) <==> (forall|i: int| 0 <= i < content@.len() ==> !#[trigger] content@[i]),
        b matches Some((l, r, bo, t)) ==> {
            &&& exists|i: int| 0 <= i < coords@.len() && content@[i] && coords@[i].column == l
            &&& exists|i: int| 0 <= i < coords@.len() && content@[i] && coords@[i].column == r
            &&& exists|i: int| 0 <= i < coords@.len() && content@[i] && coords@[i].row == bo
            &&& exists|i: int| 0 <= i < coords@.len() && content@[i] && coords@[i].row == t
            &&& forall|i: int|
                0 <= i < coords@.len() && #[trigger] content@[i] ==> l <= coords@[i].column <= r && bo
                    <= coords@[i].row <= t
        },
{
    let mut found: Option<(i32, i32, i32, i32)> = None;
    let mut i: usize = 0;
    while i < coords.len()
        invariant
            i <= coords@.len(),
            coords@.len() == content@.len(),
            (found is None) <==> (forall|k: int| 0 <= k < i ==> !#[trigger] content@[k]),
            found matches Some((l, r, bo, t)) ==> {
                &&& exists|k: int| 0 <= k < i && content@[k] && coords@[k].column == l
                &&& exists|k: int| 0 <= k < i && content@[k] && coords@[k].column == r
                &&& exists|k: int| 0 <= k < i && content@[k] && coords@[k].row == bo
                &&& exists|k: int| 0 <= k < i && content@[k] && coords@[k].row == t
                &&& forall|k: int|
                    0 <= k < i && #[trigger] content@[k] ==> l <= coords@[k].column <= r && bo <= coords@[k].row
                        <= t
            },
        decreases coords.len() - i,
    {
        if content[i] {
            let c = coords[i];
            found = match found {
                None => Some((c.column, c.column, c.row, c.row)),
                Some((l, r, bo, t)) => Some(
                    (
                        if c.column < l { c.column } else { l },
                        if c.column > r { c.column } else { r },
                        if c.row < bo { c.row } else { bo },
                        if c.row > t { c.row } else { t },
                    ),
                ),
            };
        }
        i = i + 1;
    }
    found
}

/// The colors a corrected character passes through: from the correct color to its
/// final color in ten steps.
pub fn correct_spectrum(final_color: Color) -> (s: Vec<Color>)
    ensures
        s@ == gradient_spectrum(seq![Color { r: 0x45, g: 0xbf, b: 0x55 }, final_color], 10),
{
    let stops = vec![correct_color(), final_color];
    proof {
        assert(stops@ =~= seq![Color { r: 0x45, g: 0xbf, b: 0x55 }, final_color]);
    }
    let gradient = Gradient::new(stops.as_slice(), 10);
    let spec = gradient.spectrum();
    let mut out: Vec<Color> = Vec::new();
    let mut i: usize = 0;
    while i < spec.len()
        invariant
            i <= spec@.len(),
            out@ == spec@.take(i as int),
        decreases spec.len() - i,
    {
        out.push(spec[i]);
        proof {
            assert(out@ =~= spec@.take(i + 1));
        }
        i = i + 1;
    }
    proof {
        assert(spec@.take(spec@.len() as int) =~= spec@);
    }
    if out.len() == 0 {
        out.push(final_color);
        proof {
            assert(false);
        }
    }
    out
}

} // verus!
