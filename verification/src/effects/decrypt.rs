//! Decrypt: characters are typed as ciphertext, cycle through encrypted
//! symbols, and resolve to the plaintext in a gradient.
use vstd::prelude::*;
use vstd::string::StringSliceAdditionalSpecFns;

use crate::effects::random::xorshift64;
use crate::animation::{fg_text, formatted, lemma_fg_text, CharacterVisual};
use crate::canvas::{picture, sprite_texts, Canvas};
use crate::geometry::Coord;
use crate::graphics::{gradient_spectrum, lemma_gradient_stops, Color, ColorPair, Gradient};
use crate::terminal::{draw_frame, PlacedCharacter};
use crate::text::{char_from_u32, char_string};

verus! {

/// The decrypt effect.
#[derive(Clone, Copy, Debug, PartialEq, Eq, Structural)]
pub struct Decrypt;

impl Decrypt {
    pub fn new() -> (e: Self)
        ensures
            e == Decrypt,
    {
        Decrypt
    }

    pub fn name(&self) -> (n: &'static str)
        ensures
            n@ == "decrypt"@,
    {
        "decrypt"
    }
}

impl Default for Decrypt {
    fn default() -> (e: Self)
        ensures
            e == Decrypt,
    {
        Decrypt::new()
    }
}

/// The effect's xorshift64 generator, drawing whole 64-bit states.
pub struct Rng {
    pub state: u64,
}

impl Rng {
    /// Seeds the generator; the low bit is set so the state is never zero.
    pub fn new(seed: u64) -> (r: Self)
        ensures
            r.state == seed | 1,
    {
        Rng { state: seed | 1 }
    }

    pub fn next_u64(&mut self) -> (v: u64)
        ensures
            final(self).state == xorshift64(old(self).state),
            v == final(self).state,
    {
        let mut x = self.state;
        x = x ^ (x << 13u64);
        x = x ^ (x >> 7u64);
        x = x ^ (x << 17u64);
        self.state = x;
        x
    }

    /// A draw in `0..len`; `0`, drawing nothing, when `len` is zero.
    pub fn gen_index(&mut self, len: usize) -> (i: usize)
        ensures
            len == 0 ==> i == 0 && final(self).state == old(self).state,
            len > 0 ==> final(self).state == xorshift64(old(self).state) && i == (final(self).state as usize) % len,
            len > 0 ==> i < len,
    {
        if len == 0 {
            0
        } else {
            (self.next_u64() as usize) % len
        }
    }

    /// A uniformly drawn item.
    pub fn choice<'a, T>(&mut self, items: &'a [T]) -> (r: &'a T)
        requires
            items@.len() > 0,
        ensures
            final(self).state == xorshift64(old(self).state),
            *r == items@[((final(self).state as usize) as int) % (items@.len() as int)],
    {
        let i = self.gen_index(items.len());
        &items[i]
    }

    /// A draw in `lo..=hi` from the low 32 bits; `lo`, drawing nothing, when the range is empty.
    pub fn randint(&mut self, lo: u32, hi: u32) -> (v: u32)
        requires
            hi - lo + 1 <= u32::MAX,
        ensures
            hi <= lo ==> v == lo && final(self).state == old(self).state,
            lo < hi ==> {
                &&& final(self).state == xorshift64(old(self).state)
                &&& v == lo + ((final(self).state as u32) as int) % (hi - lo + 1)
                &&& lo <= v <= hi
            },
    {
        if hi <= lo {
            lo
        } else {
            lo + (self.next_u64() as u32) % (hi - lo + 1)
        }
    }
}

/// The seed of the effect: a multiply-then-add FNV-style fold over the input's bytes.
pub open spec fn seed_of(bytes: Seq<u8>) -> u64
    decreases bytes.len(),
{
    if bytes.len() == 0 {
        0xD3C2_9700_DEC2_4077u64
    } else {
        seed_of(bytes.drop_last()).wrapping_mul(0x0100_0000_01B3u64).wrapping_add(bytes.last() as u64)
    }
}

pub fn seed_from(input: &str) -> (h: u64)
    ensures
        h == seed_of(input.spec_bytes()),
{
    let bytes = input.as_bytes();
    let mut h: u64 = 0xD3C2_9700_DEC2_4077;
    let mut i: usize = 0;
    while i < bytes.len()
        invariant
            i <= bytes@.len(),
            bytes@ == input.spec_bytes(),
            h == seed_of(bytes@.take(i as int)),
        decreases bytes.len() - i,
    {
        proof {
            assert(bytes@.take(i as int + 1).drop_last() =~= bytes@.take(i as int));
        }
        h = h.wrapping_mul(0x0100_0000_01B3).wrapping_add(bytes[i] as u64);
        i = i + 1;
    }
    proof {
        assert(bytes@.take(bytes@.len() as int) =~= bytes@);
    }
    h
}

/// The cipher glyphs: the printable ASCII characters (codes 32 to 126), then the
/// characters with codes 231 to 351, each as a one-character string.
pub open spec fn cipher_glyphs() -> Seq<Seq<char>> {
    Seq::new(95, |i: int| seq![(32 + i) as char]) + Seq::new(121, |i: int| seq![(231 + i) as char])
}

fn push_range(symbols: &mut Vec<String>, from: u32, to: u32)
    requires
        from <= to,
        to <= 0xD800,
    ensures
        final(symbols)@.map_values(|s: String| s@) == old(symbols)@.map_values(|s: String| s@) + Seq::new(
            (to - from) as nat,
            |i: int| seq![(from + i) as char],
        ),
{
    let mut n = from;
    while n < to
        invariant
            from <= n <= to,
            to <= 0xD800,
            symbols@.map_values(|s: String| s@) == old(symbols)@.map_values(|s: String| s@) + Seq::new(
                (n - from) as nat,
                |i: int| seq![(from + i) as char],
            ),
        decreases to - n,
    {
        match char_from_u32(n) {
            Some(c) => {
                let ghost before = symbols@;
                symbols.push(char_string(c));
                proof {
                    assert(c == n as char);
                    assert(symbols@.map_values(|s: String| s@) =~= before.map_values(|s: String| s@).push(seq![c]));
                    assert(Seq::new((n + 1 - from) as nat, |i: int| seq![(from + i) as char]) =~= Seq::new(
                        (n - from) as nat,
                        |i: int| seq![(from + i) as char],
                    ).push(seq![c]));
                    assert(symbols@.map_values(|s: String| s@) =~= old(symbols)@.map_values(|s: String| s@) + Seq::new(
                        (n + 1 - from) as nat,
                        |i: int| seq![(from + i) as char],
                    ));
                }
            },
            None => {
                proof {
                    assert(false);
                }
            },
        }
        n = n + 1;
    }
}

/// The glyphs ciphertext is drawn from.
pub fn encrypted_symbols() -> (symbols: Vec<String>)
    ensures
        symbols@.map_values(|s: String| s@) == cipher_glyphs(),
{
    let mut symbols: Vec<String> = Vec::new();
    push_range(&mut symbols, 32, 127);
    push_range(&mut symbols, 231, 352);
    proof {
        assert(symbols@.map_values(|s: String| s@) =~= cipher_glyphs());
    }
    symbols
}

/// A color drawn from `colors`, or `fallback` (drawing nothing) when there are none.
pub fn pick_color(rng: &mut Rng, colors: &[Color], fallback: Color) -> (c: Color)
    ensures
        colors@.len() == 0 ==> c == fallback && final(rng).state == old(rng).state,
        colors@.len() > 0 ==> final(rng).state == xorshift64(old(rng).state),
        colors@.len() > 0 ==> c == colors@[((final(rng).state as usize) as int) % (colors@.len() as int)],
{
    if colors.len() == 0 {
        fallback
    } else {
        *rng.choice(colors)
    }
}


/// The generator's state after `m` draws from `state`.
pub open spec fn xorshift_iter(state: u64, m: nat) -> u64
    decreases m,
{
    if m == 0 {
        state
    } else {
        xorshift64(xorshift_iter(state, (m - 1) as nat))
    }
}

/// Draw `i` of the generator seeded with `seed`.
pub open spec fn draw(seed: u64, i: nat) -> u64 {
    xorshift_iter(seed | 1, i + 1)
}

/// A draw taken as an index below `len`.
pub open spec fn pick(v: u64, len: int) -> int {
    ((v as usize) as int) % len
}

/// The two ciphertext colors.
pub open spec fn cipher_colors() -> Seq<Color> {
    seq![Color { r: 0x00, g: 0xd1, b: 0xff }, Color { r: 0x00, g: 0x92, b: 0xcb }]
}

/// The ciphertext colors of the scrambling keys: ten steps between the two.
pub open spec fn cipher_spectrum() -> Seq<Color> {
    gradient_spectrum(cipher_colors(), 10)
}

/// The colors a character resolves through: from gold to brown to its final color.
pub open spec fn discovered(final_color: Color) -> Seq<Color> {
    gradient_spectrum(seq![Color { r: 0xed, g: 0xb2, b: 0x00 }, Color { r: 0x95, g: 0x71, b: 0x00 }, final_color], 10)
}

/// Draws made for the keys of each character.
pub open spec fn draws_per_char() -> nat {
    130
}

/// The first draw of slow key `j` (20 to 49) of character `c`.
pub open spec fn slow_draw(c: nat, j: nat) -> nat {
    (130 * c + 40 + 3 * (j - 20)) as nat
}

/// How many frames key `j` of character `c` is held: 2 for the 20 fast keys, 2 to 10
/// drawn for the 30 slow ones, 8 for the 21 resolving ones.
pub open spec fn key_duration(seed: u64, c: nat, j: nat) -> nat {
    if j < 20 {
        2
    } else if j < 50 {
        (2 + ((draw(seed, slow_draw(c, j) + 2) as u32) as int) % 9) as nat
    } else {
        8
    }
}

/// What key `j` of character `c` shows: a drawn glyph in a drawn ciphertext color for
/// the 50 scrambling keys, then the character itself through its resolving colors.
pub open spec fn key_text(ch: PlacedCharacter, final_color: Color, seed: u64, c: nat, j: nat) -> Seq<char> {
    if j < 20 {
        let b = 130 * c + 2 * j;
        fg_text(cipher_glyphs()[pick(draw(seed, b), 216)], cipher_spectrum()[pick(draw(seed, b + 1), 11)])
    } else if j < 50 {
        let b = slow_draw(c, j);
        fg_text(cipher_glyphs()[pick(draw(seed, b), 216)], cipher_spectrum()[pick(draw(seed, b + 1), 11)])
    } else {
        fg_text(ch.symbol@, discovered(final_color)[j - 50])
    }
}

/// Frames from the start of decrypting until key `j` of character `c` comes up.
pub open spec fn key_start(seed: u64, c: nat, j: nat) -> nat
    decreases j,
{
    if j == 0 {
        0
    } else {
        key_start(seed, c, (j - 1) as nat) + key_duration(seed, c, (j - 1) as nat)
    }
}

/// How many of keys `1..=j` of character `c` have come up `e` frames into decrypting:
/// the index of the key it shows.
pub open spec fn keys_begun(seed: u64, c: nat, e: int, j: nat) -> nat
    decreases j,
{
    if j == 0 {
        0
    } else {
        keys_begun(seed, c, e, (j - 1) as nat) + (if key_start(seed, c, j) <= e {
            1nat
        } else {
            0nat
        })
    }
}

/// The longest decryption among the first `m` characters.
pub open spec fn longest(seed: u64, m: nat) -> nat
    decreases m,
{
    if m == 0 {
        0
    } else {
        let t = key_start(seed, (m - 1) as nat, 71);
        let r = longest(seed, (m - 1) as nat);
        if t > r {
            t
        } else {
            r
        }
    }
}

/// Frames of the effect for `n > 0` characters: one typing frame each, then decrypting
/// until the slowest character has run through its keys; at most 200000.
pub open spec fn decrypt_frame_count(seed: u64, n: nat) -> nat {
    if n + longest(seed, n) <= 200000 {
        n + longest(seed, n)
    } else {
        200000
    }
}

/// What character `c` of `n` shows in frame `k`: hidden until typed in frame `c` as a
/// drawn glyph in a drawn ciphertext color; from frame `n` on, the key it has come to.
pub open spec fn decrypt_text(chars: Seq<PlacedCharacter>, finals: Seq<Color>, seed: u64, c: nat, k: int) -> Option<Seq<char>> {
    let n = chars.len();
    if k < n {
        if c <= k {
            let b = 130 * n + 2 * c;
            Some(fg_text(cipher_glyphs()[pick(draw(seed, b), 216)], cipher_colors()[pick(draw(seed, b + 1), 2)]))
        } else {
            None
        }
    } else {
        Some(key_text(chars[c as int], finals[c as int], seed, c, keys_begun(seed, c, k - n + 1, 70)))
    }
}

/// Frame `k` among the first `m` characters: each one shown, in order.
pub open spec fn decrypt_sprites(chars: Seq<PlacedCharacter>, finals: Seq<Color>, seed: u64, k: int, m: nat) -> Seq<(Coord, Seq<char>)>
    decreases m,
{
    if m == 0 {
        Seq::empty()
    } else {
        let prev = decrypt_sprites(chars, finals, seed, k, (m - 1) as nat);
        match decrypt_text(chars, finals, seed, (m - 1) as nat, k) {
            Some(t) => prev.push((chars[m - 1].coord, t)),
            None => prev,
        }
    }
}

fn spectrum_vec(stops: &[Color], steps: usize) -> (v: Vec<Color>)
    ensures
        v@ == gradient_spectrum(stops@, steps),
{
    let g = Gradient::new(stops, steps);
    vstd::slice::slice_to_vec(g.spectrum())
}

/// Character `q`'s keys and their start frames, as generated.
pub open spec fn keys_ok(ks: Seq<Key>, st: Seq<u32>, ch: PlacedCharacter, final_color: Color, seed: u64, q: nat) -> bool {
    &&& ks.len() == 71
    &&& st.len() == 72
    &&& forall|j: int| 0 <= j < 72 ==> (#[trigger] st[j]) as nat == key_start(seed, q, j as nat)
    &&& forall|j: int|
        0 <= j < 71 ==> {
            let key = #[trigger] ks[j];
            &&& key.2 as nat == key_duration(seed, q, j as nat)
            &&& (j < 50 ==> key.0 < 216 && fg_text(cipher_glyphs()[key.0 as int], key.1) == key_text(
                ch,
                final_color,
                seed,
                q,
                j as nat,
            ))
            &&& (j >= 50 ==> key.0 == 216 && key.1 == discovered(final_color)[j - 50])
        }
}

/// A character's keys: glyph index (216 for its own symbol), color and frames held.
pub type Key = (usize, Color, u32);

impl Decrypt {
    /// The frames of the effect for the characters laid out on `canvas`, drawing from the
    /// generator seeded with `seed` (`seed_from` of the input), character `c` resolving to
    /// `final_colors[c]`: frame `k` shows `decrypt_text` of each character. Without
    /// characters, one blank frame.
    pub fn frames(&self, canvas: &mut Canvas, chars: &[PlacedCharacter], final_colors: &[Color], seed: u64) -> (frames: Vec<String>)
        requires
            old(canvas).wf(),
            old(canvas).width < 0x4000_0000,
            old(canvas).height < 0x4000_0000,
            final_colors@.len() == chars@.len(),
            chars@.len() < 0x100_0000,
        ensures
            final(canvas).wf(),
            final(canvas).width == old(canvas).width,
            final(canvas).height == old(canvas).height,
            ({
                let w = old(canvas).width as nat;
                let h = old(canvas).height as nat;
                let n = chars@.len();
                if n == 0 {
                    frames@.len() == 1 && frames@[0]@ == picture(w, h, Seq::empty())
                } else {
                    &&& frames@.len() == decrypt_frame_count(seed, n)
                    &&& forall|k: int| 0 <= k < frames@.len() ==> #[trigger] frames@[k]@ == picture(
                        w,
                        h,
                        decrypt_sprites(chars@, final_colors@, seed, k, n),
                    )
                }
            }),
    {
        let ghost w = canvas.width as nat;
        let ghost h = canvas.height as nat;
        let mut frames: Vec<String> = Vec::new();
        let n = chars.len();
        if n == 0 {
            let none: Vec<(Coord, CharacterVisual)> = Vec::new();
            let f = draw_frame(canvas, none.as_slice());
            proof {
                assert(sprite_texts(none@) =~= Seq::empty());
            }
            frames.push(f);
            return frames;
        }
        let symbols = encrypted_symbols();
        proof {
            assert(symbols@.len() == 216) by {
                assert(symbols@.map_values(|s: String| s@).len() == cipher_glyphs().len());
            }
            assert forall|i: int| 0 <= i < 216 implies (#[trigger] symbols@[i])@ == cipher_glyphs()[i] by {
                assert(symbols@.map_values(|s: String| s@)[i] == symbols@[i]@);
            }
        }
        let pair = vec![Color::rgb(0x00, 0xd1, 0xff), Color::rgb(0x00, 0x92, 0xcb)];
        proof {
            assert(pair@ =~= cipher_colors());
            lemma_gradient_stops(cipher_colors(), 10, 0);
        }
        let spectrum = spectrum_vec(pair.as_slice(), 10);
        let mut rng = Rng::new(seed);
        let ghost mut count: nat = 0;
        let mut keys: Vec<Vec<Key>> = Vec::new();
        let mut starts: Vec<Vec<u32>> = Vec::new();
        let mut longest_run: u32 = 0;
        let mut c: usize = 0;
        while c < n
            invariant
                n == chars@.len(),
                n == final_colors@.len(),
                0 < n < 0x100_0000,
                c <= n,
                symbols@.len() == 216,
                pair@ == cipher_colors(),
                spectrum@ == cipher_spectrum(),
                spectrum@.len() == 11,
                count == 130 * c,
                rng.state == xorshift_iter(seed | 1, count),
                keys@.len() == c,
                starts@.len() == c,
                longest_run as nat == longest(seed, c as nat),
                forall|q: int|
                    0 <= q < c ==> #[trigger] keys_ok(keys@[q]@, starts@[q]@, chars@[q], final_colors@[q], seed, q as nat),
            decreases n - c,
        {
            let mut ks: Vec<Key> = Vec::new();
            let mut st: Vec<u32> = Vec::new();
            st.push(0);
            let mut t: u32 = 0;
            let mut j: usize = 0;
            while j < 50
                invariant
                    symbols@.len() == 216,
                    spectrum@ == cipher_spectrum(),
                    spectrum@.len() == 11,
                    c < n < 0x100_0000,
                    j <= 50,
                    count == 130 * c + (if j <= 20 { 2 * j } else { 40 + 3 * (j - 20) }),
                    rng.state == xorshift_iter(seed | 1, count),
                    ks@.len() == j,
                    st@.len() == j + 1,
                    t == st@[j as int],
                    t <= 10 * j,
                    forall|i: int| 0 <= i <= j ==> (#[trigger] st@[i]) as nat == key_start(seed, c as nat, i as nat),
                    forall|i: int|
                        0 <= i < j ==> {
                            let key = #[trigger] ks@[i];
                            &&& key.2 as nat == key_duration(seed, c as nat, i as nat)
                            &&& key.0 < 216
                            &&& fg_text(cipher_glyphs()[key.0 as int], key.1) == key_text(
                                chars@[c as int],
                                final_colors@[c as int],
                                seed,
                                c as nat,
                                i as nat,
                            )
                        },
                decreases 50 - j,
            {
                let ghost b = count;
                let g = rng.gen_index(216);
                proof {
                    count = count + 1;
                    assert(rng.state == draw(seed, b));
                }
                let ci = rng.gen_index(11);
                let color = spectrum[ci];
                proof {
                    count = count + 1;
                    assert(rng.state == draw(seed, b + 1));
                }
                let d: u32 = if j < 20 {
                    2
                } else {
                    let v = rng.randint(2, 10);
                    proof {
                        count = count + 1;
                        assert(b == slow_draw(c as nat, j as nat));
                        assert(rng.state == draw(seed, b + 2));
                    }
                    v
                };
                proof {
                    assert(rng.state == xorshift_iter(seed | 1, count));
                    assert(d as nat == key_duration(seed, c as nat, j as nat));
                }
                ks.push((g, color, d));
                t = t + d;
                st.push(t);
                proof {
                    assert(key_start(seed, c as nat, (j + 1) as nat) == key_start(seed, c as nat, j as nat) + key_duration(
                        seed,
                        c as nat,
                        j as nat,
                    ));
                }
                j = j + 1;
            }
            let stops = vec![Color::rgb(0xed, 0xb2, 0x00), Color::rgb(0x95, 0x71, 0x00), final_colors[c]];
            proof {
                assert(stops@ =~= seq![Color { r: 0xed, g: 0xb2, b: 0x00 }, Color { r: 0x95, g: 0x71, b: 0x00 }, final_colors@[c as int]]);
                lemma_gradient_stops(stops@, 10, 0);
            }
            let found = spectrum_vec(stops.as_slice(), 10);
            while j < 71
                invariant
                    50 <= j <= 71,
                    found@ == discovered(final_colors@[c as int]),
                    found@.len() == 21,
                    ks@.len() == j,
                    st@.len() == j + 1,
                    t == st@[j as int],
                    t <= 10 * j,
                    forall|i: int| 0 <= i <= j ==> (#[trigger] st@[i]) as nat == key_start(seed, c as nat, i as nat),
                    forall|i: int|
                        0 <= i < 50 ==> {
                            let key = #[trigger] ks@[i];
                            &&& key.2 as nat == key_duration(seed, c as nat, i as nat)
                            &&& key.0 < 216
                            &&& fg_text(cipher_glyphs()[key.0 as int], key.1) == key_text(
                                chars@[c as int],
                                final_colors@[c as int],
                                seed,
                                c as nat,
                                i as nat,
                            )
                        },
                    forall|i: int|
                        50 <= i < j ==> {
                            let key = #[trigger] ks@[i];
                            &&& key.2 as nat == key_duration(seed, c as nat, i as nat)
                            &&& key.0 == 216
                            &&& key.1 == discovered(final_colors@[c as int])[i - 50]
                        },
                decreases 71 - j,
            {
                ks.push((216, found[j - 50], 8));
                t = t + 8;
                st.push(t);
                j = j + 1;
            }
            if t > longest_run {
                longest_run = t;
            }
            proof {
                assert(keys_ok(ks@, st@, chars@[c as int], final_colors@[c as int], seed, c as nat));
            }
            keys.push(ks);
            starts.push(st);
            proof {
                assert(count == 130 * (c + 1));
            }
            c = c + 1;
        }
        let ghost typing_start = count;
        let mut typed: Vec<Key> = Vec::new();
        let mut k: usize = 0;
        while k < n
            invariant
                n == chars@.len(),
                0 < n < 0x100_0000,
                k <= n,
                symbols@.len() == 216,
                pair@ == cipher_colors(),
                count == 130 * n + 2 * k,
                rng.state == xorshift_iter(seed | 1, count),
                typed@.len() == k,
                forall|q: int|
                    0 <= q < k ==> {
                        let b = 130 * n + 2 * q;
                        &&& (#[trigger] typed@[q]).0 == pick(draw(seed, b as nat), 216)
                        &&& typed@[q].1 == cipher_colors()[pick(draw(seed, (b + 1) as nat), 2)]
                    },
            decreases n - k,
        {
            let g = rng.gen_index(216);
            proof {
                count = count + 1;
                assert(rng.state == xorshift_iter(seed | 1, count));
            }
            let ci = rng.gen_index(2);
            proof {
                count = count + 1;
                assert(rng.state == xorshift_iter(seed | 1, count));
            }
            typed.push((g, pair[ci], 0));
            k = k + 1;
        }
        let total: usize = if (n as u64) + (longest_run as u64) <= 200000 {
            n + longest_run as usize
        } else {
            200000
        };
        let mut k: usize = 0;
        while k < total
            invariant
                canvas.wf(),
                canvas.width == w,
                canvas.height == h,
                canvas.width < 0x4000_0000,
                canvas.height < 0x4000_0000,
                n == chars@.len(),
                n == final_colors@.len(),
                0 < n < 0x100_0000,
                symbols@.len() == 216,
                forall|i: int| 0 <= i < 216 ==> (#[trigger] symbols@[i])@ == cipher_glyphs()[i],
                keys@.len() == n,
                starts@.len() == n,
                forall|q: int|
                    0 <= q < n ==> #[trigger] keys_ok(keys@[q]@, starts@[q]@, chars@[q], final_colors@[q], seed, q as nat),
                typed@.len() == n,
                forall|q: int|
                    0 <= q < n ==> {
                        let b = 130 * n + 2 * q;
                        &&& (#[trigger] typed@[q]).0 == pick(draw(seed, b as nat), 216)
                        &&& typed@[q].1 == cipher_colors()[pick(draw(seed, (b + 1) as nat), 2)]
                    },
                total == decrypt_frame_count(seed, n as nat),
                total <= 200000,
                k <= total,
                frames@.len() == k,
                forall|q: int| 0 <= q < k ==> #[trigger] frames@[q]@ == picture(w, h, decrypt_sprites(chars@, final_colors@, seed, q, n as nat)),
            decreases total - k,
        {
            let mut sprites: Vec<(Coord, CharacterVisual)> = Vec::new();
            let mut c: usize = 0;
            while c < n
                invariant
                    n == chars@.len(),
                    n == final_colors@.len(),
                    0 < n < 0x100_0000,
                    symbols@.len() == 216,
                    forall|i: int| 0 <= i < 216 ==> (#[trigger] symbols@[i])@ == cipher_glyphs()[i],
                    keys@.len() == n,
                    starts@.len() == n,
                    forall|q: int|
                        0 <= q < n ==> #[trigger] keys_ok(keys@[q]@, starts@[q]@, chars@[q], final_colors@[q], seed, q as nat),
                    typed@.len() == n,
                    forall|q: int|
                        0 <= q < n ==> {
                            let b = 130 * n + 2 * q;
                            &&& (#[trigger] typed@[q]).0 == pick(draw(seed, b as nat), 216)
                            &&& typed@[q].1 == cipher_colors()[pick(draw(seed, (b + 1) as nat), 2)]
                        },
                    k < total,
                    total <= 200000,
                    c <= n,
                    sprite_texts(sprites@) == decrypt_sprites(chars@, final_colors@, seed, k as int, c as nat),
                decreases n - c,
            {
                let ghost before = sprites@;
                let shown: Option<CharacterVisual> = if k < n {
                    if c <= k {
                        let (g, color, _) = typed[c];
                        Some(CharacterVisual::new(symbols[g].as_str(), Some(ColorPair::fg(color))))
                    } else {
                        None
                    }
                } else {
                    let e = (k - n + 1) as u32;
                    proof {
                        let q: int = c as int;
                        assert(0 <= q < n);
                        assert(keys_ok(keys@[q]@, starts@[q]@, chars@[q], final_colors@[q], seed, q as nat));
                    }
                    let st = &starts[c];
                    let mut begun: usize = 0;
                    let mut j: usize = 1;
                    while j <= 70
                        invariant
                            1 <= j <= 71,
                            st@.len() == 72,
                            forall|i: int| 0 <= i < 72 ==> (#[trigger] st@[i]) as nat == key_start(seed, c as nat, i as nat),
                            begun as nat == keys_begun(seed, c as nat, e as int, (j - 1) as nat),
                            begun < j,
                        decreases 71 - j,
                    {
                        if st[j] <= e {
                            begun = begun + 1;
                        }
                        j = j + 1;
                    }
                    let (g, color, _) = keys[c][begun];
                    if g < 216 {
                        Some(CharacterVisual::new(symbols[g].as_str(), Some(ColorPair::fg(color))))
                    } else {
                        Some(CharacterVisual::new(chars[c].symbol.as_str(), Some(ColorPair::fg(color))))
                    }
                };
                match shown {
                    Some(visual) => {
                        proof {
                            lemma_fg_text(visual, visual.colors.unwrap().fg.unwrap());
                        }
                        sprites.push((chars[c].coord, visual));
                        proof {
                            assert(sprite_texts(sprites@) =~= sprite_texts(before).push((chars@[c as int].coord, formatted(visual))));
                        }
                    },
                    None => {},
                }
                c = c + 1;
            }
            let f = draw_frame(canvas, sprites.as_slice());
            let ghost earlier = frames@;
            frames.push(f);
            proof {
                assert forall|q: int| 0 <= q < k + 1 implies #[trigger] frames@[q]@ == picture(
                    w,
                    h,
                    decrypt_sprites(chars@, final_colors@, seed, q, n as nat),
                ) by {
                    if q < k {
                        assert(frames@[q] == earlier[q]);
                    }
                }
            }
            k = k + 1;
        }
        frames
    }
}

} // verus!
