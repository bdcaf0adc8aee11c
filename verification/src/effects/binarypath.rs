//! Binary path: each character travels to its home as a stream of its own
//! binary digits, then is wiped back to its glyph.
use vstd::prelude::*;

use crate::canvas::Canvas;
use crate::geometry::{find_coords_on_line, line_fits, walks_line, Coord};
use crate::graphics::{from_hex_splits_char, parse_hex_color, Color};
use crate::text::chars_of;

verus! {

/// The binary-path effect.
#[derive(Clone, Copy, Debug, PartialEq, Eq, Structural)]
pub struct Binarypath;

impl Binarypath {
    pub fn new() -> (e: Self)
        ensures
            e == Binarypath,
    {
        Binarypath
    }

    pub fn name(&self) -> (n: &'static str)
        ensures
            n@ == "binarypath"@,
    {
        "binarypath"
    }
}

/// Everything one character needs to play its part: its glyph and bits, the path it
/// travels, its colors and the frame it sets off on.
pub struct CharPlan {
    pub id: u32,
    pub symbol: String,
    pub bits: [char; 8],
    pub path: Vec<Coord>,
    pub binary_color: Color,
    pub final_color: Color,
    pub launch_frame: usize,
}

impl CharPlan {
    /// Frames spent travelling: the path's length, at least 12.
    pub fn travel_len(&self) -> (n: usize)
        ensures
            n == (if self.path@.len() > 12 { self.path@.len() } else { 12 }),
    {
        if self.path.len() > 12 {
            self.path.len()
        } else {
            12
        }
    }
}

/// The path from `start` through `mid` to `home`: the line to `mid`, then the line on
/// to `home` without repeating `mid`.
pub fn travel_path(start: Coord, mid: Coord, home: Coord) -> (path: Vec<Coord>)
    requires
        line_fits(start, mid),
        line_fits(mid, home),
    ensures
        exists|m: int|
            0 <= m < path@.len() && walks_line(#[trigger] path@.take(m + 1), start, mid) && walks_line(
                path@.skip(m),
                mid,
                home,
            ),
{
    let mut path = find_coords_on_line(start, mid);
    let home_leg = find_coords_on_line(mid, home);
    let ghost a = path@;
    let ghost b = home_leg@;
    if path[path.len() - 1] == home_leg[0] {
        let mut i: usize = 1;
        while i < home_leg.len()
            invariant
                1 <= i <= b.len(),
                b == home_leg@,
                path@ == a + b.subrange(1, i as int),
            decreases home_leg.len() - i,
        {
            path.push(home_leg[i]);
            proof {
                assert(b.subrange(1, i + 1) =~= b.subrange(1, i as int).push(b[i as int]));
            }
            i = i + 1;
        }
        proof {
            let m = a.len() - 1;
            assert(path@.take(m + 1) =~= a);
            assert(path@.skip(m) =~= b);
        }
    } else {
        proof {
            assert(false);
        }
    }
    path
}

/// A hash mixing a group number with a salt (one LCG step plus the salt, wrapping).
#[verifier::opaque]
pub open spec fn mix_spec(id: u32, salt: u32) -> u32 {
    id.wrapping_mul(1664525u32).wrapping_add(1013904223u32).wrapping_add(salt)
}

pub fn mix(id: u32, salt: u32) -> (h: u32)
    ensures
        h == mix_spec(id, salt),
{
    reveal(mix_spec);
    id.wrapping_mul(1664525).wrapping_add(1013904223).wrapping_add(salt)
}

/// The canvas is small enough for off-canvas starting points to fit an `i32`.
pub open spec fn canvas_fits(canvas: Canvas) -> bool {
    &&& canvas.width < 0x1000_0000
    &&& canvas.height < 0x1000_0000
    &&& -0x1000_0000 < canvas.left < 0x1000_0000
    &&& -0x1000_0000 < canvas.right < 0x1000_0000
    &&& -0x1000_0000 < canvas.top < 0x1000_0000
    &&& -0x1000_0000 < canvas.bottom < 0x1000_0000
}

/// Where group `group` enters: along the top, along the bottom, left of or right of the
/// canvas, the side and the offset along it chosen by hashing the group number,
/// shifted by the character's `slot` in the group.
pub open spec fn group_start_spec(canvas: Canvas, group: u32, slot: i32) -> Coord {
    let w = (if canvas.width > 1 { canvas.width } else { 1 }) as u32;
    let h = (if canvas.height > 1 { canvas.height } else { 1 }) as u32;
    let side = mix_spec(group, 11) % 4;
    if side == 0 {
        Coord { column: (canvas.left + (mix_spec(group, 22) % w) + slot) as i32, row: (canvas.top + 1) as i32 }
    } else if side == 1 {
        Coord { column: (canvas.left + (mix_spec(group, 33) % w) + slot) as i32, row: (canvas.bottom - 1) as i32 }
    } else if side == 2 {
        Coord { column: (canvas.left - 1) as i32, row: (canvas.bottom + (mix_spec(group, 44) % h) + slot) as i32 }
    } else {
        Coord { column: (canvas.right + 1) as i32, row: (canvas.bottom + (mix_spec(group, 55) % h) + slot) as i32 }
    }
}

pub fn group_start(canvas: &Canvas, group: u32, slot: i32) -> (c: Coord)
    requires
        canvas_fits(*canvas),
        -0x1000_0000 < slot < 0x1000_0000,
    ensures
        c == group_start_spec(*canvas, group, slot),
{
    let w: u32 = if canvas.width > 1 { canvas.width as u32 } else { 1 };
    let h: u32 = if canvas.height > 1 { canvas.height as u32 } else { 1 };
    assert(0 < w < 0x1000_0000 && 0 < h < 0x1000_0000);
    let side = mix(group, 11) % 4;
    if side == 0 {
        let off = mix(group, 22) % w;
        assert(off < w);
        Coord::new(canvas.left + off as i32 + slot, canvas.top + 1)
    } else if side == 1 {
        let off = mix(group, 33) % w;
        assert(off < w);
        Coord::new(canvas.left + off as i32 + slot, canvas.bottom - 1)
    } else if side == 2 {
        let off = mix(group, 44) % h;
        assert(off < h);
        Coord::new(canvas.left - 1, canvas.bottom + off as i32 + slot)
    } else {
        let off = mix(group, 55) % h;
        assert(off < h);
        Coord::new(canvas.right + 1, canvas.bottom + off as i32 + slot)
    }
}

/// Bit `k` (0 the lowest) of `value` as a binary digit.
pub open spec fn bit_char(value: u32, k: u32) -> char {
    if value & (1u32 << k) != 0 {
        '1'
    } else {
        '0'
    }
}

fn bit_of(value: u32, k: u32) -> (c: char)
    requires
        k < 32,
    ensures
        c == bit_char(value, k),
{
    if value & (1u32 << k) != 0 {
        '1'
    } else {
        '0'
    }
}

/// The low byte of the first character's code (0 for an empty symbol).
pub open spec fn symbol_byte(symbol: Seq<char>) -> u32 {
    if symbol.len() == 0 {
        0
    } else {
        (symbol[0] as u32) & 0xffu32
    }
}

/// The eight bits of the symbol's low byte, most significant first.
pub fn symbol_bits(symbol: &str) -> (bits: [char; 8])
    ensures
        forall|i: int| 0 <= i < 8 ==> #[trigger] bits@[i] == bit_char(symbol_byte(symbol@), (7 - i) as u32),
{
    let chars = chars_of(symbol);
    let value: u32 = if chars.len() == 0 {
        0
    } else {
        (chars[0] as u32) & 0xff
    };
    [
        bit_of(value, 7),
        bit_of(value, 6),
        bit_of(value, 5),
        bit_of(value, 4),
        bit_of(value, 3),
        bit_of(value, 2),
        bit_of(value, 1),
        bit_of(value, 0),
    ]
}

/// The color `hex` names, else `(r, g, b)`.
pub fn color_or(hex: &str, r: u8, g: u8, b: u8) -> (c: Color)
    requires
        !from_hex_splits_char(hex@),
    ensures
        c == (match parse_hex_color(hex@) {
            Some(x) => x,
            None => Color { r, g, b },
        }),
{
    match Color::from_hex(hex) {
        Some(c) => c,
        None => Color::rgb(r, g, b),
    }
}

/// The symbol the bits are first taken from: none; the glyph's own bits replace them.
pub fn plans_symbol_ref(home: Coord, index: usize, path: &Vec<Coord>, start: Coord) -> (s: String)
    ensures
        s@ == Seq::<char>::empty(),
{
    String::new()
}

} // verus!
