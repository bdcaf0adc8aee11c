use vstd::prelude::*;

use crate::utils::{floor_div, is_floor_div, lemma_floor_div_pos};
use crate::text::{
    chars_of, decimal, hex_byte, hex_value, hex_value_of, push_char, push_decimal_u8, push_hex_u8,
    strip_leading, strip_leading_chars, trim_chars, trimmed,
};

verus! {

/// A 24-bit RGB color.
#[derive(Clone, Copy, Debug, PartialEq, Eq, Hash, Structural)]
pub struct Color {
    pub r: u8,
    pub g: u8,
    pub b: u8,
}

/// The 16 system colors of the xterm palette.
pub open spec fn xterm_system(idx: u8) -> (u8, u8, u8) {
    match idx {
        0 => (0, 0, 0),
        1 => (128, 0, 0),
        2 => (0, 128, 0),
        3 => (128, 128, 0),
        4 => (0, 0, 128),
        5 => (128, 0, 128),
        6 => (0, 128, 128),
        7 => (192, 192, 192),
        8 => (128, 128, 128),
        9 => (255, 0, 0),
        10 => (0, 255, 0),
        11 => (255, 255, 0),
        12 => (0, 0, 255),
        13 => (255, 0, 255),
        14 => (0, 255, 255),
        _ => (255, 255, 255),
    }
}

/// Channel intensities of the 6x6x6 color cube.
pub open spec fn cube_level(i: int) -> u8 {
    if i == 0 { 0 } else if i == 1 { 95 } else if i == 2 { 135 } else if i == 3 { 175 } else if i == 4 { 215 } else { 255 }
}

/// The RGB value of xterm-256 color `idx`: 16 system colors, a 6x6x6 cube, then 24 grays.
pub open spec fn xterm_rgb(idx: u8) -> (u8, u8, u8) {
    if idx < 16 {
        xterm_system(idx)
    } else if idx < 232 {
        let n = idx - 16;
        (cube_level(n / 36), cube_level((n % 36) / 6), cube_level(n % 6))
    } else {
        let v = (8 + 10 * (idx - 232)) as u8;
        (v, v, v)
    }
}

fn level(i: u8) -> (v: u8)
    requires
        i < 6,
    ensures
        v == cube_level(i as int),
{
    match i {
        0 => 0,
        1 => 95,
        2 => 135,
        3 => 175,
        4 => 215,
        _ => 255,
    }
}

/// The RGB triple of xterm-256 color `idx`.
pub fn xterm_to_rgb(idx: u8) -> (rgb: (u8, u8, u8))
    ensures
        rgb == xterm_rgb(idx),
{
    if idx < 16 {
        return match idx {
            0 => (0, 0, 0),
            1 => (128, 0, 0),
            2 => (0, 128, 0),
            3 => (128, 128, 0),
            4 => (0, 0, 128),
            5 => (128, 0, 128),
            6 => (0, 128, 128),
            7 => (192, 192, 192),
            8 => (128, 128, 128),
            9 => (255, 0, 0),
            10 => (0, 255, 0),
            11 => (255, 255, 0),
            12 => (0, 0, 255),
            13 => (255, 0, 255),
            14 => (0, 255, 255),
            _ => (255, 255, 255),
        };
    }
    if idx < 232 {
        let n = idx - 16;
        let r = n / 36;
        let g = (n % 36) / 6;
        let b = n % 6;
        (level(r), level(g), level(b))
    } else {
        let v = 8 + 10 * (idx - 232);
        (v, v, v)
    }
}

/// `\x1b[38;2;R;G;Bm` (foreground) or `\x1b[48;2;R;G;Bm` (background).
pub open spec fn sgr_rgb(selector: char, c: Color) -> Seq<char> {
    seq!['\x1b', '[', selector, '8', ';', '2', ';'] + decimal(c.r as nat) + seq![';']
        + decimal(c.g as nat) + seq![';'] + decimal(c.b as nat) + seq!['m']
}

/// Six lowercase hex digits `rrggbb`.
pub open spec fn hex_string(c: Color) -> Seq<char> {
    hex_byte(c.r) + hex_byte(c.g) + hex_byte(c.b)
}

impl From<(u8, u8, u8)> for Color {
    fn from(rgb: (u8, u8, u8)) -> (c: Self) {
        Color { r: rgb.0, g: rgb.1, b: rgb.2 }
    }
}

impl vstd::std_specs::convert::FromSpecImpl<(u8, u8, u8)> for Color {
    open spec fn obeys_from_spec() -> bool {
        true
    }

    open spec fn from_spec(rgb: (u8, u8, u8)) -> Self {
        Color { r: rgb.0, g: rgb.1, b: rgb.2 }
    }
}

impl Color {
    pub fn rgb(r: u8, g: u8, b: u8) -> (c: Self)
        ensures
            c == (Color { r, g, b }),
    {
        Color { r, g, b }
    }

    pub fn from_xterm(idx: u8) -> (c: Self)
        ensures
            (c.r, c.g, c.b) == xterm_rgb(idx),
    {
        let (r, g, b) = xterm_to_rgb(idx);
        Color { r, g, b }
    }

    /// Six lowercase hex digits, `rrggbb`.
    pub fn hex(&self) -> (s: String)
        ensures
            s@ == hex_string(*self),
    {
        let mut s = String::new();
        push_hex_u8(&mut s, self.r);
        push_hex_u8(&mut s, self.g);
        push_hex_u8(&mut s, self.b);
        s
    }

    fn sgr(&self, selector: char) -> (s: String)
        ensures
            s@ == sgr_rgb(selector, *self),
    {
        let mut s = String::new();
        push_char(&mut s, '\x1b');
        push_char(&mut s, '[');
        push_char(&mut s, selector);
        push_char(&mut s, '8');
        push_char(&mut s, ';');
        push_char(&mut s, '2');
        push_char(&mut s, ';');
        push_decimal_u8(&mut s, self.r);
        push_char(&mut s, ';');
        push_decimal_u8(&mut s, self.g);
        push_char(&mut s, ';');
        push_decimal_u8(&mut s, self.b);
        push_char(&mut s, 'm');
        proof {
            assert(s@ =~= sgr_rgb(selector, *self));
        }
        s
    }

    /// The 24-bit foreground escape sequence for this color.
    pub fn fg_sgr(&self) -> (s: String)
        ensures
            s@ == sgr_rgb('3', *self),
    {
        self.sgr('3')
    }

    /// The 24-bit background escape sequence for this color.
    pub fn bg_sgr(&self) -> (s: String)
        ensures
            s@ == sgr_rgb('4', *self),
    {
        self.sgr('4')
    }
}

/// Number of bytes in the UTF-8 encoding of `c`.
pub open spec fn utf8_len(c: char) -> nat {
    let v = c as u32;
    if v < 0x80 { 1 } else if v < 0x800 { 2 } else if v < 0x10000 { 3 } else { 4 }
}

/// Number of bytes in the UTF-8 encoding of `s`.
pub open spec fn byte_len(s: Seq<char>) -> nat
    decreases s.len(),
{
    if s.len() == 0 { 0 } else { byte_len(s.drop_last()) + utf8_len(s.last()) }
}

/// Byte offset `k` falls between two characters of `s`.
pub open spec fn is_byte_boundary(s: Seq<char>, k: int) -> bool {
    exists|i: int| 0 <= i <= s.len() && byte_len(s.take(i)) == k
}

/// What `from_hex` reads: the input without surrounding whitespace and leading `#`s.
pub open spec fn hex_body(s: Seq<char>) -> Seq<char> {
    strip_leading(trimmed(s), '#')
}

/// Inputs on which slicing the body at byte offsets would split a character: a 3-byte
/// body that is not three ASCII characters, or a 6-byte body not cut at bytes 2 and 4.
pub open spec fn from_hex_splits_char(s: Seq<char>) -> bool {
    let h = hex_body(s);
    ||| byte_len(h) == 3 && h.len() != 3
    ||| byte_len(h) == 6 && !(is_byte_boundary(h, 2) && is_byte_boundary(h, 4))
}

/// A channel written as one digit `x`, read as the two digits `xx`.
pub open spec fn short_channel(c: char) -> Option<nat> {
    if c == '+' {
        None
    } else {
        match hex_value(c) {
            Some(d) => Some(d * 17),
            None => None,
        }
    }
}

/// A channel written as two characters, read as a base-16 `u8` (a leading `+` is allowed).
pub open spec fn long_channel(a: char, b: char) -> Option<nat> {
    if a == '+' {
        hex_value(b)
    } else {
        match (hex_value(a), hex_value(b)) {
            (Some(x), Some(y)) => Some(x * 16 + y),
            _ => None,
        }
    }
}

pub open spec fn channels_color(r: Option<nat>, g: Option<nat>, b: Option<nat>) -> Option<Color> {
    match (r, g, b) {
        (Some(r), Some(g), Some(b)) => Some(Color { r: r as u8, g: g as u8, b: b as u8 }),
        _ => None,
    }
}

/// The color a `#rgb` or `#rrggbb` string names, if any.
pub open spec fn parse_hex_color(s: Seq<char>) -> Option<Color> {
    let h = hex_body(s);
    if h.len() == 3 && byte_len(h) == 3 {
        channels_color(short_channel(h[0]), short_channel(h[1]), short_channel(h[2]))
    } else if h.len() == 6 && byte_len(h) == 6 {
        channels_color(long_channel(h[0], h[1]), long_channel(h[2], h[3]), long_channel(h[4], h[5]))
    } else {
        None
    }
}

proof fn lemma_byte_len_take(s: Seq<char>, i: int)
    requires
        0 <= i < s.len(),
    ensures
        byte_len(s.take(i + 1)) == byte_len(s.take(i)) + utf8_len(s[i]),
{
    assert(s.take(i + 1).drop_last() =~= s.take(i));
}

/// `min(byte_len(s), 7)`: enough to tell 3 and 6 bytes apart from everything else.
fn byte_len_capped(s: &Vec<char>) -> (n: usize)
    ensures
        n == (if byte_len(s@) < 7 { byte_len(s@) } else { 7 }),
{
    let mut n: usize = 0;
    let mut i: usize = 0;
    while i < s.len()
        invariant
            i <= s.len(),
            n == (if byte_len(s@.take(i as int)) < 7 { byte_len(s@.take(i as int)) } else { 7 }),
        decreases s.len() - i,
    {
        proof {
            lemma_byte_len_take(s@, i as int);
        }
        let c = s[i] as u32;
        let w: usize = if c < 0x80 { 1 } else if c < 0x800 { 2 } else if c < 0x10000 { 3 } else { 4 };
        n = if n + w < 7 { n + w } else { 7 };
        i += 1;
    }
    proof {
        assert(s@.take(s@.len() as int) =~= s@);
    }
    n
}

fn short_channel_of(c: char) -> (v: Option<u8>)
    ensures
        v matches Some(x) ==> short_channel(c) == Some(x as nat),
        v is None ==> short_channel(c) is None,
{
    if c == '+' {
        return None;
    }
    match hex_value_of(c) {
        Some(d) => Some(d * 17),
        None => None,
    }
}

pub fn long_channel_of(a: char, b: char) -> (v: Option<u8>)
    ensures
        v matches Some(x) ==> long_channel(a, b) == Some(x as nat),
        v is None ==> long_channel(a, b) is None,
{
    if a == '+' {
        return hex_value_of(b);
    }
    match (hex_value_of(a), hex_value_of(b)) {
        (Some(x), Some(y)) => Some(x * 16 + y),
        _ => None,
    }
}

impl Color {
    /// Parses `#rgb` / `#rrggbb` (surrounding whitespace and any number of leading `#`
    /// allowed; each channel read as a base-16 `u8`).
    pub fn from_hex(hex: &str) -> (c: Option<Self>)
        requires
            !from_hex_splits_char(hex@),
        ensures
            c == parse_hex_color(hex@),
    {
        let chars = chars_of(hex);
        let t = trim_chars(&chars);
        let h = strip_leading_chars(&t, '#');
        let bytes = byte_len_capped(&h);
        if h.len() == 3 && bytes == 3 {
            let r = short_channel_of(h[0]);
            let g = short_channel_of(h[1]);
            let b = short_channel_of(h[2]);
            match (r, g, b) {
                (Some(r), Some(g), Some(b)) => Some(Color { r, g, b }),
                _ => None,
            }
        } else if h.len() == 6 && bytes == 6 {
            let r = long_channel_of(h[0], h[1]);
            let g = long_channel_of(h[2], h[3]);
            let b = long_channel_of(h[4], h[5]);
            match (r, g, b) {
                (Some(r), Some(g), Some(b)) => Some(Color { r, g, b }),
                _ => None,
            }
        } else {
            None
        }
    }
}

proof fn lemma_hex_digit_value(d: nat)
    requires
        d < 16,
    ensures
        hex_value(crate::text::hex_digit(d)) == Some(d),
        crate::text::hex_digit(d) != '+',
        (crate::text::hex_digit(d) as u32) < 0x80,
        !crate::text::is_whitespace(crate::text::hex_digit(d)),
        crate::text::hex_digit(d) != '#',
{
}

/// Law: the hex string of a color parses back to that color.
pub proof fn lemma_hex_roundtrip(c: Color)
    ensures
        !from_hex_splits_char(hex_string(c)),
        parse_hex_color(hex_string(c)) == Some(c),
{
    let s = hex_string(c);
    lemma_hex_digit_value(c.r as nat / 16);
    lemma_hex_digit_value(c.r as nat % 16);
    lemma_hex_digit_value(c.g as nat / 16);
    lemma_hex_digit_value(c.g as nat % 16);
    lemma_hex_digit_value(c.b as nat / 16);
    lemma_hex_digit_value(c.b as nat % 16);
    assert(s.len() == 6);
    assert(crate::text::leading_ws(s) == 0);
    assert(crate::text::trailing_ws(s) == 0);
    assert(trimmed(s) =~= s);
    assert(strip_leading(s, '#') == s);
    assert(hex_body(s) == s);
    assert(byte_len(s.take(0)) == 0);
    assert(s.take(6) =~= s);
    lemma_byte_len_take(s, 0);
    lemma_byte_len_take(s, 1);
    lemma_byte_len_take(s, 2);
    lemma_byte_len_take(s, 3);
    lemma_byte_len_take(s, 4);
    lemma_byte_len_take(s, 5);
    assert(byte_len(s.take(1)) == 1);
    assert(byte_len(s.take(2)) == 2);
    assert(byte_len(s.take(3)) == 3);
    assert(byte_len(s.take(4)) == 4);
    assert(byte_len(s.take(5)) == 5);
    assert(byte_len(s.take(6)) == 6);
    assert(byte_len(s) == 6);
    assert(is_byte_boundary(s, 2));
    assert(is_byte_boundary(s, 4));
    assert(c.r as nat / 16 * 16 + c.r as nat % 16 == c.r);
    assert(c.g as nat / 16 * 16 + c.g as nat % 16 == c.g);
    assert(c.b as nat / 16 * 16 + c.b as nat % 16 == c.b);
}

/// A character in ASCII upper case.
pub open spec fn ascii_upper(c: char) -> char {
    if 'a' <= c <= 'z' {
        ((c as u32) - 32) as char
    } else {
        c
    }
}

/// Law: the hex string of a color still parses back to it after a leading `#`.
pub proof fn lemma_hex_with_hash(c: Color)
    ensures
        !from_hex_splits_char(seq!['#'] + hex_string(c)),
        parse_hex_color(seq!['#'] + hex_string(c)) == Some(c),
{
    let s = hex_string(c);
    lemma_hex_roundtrip(c);
    lemma_hex_digit_value(c.b as nat % 16);
    lemma_hex_digit_value(c.r as nat / 16);
    assert(s.len() == 6);
    let t = seq!['#'] + s;
    assert(crate::text::leading_ws(t) == 0);
    assert(crate::text::trailing_ws(t) == 0) by {
        assert(t.last() == s[5]);
    }
    assert(trimmed(t) =~= t);
    assert(t.drop_first() =~= s);
    assert(strip_leading(t, '#') == strip_leading(s, '#'));
    assert(trimmed(s) =~= s) by {
        assert(crate::text::leading_ws(s) == 0);
        assert(crate::text::trailing_ws(s) == 0);
    }
    assert(hex_body(t) == hex_body(s));
}

/// Law: the hex string of a color in upper case parses back to it.
#[verifier::rlimit(40)]
pub proof fn lemma_hex_upper(c: Color)
    ensures
        !from_hex_splits_char(hex_string(c).map_values(|x: char| ascii_upper(x))),
        parse_hex_color(hex_string(c).map_values(|x: char| ascii_upper(x))) == Some(c),
{
    let s = hex_string(c);
    lemma_hex_roundtrip(c);
    lemma_hex_digit_value(c.r as nat / 16);
    lemma_hex_digit_value(c.r as nat % 16);
    lemma_hex_digit_value(c.g as nat / 16);
    lemma_hex_digit_value(c.g as nat % 16);
    lemma_hex_digit_value(c.b as nat / 16);
    lemma_hex_digit_value(c.b as nat % 16);
    assert(s.len() == 6);
    assert forall|i: int| 0 <= i < 6 implies #[trigger] hex_value(s[i]) is Some by {}
    lemma_hex6_color(s);
    let u = s.map_values(|x: char| ascii_upper(x));
    assert forall|i: int| 0 <= i < 6 implies #[trigger] hex_value(u[i]) is Some && digit(u[i]) == digit(s[i]) by {
        assert(u[i] == ascii_upper(s[i]));
    }
    lemma_hex6_color(u);
    assert(digit(u[0]) == digit(s[0]));
    assert(digit(u[1]) == digit(s[1]));
    assert(digit(u[2]) == digit(s[2]));
    assert(digit(u[3]) == digit(s[3]));
    assert(digit(u[4]) == digit(s[4]));
    assert(digit(u[5]) == digit(s[5]));
}

/// The value of a hex digit known to be one.
pub open spec fn digit(c: char) -> nat {
    match hex_value(c) {
        Some(d) => d,
        None => 0,
    }
}

/// A six-digit hex string names the color whose channels are its digit pairs, and
/// `from_hex` reads it without splitting a character.
pub proof fn lemma_hex6_color(s: Seq<char>)
    requires
        s.len() == 6,
        forall|i: int| 0 <= i < 6 ==> #[trigger] hex_value(s[i]) is Some,
    ensures
        !from_hex_splits_char(s),
        parse_hex_color(s) == Some(
            Color {
                r: (digit(s[0]) * 16 + digit(s[1])) as u8,
                g: (digit(s[2]) * 16 + digit(s[3])) as u8,
                b: (digit(s[4]) * 16 + digit(s[5])) as u8,
            },
        ),
{
    assert forall|i: int| 0 <= i < 6 implies !crate::text::is_whitespace(#[trigger] s[i]) && s[i] != '#'
        && s[i] != '+' && (s[i] as u32) < 0x80 && digit(s[i]) < 16 by {
        assert(hex_value(s[i]) is Some);
    }
    assert(crate::text::leading_ws(s) == 0) by {
        assert(!crate::text::is_whitespace(s[0]));
    }
    assert(crate::text::trailing_ws(s) == 0) by {
        assert(!crate::text::is_whitespace(s[5]));
    }
    assert(trimmed(s) =~= s);
    assert(strip_leading(s, '#') == s) by {
        assert(s[0] != '#');
    }
    assert(hex_body(s) == s);
    assert(byte_len(s.take(0)) == 0);
    assert(s.take(6) =~= s);
    lemma_byte_len_take(s, 0);
    lemma_byte_len_take(s, 1);
    lemma_byte_len_take(s, 2);
    lemma_byte_len_take(s, 3);
    lemma_byte_len_take(s, 4);
    lemma_byte_len_take(s, 5);
    assert(utf8_len(s[0]) == 1 && utf8_len(s[1]) == 1 && utf8_len(s[2]) == 1);
    assert(utf8_len(s[3]) == 1 && utf8_len(s[4]) == 1 && utf8_len(s[5]) == 1);
    assert(byte_len(s) == 6);
    assert(is_byte_boundary(s, 2));
    assert(is_byte_boundary(s, 4));
    assert(long_channel(s[0], s[1]) == Some(digit(s[0]) * 16 + digit(s[1])));
    assert(long_channel(s[2], s[3]) == Some(digit(s[2]) * 16 + digit(s[3])));
    assert(long_channel(s[4], s[5]) == Some(digit(s[4]) * 16 + digit(s[5])));
}

/// Optional foreground and background colors.
#[derive(Clone, Copy, Debug, Default, PartialEq, Eq, Hash, Structural)]
pub struct ColorPair {
    pub fg: Option<Color>,
    pub bg: Option<Color>,
}

impl ColorPair {
    pub fn new(fg: Option<Color>, bg: Option<Color>) -> (p: Self)
        ensures
            p == (ColorPair { fg, bg }),
    {
        ColorPair { fg, bg }
    }

    pub fn fg(color: Color) -> (p: Self)
        ensures
            p == (ColorPair { fg: Some(color), bg: None }),
    {
        ColorPair { fg: Some(color), bg: None }
    }

    pub fn bg(color: Color) -> (p: Self)
        ensures
            p == (ColorPair { fg: None, bg: Some(color) }),
    {
        ColorPair { fg: None, bg: Some(color) }
    }

    /// `None` when neither color is set, the pair itself otherwise.
    pub fn into_option(self) -> (o: Option<ColorPair>)
        ensures
            o == (if self.fg is None && self.bg is None { None } else { Some(self) }),
    {
        if self.fg.is_none() && self.bg.is_none() {
            None
        } else {
            Some(self)
        }
    }
}

/// How a gradient is laid over the text.
#[derive(Clone, Copy, Debug, Default, PartialEq, Eq, Structural)]
pub enum GradientDirection {
    #[default]
    Vertical,
    Horizontal,
    Diagonal,
    Radial,
    Center,
}

/// `v` clamped into `0..=255`.
pub open spec fn clamp_channel(v: int) -> u8 {
    (if v < 0 { 0 } else if v > 255 { 255 } else { v }) as u8
}

/// Channel `i` of `n` steps from `a` toward `b`: `a + ((b - a) // n) * i`, clamped.
pub open spec fn step_channel(a: u8, b: u8, n: int, i: int) -> u8 {
    clamp_channel(a + ((b - a) / n) * i)
}

/// Color `i` of the `n`-step blend from `a` toward `b`.
pub open spec fn step_color(a: Color, b: Color, n: int, i: int) -> Color {
    Color { r: step_channel(a.r, b.r, n, i), g: step_channel(a.g, b.g, n, i), b: step_channel(a.b, b.b, n, i) }
}

/// Steps per pair of stops: `steps` as an `i32`, negative counts giving none.
pub open spec fn steps_per_pair(steps: usize) -> int {
    let n = (steps as i32) as int;
    if n > 0 { n } else { 0 }
}

/// The colors of a gradient through `stops`: for each consecutive pair, `n` colors stepping
/// from the first stop toward the second by `(end - start) // n` per channel, then the last stop.
pub open spec fn gradient_spectrum(stops: Seq<Color>, steps: usize) -> Seq<Color> {
    if stops.len() == 0 {
        Seq::empty()
    } else if stops.len() == 1 || steps == 0 {
        stops
    } else {
        let n = steps_per_pair(steps);
        Seq::new(((stops.len() - 1) * n) as nat, |k: int| step_color(stops[k / n], stops[k / n + 1], n, k % n))
            .push(stops.last())
    }
}

fn clamp_to_channel(v: i32) -> (c: u8)
    ensures
        c == clamp_channel(v as int),
{
    if v < 0 {
        0
    } else if v > 255 {
        255
    } else {
        v as u8
    }
}

proof fn lemma_step_fits(a: u8, d: int, x: int, n: int, i: int)
    requires
        n > 0,
        -255 <= x <= 255,
        d == x / n,
        0 <= i < n,
        n <= i32::MAX,
    ensures
        i32::MIN <= d * i <= i32::MAX,
        i32::MIN <= a + d * i <= i32::MAX,
        -255 <= d <= 255,
{
    vstd::arithmetic::div_mod::lemma_fundamental_div_mod(x, n);
    assert(-255 <= d <= 255) by (nonlinear_arith)
        requires x == n * (x / n) + x % n, 0 <= x % n < n, d == x / n, -255 <= x <= 255, n > 0;
    if n <= 255 {
        assert(-65025 <= d * i <= 65025) by (nonlinear_arith)
            requires -255 <= d <= 255, 0 <= i < n, n <= 255;
    } else {
        assert(-1 <= d <= 0) by (nonlinear_arith)
            requires x == n * (x / n) + x % n, 0 <= x % n < n, d == x / n, -255 <= x <= 255, n > 255;
        assert(-n < d * i <= 0) by (nonlinear_arith)
            requires -1 <= d <= 0, 0 <= i < n;
    }
}

fn step_color_exec(a: Color, b: Color, n: i32, i: i32) -> (c: Color)
    requires
        n > 0,
        0 <= i < n,
    ensures
        c == step_color(a, b, n as int, i as int),
{
    let dr = floor_div(b.r as i32 - a.r as i32, n);
    let dg = floor_div(b.g as i32 - a.g as i32, n);
    let db = floor_div(b.b as i32 - a.b as i32, n);
    proof {
        lemma_floor_div_pos(b.r - a.r, n as int, dr as int);
        lemma_floor_div_pos(b.g - a.g, n as int, dg as int);
        lemma_floor_div_pos(b.b - a.b, n as int, db as int);
        lemma_step_fits(a.r, dr as int, b.r - a.r, n as int, i as int);
        lemma_step_fits(a.g, dg as int, b.g - a.g, n as int, i as int);
        lemma_step_fits(a.b, db as int, b.b - a.b, n as int, i as int);
    }
    Color {
        r: clamp_to_channel(a.r as i32 + dr * i),
        g: clamp_to_channel(a.g as i32 + dg * i),
        b: clamp_to_channel(a.b as i32 + db * i),
    }
}

/// The color a hex string names, white when it names none.
pub open spec fn hex_or_white(hex: Seq<char>) -> Color {
    match parse_hex_color(hex) {
        Some(c) => c,
        None => Color { r: 255, g: 255, b: 255 },
    }
}

/// A sequence of colors blending through a list of stops.
#[derive(Clone, Debug, PartialEq, Eq)]
pub struct Gradient {
    spectrum: Vec<Color>,
}

impl Default for Gradient {
    /// The gradient with no colors.
    fn default() -> (g: Self)
        ensures
            g@.len() == 0,
    {
        Gradient { spectrum: Vec::new() }
    }
}

impl View for Gradient {
    type V = Seq<Color>;

    closed spec fn view(&self) -> Seq<Color> {
        self.spectrum@
    }
}

impl Gradient {
    /// Channel deltas use floor division: `(end - start) // steps`.
    pub fn new(stops: &[Color], steps: usize) -> (g: Self)
        ensures
            g@ == gradient_spectrum(stops@, steps),
    {
        if stops.len() == 0 {
            return Gradient { spectrum: Vec::new() };
        }
        if stops.len() == 1 || steps == 0 {
            return Gradient { spectrum: vstd::slice::slice_to_vec(stops) };
        }
        let mut spectrum: Vec<Color> = Vec::new();
        let n = steps as i32;
        let ghost m = steps_per_pair(steps);
        let mut j: usize = 0;
        while j + 1 < stops.len()
            invariant
                stops@.len() >= 2,
                n as int == (steps as i32) as int,
                m == steps_per_pair(steps),
                j + 1 <= stops@.len(),
                spectrum@.len() == j * m,
                forall|k: int| 0 <= k < spectrum@.len() ==> #[trigger] spectrum@[k]
                    == step_color(stops@[k / m], stops@[k / m + 1], m, k % m),
            decreases stops.len() - j,
        {
            let start = stops[j];
            let end = stops[j + 1];
            let mut i: i32 = 0;
            while i < n
                invariant
                    stops@.len() >= 2,
                    n as int == (steps as i32) as int,
                    m == steps_per_pair(steps),
                    j + 1 < stops@.len(),
                    start == stops@[j as int],
                    end == stops@[j + 1],
                    0 <= i,
                    n > 0 ==> i <= n,
                    n <= 0 ==> i == 0,
                    spectrum@.len() == j * m + i,
                    forall|k: int| 0 <= k < spectrum@.len() ==> #[trigger] spectrum@[k]
                        == step_color(stops@[k / m], stops@[k / m + 1], m, k % m),
                decreases n - i,
            {
                let ghost k = spectrum@.len() as int;
                proof {
                    assert(m == n);
                    assert(k == j * m + i);
                    assert(k / m == j && k % m == i) by {
                        vstd::arithmetic::div_mod::lemma_fundamental_div_mod_converse_div(k, m, j as int, i as int);
                        vstd::arithmetic::div_mod::lemma_fundamental_div_mod_converse_mod(k, m, j as int, i as int);
                    }
                }
                spectrum.push(step_color_exec(start, end, n, i));
                i += 1;
            }
            proof {
                assert(j * m + m == (j + 1) * m) by (nonlinear_arith);
            }
            j += 1;
        }
        let ghost body = spectrum@;
        spectrum.push(stops[stops.len() - 1]);
        proof {
            let expected = gradient_spectrum(stops@, steps);
            assert(j + 1 == stops@.len());
            assert(body =~= Seq::new(((stops@.len() - 1) * m) as nat, |k: int| step_color(stops@[k / m], stops@[k / m + 1], m, k % m)));
            assert(spectrum@ =~= expected);
        }
        Gradient { spectrum }
    }

    pub fn spectrum(&self) -> (s: &[Color])
        ensures
            s@ == self@,
    {
        self.spectrum.as_slice()
    }

    pub fn is_empty(&self) -> (b: bool)
        ensures
            b == (self@.len() == 0),
    {
        self.spectrum.len() == 0
    }

    pub fn len(&self) -> (n: usize)
        ensures
            n == self@.len(),
    {
        self.spectrum.len()
    }

    pub fn get(&self, index: usize) -> (c: Option<Color>)
        ensures
            c == (if index < self@.len() { Some(self@[index as int]) } else { None }),
    {
        if index < self.spectrum.len() {
            Some(self.spectrum[index])
        } else {
            None
        }
    }
}

/// Law: a gradient over two or more stops with a positive step count starts at the first
/// stop, passes through every stop at multiples of the step count, ends at the last stop,
/// and has `(stops - 1) * steps + 1` colors.
pub proof fn lemma_gradient_stops(stops: Seq<Color>, steps: usize, j: int)
    requires
        stops.len() >= 2,
        1 <= steps <= i32::MAX,
        0 <= j < stops.len(),
    ensures
        gradient_spectrum(stops, steps).len() == (stops.len() - 1) * steps + 1,
        gradient_spectrum(stops, steps)[j * steps] == stops[j],
{
    let n = steps as int;
    let g = gradient_spectrum(stops, steps);
    assert(steps_per_pair(steps) == n);
    if j < stops.len() - 1 {
        let k = j * n;
        assert(0 <= k < (stops.len() - 1) * n) by (nonlinear_arith)
            requires k == j * n, 0 <= j < stops.len() - 1, n >= 1;
        assert(k / n == j && k % n == 0) by {
            vstd::arithmetic::div_mod::lemma_fundamental_div_mod_converse_div(k, n, j, 0);
            vstd::arithmetic::div_mod::lemma_fundamental_div_mod_converse_mod(k, n, j, 0);
        }
        assert(g[k] == step_color(stops[j], stops[j + 1], n, 0));
        assert(step_channel(stops[j].r, stops[j + 1].r, n, 0) == stops[j].r);
        assert(step_channel(stops[j].g, stops[j + 1].g, n, 0) == stops[j].g);
        assert(step_channel(stops[j].b, stops[j + 1].b, n, 0) == stops[j].b);
    } else {
        assert(j * n == (stops.len() - 1) * n);
    }
}

/// `v` held to the channel range: below `0` gives `0`, above `255` gives `255`.
pub open spec fn channel_of(v: int) -> int {
    if v < 0 { 0 } else if v > 255 { 255 } else { v }
}

/// Law: between stops `j` and `j + 1`, a gradient with `steps` colors per pair moves in
/// equal strides: color `i` of the run (`0 <= i < steps`) is the start stop plus `i` times
/// the per-channel stride `(end - start) // steps` (floor division), held to `0..=255`.
pub proof fn lemma_gradient_run(stops: Seq<Color>, steps: usize, j: int, i: int)
    requires
        stops.len() >= 2,
        1 <= steps <= i32::MAX,
        0 <= j < stops.len() - 1,
        0 <= i < steps,
    ensures
        ({
            let g = gradient_spectrum(stops, steps);
            let n = steps as int;
            let (a, b) = (stops[j], stops[j + 1]);
            let c = g[j * n + i];
            &&& j * n + i < g.len()
            &&& c.r as int == channel_of(a.r + ((b.r - a.r) / n) * i)
            &&& c.g as int == channel_of(a.g + ((b.g - a.g) / n) * i)
            &&& c.b as int == channel_of(a.b + ((b.b - a.b) / n) * i)
        }),
{
    let n = steps as int;
    let k = j * n + i;
    assert(steps_per_pair(steps) == n);
    assert(0 <= k < (stops.len() - 1) * n) by (nonlinear_arith)
        requires k == j * n + i, 0 <= j < stops.len() - 1, 0 <= i < n, n >= 1;
    assert(k / n == j && k % n == i) by {
        vstd::arithmetic::div_mod::lemma_fundamental_div_mod_converse_div(k, n, j, i);
        vstd::arithmetic::div_mod::lemma_fundamental_div_mod_converse_mod(k, n, j, i);
    }
}

/// The intensity of cube step `k` (`0..=5`): off, then from 95 upward in strides of 40.
pub open spec fn cube_intensity(k: int) -> int {
    if k == 0 { 0 } else { 55 + 40 * k }
}

/// Law: past the sixteen system colors the xterm palette is a 6x6x6 color cube, color
/// `16 + 36 * r + 6 * g + b` having red, green and blue at cube steps `r`, `g` and `b`,
/// followed by 24 grays from 8 upward in strides of 10.
pub proof fn lemma_xterm_palette(r: int, g: int, b: int, k: int)
    ensures
        0 <= r < 6 && 0 <= g < 6 && 0 <= b < 6 ==> {
            let c = xterm_rgb((16 + 36 * r + 6 * g + b) as u8);
            &&& c.0 as int == cube_intensity(r)
            &&& c.1 as int == cube_intensity(g)
            &&& c.2 as int == cube_intensity(b)
        },
        0 <= k < 24 ==> {
            let c = xterm_rgb((232 + k) as u8);
            c.0 as int == 8 + 10 * k && c.1 == c.0 && c.2 == c.0
        },
{
    if 0 <= r < 6 && 0 <= g < 6 && 0 <= b < 6 {
        let n = 36 * r + 6 * g + b;
        assert(((16 + n) as u8) as int == 16 + n);
        assert(n / 36 == r && n % 36 == 6 * g + b) by {
            vstd::arithmetic::div_mod::lemma_fundamental_div_mod_converse_div(n, 36, r, 6 * g + b);
            vstd::arithmetic::div_mod::lemma_fundamental_div_mod_converse_mod(n, 36, r, 6 * g + b);
        }
        assert((6 * g + b) / 6 == g && n % 6 == b) by {
            vstd::arithmetic::div_mod::lemma_fundamental_div_mod_converse_div(6 * g + b, 6, g, b);
            vstd::arithmetic::div_mod::lemma_fundamental_div_mod_converse_mod(n, 6, 6 * r + g, b);
        }
    }
}

} // verus!
