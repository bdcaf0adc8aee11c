use vstd::prelude::*;

use crate::animation::{fg_text, formatted, lemma_fg_text, CharacterVisual};
use crate::canvas::{is_blank_cell, lemma_compose_picture, painted, picture, sprite_texts, Canvas, Cell};
use crate::graphics::ColorPair;
use crate::text::char_string;
use crate::character::{CharacterId, Neighbors};
use crate::geometry::Coord;
use crate::graphics::{xterm_rgb, Color};
use crate::text::{chars_of, decimal, decimal_digit};
use crate::utils::{lemma_trunc_div_rem, trunc_div};

verus! {

/// Where text or the canvas is pinned.
#[derive(Clone, Copy, Debug, Default, PartialEq, Eq, Structural)]
pub enum Anchor {
    #[default]
    Center,
    N,
    Ne,
    E,
    Se,
    S,
    Sw,
    W,
    Nw,
}

/// What to do with colors already present in the input text.
#[derive(Clone, Copy, Debug, Default, PartialEq, Eq, Structural)]
pub enum ExistingColorHandling {
    Always,
    Dynamic,
    #[default]
    Ignore,
}

/// Prepares and restores the terminal around an animation.
pub struct TtyWriter;

/// The SGR text style in effect at a point of the input.
#[derive(Clone, Copy, Debug, PartialEq, Eq, Structural)]
pub struct StyleState {
    pub fg: Option<Color>,
    pub bg: Option<Color>,
    pub bold: bool,
    pub dim: bool,
    pub italic: bool,
    pub underline: bool,
    pub blink: bool,
    pub reverse: bool,
    pub hidden: bool,
    pub strike: bool,
}

/// No colors, no attributes.
pub open spec fn plain_style() -> StyleState {
    StyleState {
        fg: None,
        bg: None,
        bold: false,
        dim: false,
        italic: false,
        underline: false,
        blink: false,
        reverse: false,
        hidden: false,
        strike: false,
    }
}

impl StyleState {
    pub fn plain() -> (s: Self)
        ensures
            s == plain_style(),
    {
        StyleState {
            fg: None,
            bg: None,
            bold: false,
            dim: false,
            italic: false,
            underline: false,
            blink: false,
            reverse: false,
            hidden: false,
            strike: false,
        }
    }

    pub fn reset(&mut self)
        ensures
            *final(self) == plain_style(),
    {
        *self = StyleState::plain();
    }
}

impl Default for StyleState {
    fn default() -> (s: Self)
        ensures
            s == plain_style(),
    {
        StyleState::plain()
    }
}

/// One character of parsed input with the style it was written in.
#[derive(Clone, Copy, Debug, PartialEq, Eq, Structural)]
pub struct ParsedCell {
    pub ch: char,
    pub style: StyleState,
}

// ---------------------------------------------------------------------------
// CSI parameters

pub open spec fn is_decimal_digit(c: char) -> bool {
    '0' <= c <= '9'
}

/// The value of a run of decimal digits.
pub open spec fn digits_value(d: Seq<char>) -> int
    decreases d.len(),
{
    if d.len() == 0 { 0 } else { digits_value(d.drop_last()) * 10 + (d.last() as u32 - '0' as u32) }
}

pub open spec fn all_digits(d: Seq<char>) -> bool {
    forall|i: int| 0 <= i < d.len() ==> is_decimal_digit(#[trigger] d[i])
}

/// `s` parsed as an `i32` the way `str::parse::<i32>` does: an optional sign, at least
/// one decimal digit, nothing else, and a value in range.
pub open spec fn parse_i32(s: Seq<char>) -> Option<i32> {
    let neg = s.len() > 0 && s[0] == '-';
    let digits = if s.len() > 0 && (s[0] == '+' || s[0] == '-') { s.drop_first() } else { s };
    if digits.len() == 0 || !all_digits(digits) {
        None
    } else {
        let v = digits_value(digits);
        if neg {
            if v <= 0x8000_0000 { Some((-v) as i32) } else { None }
        } else {
            if v <= 0x7fff_ffff { Some(v as i32) } else { None }
        }
    }
}

proof fn lemma_digits_value_nonneg(d: Seq<char>)
    requires
        forall|i: int| 0 <= i < d.len() ==> is_decimal_digit(#[trigger] d[i]),
    ensures
        digits_value(d) >= 0,
        d.len() > 0 ==> digits_value(d) >= digits_value(d.drop_last()),
    decreases d.len(),
{
    if d.len() > 0 {
        assert forall|i: int| 0 <= i < d.drop_last().len() implies is_decimal_digit(#[trigger] d.drop_last()[i]) by {
            assert(d.drop_last()[i] == d[i]);
        }
        lemma_digits_value_nonneg(d.drop_last());
    }
}

proof fn lemma_digits_value_mono(d: Seq<char>, k: int)
    requires
        0 <= k <= d.len(),
        forall|i: int| 0 <= i < d.len() ==> is_decimal_digit(#[trigger] d[i]),
    ensures
        digits_value(d.take(k)) <= digits_value(d),
    decreases d.len() - k,
{
    if k < d.len() {
        lemma_digits_value_mono(d, k + 1);
        let t = d.take(k + 1);
        assert(t.drop_last() =~= d.take(k));
        assert forall|i: int| 0 <= i < t.len() implies is_decimal_digit(#[trigger] t[i]) by {
            assert(t[i] == d[i]);
        }
        lemma_digits_value_nonneg(t);
    } else {
        assert(d.take(k) =~= d);
    }
}

/// Parses an `i32` (optional sign, decimal digits, in range); `None` otherwise.
pub fn parse_i32_chars(s: &[char]) -> (v: Option<i32>)
    ensures
        v == parse_i32(s@),
{
    let n = s.len();
    let mut start: usize = 0;
    let mut neg = false;
    if n > 0 && (s[0] == '+' || s[0] == '-') {
        neg = s[0] == '-';
        start = 1;
    }
    let ghost digits = if s@.len() > 0 && (s@[0] == '+' || s@[0] == '-') { s@.drop_first() } else { s@ };
    proof {
        assert(digits =~= s@.subrange(start as int, n as int));
    }
    if start == n {
        return None;
    }
    let mut acc: i64 = 0;
    let mut i: usize = start;
    while i < n
        invariant
            start <= i <= n,
            n == s@.len(),
            digits == s@.subrange(start as int, n as int),
            digits == (if s@.len() > 0 && (s@[0] == '+' || s@[0] == '-') { s@.drop_first() } else { s@ }),
            neg == (s@.len() > 0 && s@[0] == '-'),
            start < n,
            forall|j: int| start <= j < i ==> is_decimal_digit(#[trigger] s@[j]),
            acc == digits_value(digits.take(i - start)),
            0 <= acc <= 0x8000_0000,
        decreases n - i,
    {
        let c = s[i];
        if !('0' <= c && c <= '9') {
            proof {
                assert(digits[i - start] == s@[i as int]);
                assert(!is_decimal_digit(digits[i - start]));
                assert(!all_digits(digits));
                assert(parse_i32(s@) is None);
            }
            return None;
        }
        proof {
            assert(digits.take(i - start + 1).drop_last() =~= digits.take(i - start));
            assert(digits.take(i - start + 1).last() == c);
        }
        acc = acc * 10 + (c as u32 - '0' as u32) as i64;
        proof {
            assert(acc == digits_value(digits.take(i - start + 1)));
        }
        if acc > 0x8000_0000 {
            proof {
                assert forall|j: int| 0 <= j < digits.take(i - start + 1).len() implies is_decimal_digit(#[trigger] digits.take(i - start + 1)[j]) by {
                    assert(digits.take(i - start + 1)[j] == s@[start + j]);
                }
                if all_digits(digits) {
                    lemma_digits_value_mono(digits, i - start + 1);
                    assert(digits_value(digits) > 0x8000_0000);
                }
                assert(parse_i32(s@) is None);
            }
            return None;
        }
        i += 1;
    }
    proof {
        assert(digits.take(n - start) =~= digits);
        assert forall|j: int| 0 <= j < digits.len() implies is_decimal_digit(#[trigger] digits[j]) by {
            assert(digits[j] == s@[start + j]);
        }
    }
    if neg {
        Some((-acc) as i32)
    } else if acc <= 0x7fff_ffff {
        Some(acc as i32)
    } else {
        None
    }
}

pub open spec fn is_csi_private_marker(c: char) -> bool {
    c == '?' || c == '>' || c == '<' || c == '='
}

/// `s` without its leading run of `?`, `>`, `<` and `=`.
pub open spec fn strip_markers(s: Seq<char>) -> Seq<char>
    decreases s.len(),
{
    if s.len() > 0 && is_csi_private_marker(s[0]) { strip_markers(s.drop_first()) } else { s }
}

pub open spec fn is_param_separator(c: char) -> bool {
    c == ';' || c == ':'
}

/// The fields of `s` between `;` and `:` separators (empty fields included).
pub open spec fn split_params(s: Seq<char>) -> Seq<Seq<char>>
    decreases s.len(),
{
    if s.len() == 0 {
        seq![Seq::empty()]
    } else {
        let f = split_params(s.drop_last());
        if is_param_separator(s.last()) {
            f.push(Seq::empty())
        } else {
            f.update(f.len() - 1, f.last().push(s.last()))
        }
    }
}

proof fn lemma_split_params_nonempty(s: Seq<char>)
    ensures
        split_params(s).len() >= 1,
    decreases s.len(),
{
    if s.len() > 0 {
        lemma_split_params_nonempty(s.drop_last());
    }
}

/// The numeric parameters of a CSI sequence body; a field that is not a number reads as 0,
/// and an empty body as the single parameter 0.
pub open spec fn csi_params(raw: Seq<char>) -> Seq<i32> {
    let body = strip_markers(raw);
    if body.len() == 0 {
        seq![0i32]
    } else {
        split_params(body).map_values(|f: Seq<char>| match parse_i32(f) {
            Some(v) => v,
            None => 0i32,
        })
    }
}

pub open spec fn field_value(f: Seq<char>) -> i32 {
    match parse_i32(f) {
        Some(v) => v,
        None => 0i32,
    }
}

/// The parameters of a CSI body given as characters.
pub fn parse_csi_param_chars(raw: &Vec<char>) -> (params: Vec<i32>)
    ensures
        params@ == csi_params(raw@),
{
    let mut lo: usize = 0;
    proof {
        assert(raw@.subrange(0, raw@.len() as int) =~= raw@);
    }
    while lo < raw.len() && (raw[lo] == '?' || raw[lo] == '>' || raw[lo] == '<' || raw[lo] == '=')
        invariant
            lo <= raw@.len(),
            strip_markers(raw@) == strip_markers(raw@.subrange(lo as int, raw@.len() as int)),
        decreases raw.len() - lo,
    {
        proof {
            assert(raw@.subrange(lo as int, raw@.len() as int).drop_first() =~= raw@.subrange(lo + 1, raw@.len() as int));
        }
        lo += 1;
    }
    let ghost body = raw@.subrange(lo as int, raw@.len() as int);
    proof {
        if lo < raw@.len() {
            assert(body[0] == raw@[lo as int]);
        }
        assert(strip_markers(body) == body);
    }
    let mut params: Vec<i32> = Vec::new();
    if lo == raw.len() {
        params.push(0);
        return params;
    }
    let mut field: Vec<char> = Vec::new();
    let mut i: usize = lo;
    while i < raw.len()
        invariant
            lo <= i <= raw@.len(),
            body == raw@.subrange(lo as int, raw@.len() as int),
            split_params(body.take(i - lo)).len() == params@.len() + 1,
            split_params(body.take(i - lo)).last() == field@,
            forall|k: int| 0 <= k < params@.len() ==> #[trigger] params@[k] == field_value(split_params(body.take(i - lo))[k]),
        decreases raw.len() - i,
    {
        proof {
            lemma_split_params_nonempty(body.take(i - lo));
            assert(body.take(i - lo + 1).drop_last() =~= body.take(i - lo));
            assert(body.take(i - lo + 1).last() == raw@[i as int]);
        }
        let c = raw[i];
        if c == ';' || c == ':' {
            let v = parse_i32_chars(field.as_slice());
            params.push(match v {
                Some(x) => x,
                None => 0,
            });
            field = Vec::new();
        } else {
            field.push(c);
        }
        i += 1;
    }
    params.push(match parse_i32_chars(field.as_slice()) {
        Some(x) => x,
        None => 0,
    });
    proof {
        assert(body.take(raw@.len() - lo) =~= body);
        assert(params@ =~= csi_params(raw@));
    }
    params
}

/// The numeric parameters of a CSI sequence body.
pub fn parse_csi_params(raw: &str) -> (params: Vec<i32>)
    ensures
        params@ == csi_params(raw@),
{
    let v = chars_of(raw);
    parse_csi_param_chars(&v)
}

// ---------------------------------------------------------------------------
// SGR

pub open spec fn xterm_color(idx: u8) -> Color {
    Color { r: xterm_rgb(idx).0, g: xterm_rgb(idx).1, b: xterm_rgb(idx).2 }
}

/// `v` clamped into `0..=255`.
pub open spec fn clamp_u8(v: i32) -> u8 {
    (if v < 0 { 0 } else if v > 255 { 255 } else { v as int }) as u8
}

/// The style after a single-parameter SGR attribute code `v` (`None` if `v` is not one).
pub open spec fn sgr_attribute(st: StyleState, v: i32) -> Option<StyleState> {
    if v == 0 {
        Some(plain_style())
    } else if v == 1 {
        Some(StyleState { bold: true, ..st })
    } else if v == 2 {
        Some(StyleState { dim: true, ..st })
    } else if v == 3 {
        Some(StyleState { italic: true, ..st })
    } else if v == 4 {
        Some(StyleState { underline: true, ..st })
    } else if v == 5 || v == 6 {
        Some(StyleState { blink: true, ..st })
    } else if v == 7 {
        Some(StyleState { reverse: true, ..st })
    } else if v == 8 {
        Some(StyleState { hidden: true, ..st })
    } else if v == 9 {
        Some(StyleState { strike: true, ..st })
    } else if v == 22 {
        Some(StyleState { bold: false, dim: false, ..st })
    } else if v == 23 {
        Some(StyleState { italic: false, ..st })
    } else if v == 24 {
        Some(StyleState { underline: false, ..st })
    } else if v == 25 {
        Some(StyleState { blink: false, ..st })
    } else if v == 27 {
        Some(StyleState { reverse: false, ..st })
    } else if v == 28 {
        Some(StyleState { hidden: false, ..st })
    } else if v == 29 {
        Some(StyleState { strike: false, ..st })
    } else {
        None
    }
}

/// The style after a single-parameter SGR color code `v` (`None` if `v` is not one).
pub open spec fn sgr_basic_color(st: StyleState, v: i32) -> Option<StyleState> {
    if v == 39 {
        Some(StyleState { fg: None, ..st })
    } else if v == 49 {
        Some(StyleState { bg: None, ..st })
    } else if 30 <= v <= 37 {
        Some(StyleState { fg: Some(xterm_color((v - 30) as u8)), ..st })
    } else if 90 <= v <= 97 {
        Some(StyleState { fg: Some(xterm_color((v - 90 + 8) as u8)), ..st })
    } else if 40 <= v <= 47 {
        Some(StyleState { bg: Some(xterm_color((v - 40) as u8)), ..st })
    } else if 100 <= v <= 107 {
        Some(StyleState { bg: Some(xterm_color((v - 100 + 8) as u8)), ..st })
    } else {
        None
    }
}

/// `38;5;n`/`48;5;n` (palette) or `38;2;r;g;b`/`48;2;r;g;b` (truecolor) at `p[i]`, with the
/// index of the last parameter used; without its arguments the code changes nothing.
pub open spec fn sgr_extended(st: StyleState, p: Seq<i32>, i: int) -> (StyleState, int) {
    let v = p[i];
    if i + 2 < p.len() && p[i + 1] == 5 {
        let c = xterm_color(clamp_u8(p[i + 2]));
        (if v == 38 { StyleState { fg: Some(c), ..st } } else { StyleState { bg: Some(c), ..st } }, i + 2)
    } else if i + 4 < p.len() && p[i + 1] == 2 {
        let c = Color { r: clamp_u8(p[i + 2]), g: clamp_u8(p[i + 3]), b: clamp_u8(p[i + 4]) };
        (if v == 38 { StyleState { fg: Some(c), ..st } } else { StyleState { bg: Some(c), ..st } }, i + 4)
    } else {
        (st, i)
    }
}

/// The style after SGR parameter `p[i]`, with the index of the last parameter it used;
/// unknown codes change nothing.
pub open spec fn sgr_one(st: StyleState, p: Seq<i32>, i: int) -> (StyleState, int) {
    let v = p[i];
    match sgr_attribute(st, v) {
        Some(next) => (next, i),
        None => match sgr_basic_color(st, v) {
            Some(next) => (next, i),
            None => if v == 38 || v == 48 { sgr_extended(st, p, i) } else { (st, i) },
        },
    }
}

/// The style after the parameters `p[i..]`.
pub open spec fn sgr_from(st: StyleState, p: Seq<i32>, i: int) -> StyleState
    decreases p.len() - i,
{
    if i < 0 || i >= p.len() {
        st
    } else {
        let (next, j) = sgr_one(st, p, i);
        if j < i { st } else { sgr_from(next, p, j + 1) }
    }
}

/// The style after an SGR sequence with parameters `p` (no parameters: reset).
pub open spec fn sgr_apply(st: StyleState, p: Seq<i32>) -> StyleState {
    if p.len() == 0 { plain_style() } else { sgr_from(st, p, 0) }
}

/// Law: a reset code forgets the style before it; whatever follows it in the same
/// sequence has the same effect on any starting style.
pub proof fn lemma_reset_forgets_style(a: StyleState, b: StyleState, rest: Seq<i32>)
    ensures
        sgr_apply(a, seq![0i32] + rest) == sgr_apply(b, seq![0i32] + rest),
        sgr_apply(a, seq![0i32]) == plain_style(),
{
    let p = seq![0i32] + rest;
    assert(p[0] == 0);
    assert(sgr_one(a, p, 0) == (plain_style(), 0int));
    assert(sgr_one(b, p, 0) == (plain_style(), 0int));
    assert(seq![0i32][0] == 0);
    assert(sgr_one(a, seq![0i32], 0) == (plain_style(), 0int));
    assert(sgr_from(plain_style(), seq![0i32], 1) == plain_style());
}

fn clamp_to_u8(v: i32) -> (c: u8)
    ensures
        c == clamp_u8(v),
{
    if v < 0 {
        0
    } else if v > 255 {
        255
    } else {
        v as u8
    }
}

fn sgr_attribute_exec(st: StyleState, v: i32) -> (r: Option<StyleState>)
    ensures
        r == sgr_attribute(st, v),
{
    if v == 0 {
        Some(StyleState::plain())
    } else if v == 1 {
        Some(StyleState { bold: true, ..st })
    } else if v == 2 {
        Some(StyleState { dim: true, ..st })
    } else if v == 3 {
        Some(StyleState { italic: true, ..st })
    } else if v == 4 {
        Some(StyleState { underline: true, ..st })
    } else if v == 5 || v == 6 {
        Some(StyleState { blink: true, ..st })
    } else if v == 7 {
        Some(StyleState { reverse: true, ..st })
    } else if v == 8 {
        Some(StyleState { hidden: true, ..st })
    } else if v == 9 {
        Some(StyleState { strike: true, ..st })
    } else if v == 22 {
        Some(StyleState { bold: false, dim: false, ..st })
    } else if v == 23 {
        Some(StyleState { italic: false, ..st })
    } else if v == 24 {
        Some(StyleState { underline: false, ..st })
    } else if v == 25 {
        Some(StyleState { blink: false, ..st })
    } else if v == 27 {
        Some(StyleState { reverse: false, ..st })
    } else if v == 28 {
        Some(StyleState { hidden: false, ..st })
    } else if v == 29 {
        Some(StyleState { strike: false, ..st })
    } else {
        None
    }
}

fn sgr_basic_color_exec(st: StyleState, v: i32) -> (r: Option<StyleState>)
    ensures
        r == sgr_basic_color(st, v),
{
    if v == 39 {
        Some(StyleState { fg: None, ..st })
    } else if v == 49 {
        Some(StyleState { bg: None, ..st })
    } else if 30 <= v && v <= 37 {
        Some(StyleState { fg: Some(Color::from_xterm((v - 30) as u8)), ..st })
    } else if 90 <= v && v <= 97 {
        Some(StyleState { fg: Some(Color::from_xterm((v - 90 + 8) as u8)), ..st })
    } else if 40 <= v && v <= 47 {
        Some(StyleState { bg: Some(Color::from_xterm((v - 40) as u8)), ..st })
    } else if 100 <= v && v <= 107 {
        Some(StyleState { bg: Some(Color::from_xterm((v - 100 + 8) as u8)), ..st })
    } else {
        None
    }
}

/// Applies SGR parameter `params[i]` (and the color arguments after a `38`/`48`);
/// returns the index of the last parameter used.
fn sgr_step(state: &mut StyleState, params: &[i32], i: usize) -> (j: usize)
    requires
        i < params@.len(),
    ensures
        (*final(state), j as int) == sgr_one(*old(state), params@, i as int),
        i <= j < params@.len(),
{
    let v = params[i];
    match sgr_attribute_exec(*state, v) {
        Some(next) => {
            *state = next;
            i
        },
        None => match sgr_basic_color_exec(*state, v) {
            Some(next) => {
                *state = next;
                i
            },
            None => {
                if v == 38 || v == 48 {
                    sgr_extended_color(state, params, i)
                } else {
                    i
                }
            },
        },
    }
}

/// `38;5;n` / `48;5;n` (palette) or `38;2;r;g;b` / `48;2;r;g;b` (truecolor).
fn sgr_extended_color(state: &mut StyleState, params: &[i32], i: usize) -> (j: usize)
    requires
        i < params@.len(),
        params@[i as int] == 38 || params@[i as int] == 48,
    ensures
        (*final(state), j as int) == sgr_extended(*old(state), params@, i as int),
        i <= j < params@.len(),
{
    let is_fg = params[i] == 38;
    if params.len() - i > 2 && params[i + 1] == 5 {
        let c = Color::from_xterm(clamp_to_u8(params[i + 2]));
        if is_fg {
            state.fg = Some(c);
        } else {
            state.bg = Some(c);
        }
        i + 2
    } else if params.len() - i > 4 && params[i + 1] == 2 {
        let c = Color::rgb(clamp_to_u8(params[i + 2]), clamp_to_u8(params[i + 3]), clamp_to_u8(params[i + 4]));
        if is_fg {
            state.fg = Some(c);
        } else {
            state.bg = Some(c);
        }
        i + 4
    } else {
        i
    }
}

/// Applies the SGR parameters `params` to `state`.
pub fn apply_sgr(state: &mut StyleState, params: &[i32])
    ensures
        *final(state) == sgr_apply(*old(state), params@),
{
    if params.len() == 0 {
        state.reset();
        return;
    }
    let mut i: usize = 0;
    while i < params.len()
        invariant
            params@.len() > 0,
            i <= params@.len(),
            sgr_apply(*old(state), params@) == sgr_from(*state, params@, i as int),
        decreases params.len() - i,
    {
        let j = sgr_step(state, params, i);
        i = j + 1;
    }
}

// ---------------------------------------------------------------------------
// ANSI text

/// The escape-sequence state of the input scanner.
#[derive(Clone, Copy, Debug, PartialEq, Eq, Structural)]
pub enum AnsiMode {
    Ground,
    Esc,
    Csi,
    Osc,
    OscSt,
}

/// Appends `cells` to the last line.
pub open spec fn append_to_last(lines: Seq<Seq<ParsedCell>>, cells: Seq<ParsedCell>) -> Seq<Seq<ParsedCell>> {
    lines.update(lines.len() - 1, lines.last() + cells)
}

/// `n` copies of `cell`.
pub open spec fn repeat_cell(cell: ParsedCell, n: nat) -> Seq<ParsedCell> {
    Seq::new(n, |_k: int| cell)
}

/// One step of the scanner on character `c` (`lf_next`: the following character is a line
/// feed); the new lines, style, mode and pending CSI body, and how many characters it used.
pub open spec fn ansi_step(
    lines: Seq<Seq<ParsedCell>>,
    style: StyleState,
    mode: AnsiMode,
    csi: Seq<char>,
    c: char,
    lf_next: bool,
    tab: nat,
) -> (Seq<Seq<ParsedCell>>, StyleState, AnsiMode, Seq<char>, int) {
    match mode {
        AnsiMode::Ground => {
            if c == '\x1b' {
                (lines, style, AnsiMode::Esc, csi, 1)
            } else if c == '\n' {
                (lines.push(Seq::empty()), style, mode, csi, 1)
            } else if c == '\r' {
                (lines.push(Seq::empty()), style, mode, csi, if lf_next { 2 } else { 1 })
            } else if c == '\t' {
                let col = lines.last().len();
                let spaces = (tab - col % tab) as nat;
                (append_to_last(lines, repeat_cell(ParsedCell { ch: ' ', style }, spaces)), style, mode, csi, 1)
            } else if (c as u32) < 32 {
                (lines, style, mode, csi, 1)
            } else {
                (append_to_last(lines, seq![ParsedCell { ch: c, style }]), style, mode, csi, 1)
            }
        },
        AnsiMode::Esc => {
            if c == '[' {
                (lines, style, AnsiMode::Csi, Seq::empty(), 1)
            } else if c == ']' {
                (lines, style, AnsiMode::Osc, csi, 1)
            } else {
                (lines, style, AnsiMode::Ground, csi, 1)
            }
        },
        AnsiMode::Csi => {
            if '@' <= c <= '~' {
                (lines, if c == 'm' { sgr_apply(style, csi_params(csi)) } else { style }, AnsiMode::Ground, csi, 1)
            } else {
                (lines, style, mode, csi.push(c), 1)
            }
        },
        AnsiMode::Osc => {
            if c == '\x07' {
                (lines, style, AnsiMode::Ground, csi, 1)
            } else if c == '\x1b' {
                (lines, style, AnsiMode::OscSt, csi, 1)
            } else {
                (lines, style, mode, csi, 1)
            }
        },
        AnsiMode::OscSt => {
            (lines, style, if c == '\\' { AnsiMode::Ground } else { AnsiMode::Osc }, csi, 1)
        },
    }
}

/// The lines after scanning all of `s` from the given state.
pub open spec fn ansi_run(
    lines: Seq<Seq<ParsedCell>>,
    style: StyleState,
    mode: AnsiMode,
    csi: Seq<char>,
    s: Seq<char>,
    tab: nat,
) -> Seq<Seq<ParsedCell>>
    decreases s.len(),
{
    if s.len() == 0 {
        lines
    } else {
        let r = ansi_step(lines, style, mode, csi, s[0], s.len() > 1 && s[1] == '\n', tab);
        if r.4 < 1 || r.4 > s.len() {
            lines
        } else {
            ansi_run(r.0, r.1, r.2, r.3, s.subrange(r.4, s.len() as int), tab)
        }
    }
}

/// The styled lines of `input`: text split at `\n`, `\r\n` and lone `\r`, tabs expanded to
/// the next multiple of `tab`, SGR sequences applied to the following text, other escape
/// sequences and control characters dropped; a trailing empty line is not kept.
pub open spec fn ansi_lines(input: Seq<char>, tab: nat) -> Seq<Seq<ParsedCell>> {
    let l = ansi_run(seq![Seq::empty()], plain_style(), AnsiMode::Ground, Seq::empty(), input, tab);
    if l.len() > 1 && l.last().len() == 0 { l.drop_last() } else { l }
}

pub open spec fn line_views(v: Seq<Vec<ParsedCell>>) -> Seq<Seq<ParsedCell>> {
    v.map_values(|l: Vec<ParsedCell>| l@)
}

fn ground_step(
    done: &mut Vec<Vec<ParsedCell>>,
    cur: &mut Vec<ParsedCell>,
    style: &mut StyleState,
    mode: &mut AnsiMode,
    csi: &mut Vec<char>,
    c: char,
    lf_next: bool,
    tab: usize,
) -> (consumed: usize)
    requires
        tab > 0,
        *old(mode) == AnsiMode::Ground,
    ensures
        ({
            let r = ansi_step(line_views(old(done)@).push(old(cur)@), *old(style), *old(mode), old(csi)@, c, lf_next, tab as nat);
            &&& line_views(final(done)@).push(final(cur)@) == r.0
            &&& *final(style) == r.1
            &&& *final(mode) == r.2
            &&& final(csi)@ == r.3
            &&& consumed == r.4
        }),
{
    let ghost lines = line_views(done@).push(cur@);
    if c == '\x1b' {
        *mode = AnsiMode::Esc;
        1
    } else if c == '\n' || c == '\r' {
        let mut line: Vec<ParsedCell> = Vec::new();
        std::mem::swap(cur, &mut line);
        done.push(line);
        proof {
            assert(line_views(done@).push(cur@) =~= lines.push(Seq::empty()));
        }
        if c == '\r' && lf_next { 2 } else { 1 }
    } else if c == '\t' {
        let col = cur.len();
        let spaces = tab - (col % tab);
        let cell = ParsedCell { ch: ' ', style: *style };
        let mut k: usize = 0;
        while k < spaces
            invariant
                k <= spaces,
                cur@ == old(cur)@ + repeat_cell(cell, k as nat),
                done@ == old(done)@,
            decreases spaces - k,
        {
            cur.push(cell);
            proof {
                assert(cur@ =~= old(cur)@ + repeat_cell(cell, (k + 1) as nat));
            }
            k += 1;
        }
        proof {
            assert(line_views(done@).push(cur@) =~= append_to_last(lines, repeat_cell(cell, spaces as nat)));
        }
        1
    } else if (c as u32) < 32 {
        1
    } else {
        cur.push(ParsedCell { ch: c, style: *style });
        proof {
            assert(cur@ =~= old(cur)@ + seq![ParsedCell { ch: c, style: *style }]);
            assert(line_views(done@).push(cur@) =~= append_to_last(lines, seq![ParsedCell { ch: c, style: *style }]));
        }
        1
    }
}

fn escape_step(style: &mut StyleState, mode: &mut AnsiMode, csi: &mut Vec<char>, c: char)
    requires
        *old(mode) != AnsiMode::Ground,
    ensures
        ({
            let r = ansi_step(Seq::empty(), *old(style), *old(mode), old(csi)@, c, false, 1);
            &&& *final(style) == r.1
            &&& *final(mode) == r.2
            &&& final(csi)@ == r.3
        }),
{
    match *mode {
        AnsiMode::Esc => {
            if c == '[' {
                *csi = Vec::new();
                *mode = AnsiMode::Csi;
            } else if c == ']' {
                *mode = AnsiMode::Osc;
            } else {
                *mode = AnsiMode::Ground;
            }
        },
        AnsiMode::Csi => {
            if '@' <= c && c <= '~' {
                if c == 'm' {
                    let params = parse_csi_param_chars(csi);
                    apply_sgr(style, params.as_slice());
                }
                *mode = AnsiMode::Ground;
            } else {
                csi.push(c);
            }
        },
        AnsiMode::Osc => {
            if c == '\x07' {
                *mode = AnsiMode::Ground;
            } else if c == '\x1b' {
                *mode = AnsiMode::OscSt;
            }
        },
        _ => {
            *mode = if c == '\\' { AnsiMode::Ground } else { AnsiMode::Osc };
        },
    }
}

/// Splits `input` into lines of styled characters (see `ansi_lines`); `tab_width` must be positive.
pub fn parse_ansi_text(input: &str, tab_width: usize) -> (lines: Vec<Vec<ParsedCell>>)
    requires
        tab_width > 0,
    ensures
        line_views(lines@) == ansi_lines(input@, tab_width as nat),
{
    let v = chars_of(input);
    let mut done: Vec<Vec<ParsedCell>> = Vec::new();
    let mut cur: Vec<ParsedCell> = Vec::new();
    let mut style = StyleState::plain();
    let mut mode = AnsiMode::Ground;
    let mut csi: Vec<char> = Vec::new();
    let mut i: usize = 0;
    let ghost total = ansi_run(seq![Seq::empty()], plain_style(), AnsiMode::Ground, Seq::empty(), input@, tab_width as nat);
    proof {
        assert(line_views(done@).push(cur@) =~= seq![Seq::<ParsedCell>::empty()]);
        assert(v@.subrange(0, v@.len() as int) =~= v@);
    }
    while i < v.len()
        invariant
            tab_width > 0,
            v@ == input@,
            i <= v@.len(),
            total == ansi_run(line_views(done@).push(cur@), style, mode, csi@, v@.subrange(i as int, v@.len() as int), tab_width as nat),
        decreases v.len() - i,
    {
        let c = v[i];
        let lf_next = i + 1 < v.len() && v[i + 1] == '\n';
        let ghost rest = v@.subrange(i as int, v@.len() as int);
        let ghost r = ansi_step(line_views(done@).push(cur@), style, mode, csi@, c, lf_next, tab_width as nat);
        proof {
            assert(rest[0] == c);
            assert(lf_next == (rest.len() > 1 && rest[1] == '\n'));
        }
        let consumed: usize;
        if mode == AnsiMode::Ground {
            consumed = ground_step(&mut done, &mut cur, &mut style, &mut mode, &mut csi, c, lf_next, tab_width);
        } else {
            escape_step(&mut style, &mut mode, &mut csi, c);
            consumed = 1;
        }
        proof {
            assert(rest.subrange(consumed as int, rest.len() as int) =~= v@.subrange(i + consumed, v@.len() as int));
        }
        i = i + consumed;
    }
    let line = cur;
    done.push(line);
    proof {
        assert(v@.subrange(i as int, v@.len() as int) =~= Seq::<char>::empty());
        assert(line_views(done@) =~= total);
    }
    if done.len() > 1 && done[done.len() - 1].len() == 0 {
        done.pop();
        proof {
            assert(line_views(done@) =~= total.drop_last());
        }
    }
    done
}

// ---------------------------------------------------------------------------
// Layout

/// Line `l` cut into pieces of `w` cells (an empty line stays one empty line).
pub open spec fn wrap_line(l: Seq<ParsedCell>, w: nat) -> Seq<Seq<ParsedCell>> {
    if l.len() == 0 {
        seq![Seq::empty()]
    } else {
        let n = (l.len() + w - 1) / (w as int);
        Seq::new(n as nat, |k: int| l.subrange(k * w, if (k + 1) * w < l.len() { (k + 1) * w } else { l.len() as int }))
    }
}

/// Every line cut into pieces of at most `w` cells; `w == 0` leaves the lines as they are.
pub open spec fn wrap_lines(lines: Seq<Seq<ParsedCell>>, w: nat) -> Seq<Seq<ParsedCell>>
    decreases lines.len(),
{
    if w == 0 {
        lines
    } else if lines.len() == 0 {
        Seq::empty()
    } else {
        wrap_lines(lines.drop_last(), w) + wrap_line(lines.last(), w)
    }
}

/// The pieces laid end to end.
pub open spec fn joined_cells(pieces: Seq<Seq<ParsedCell>>) -> Seq<ParsedCell>
    decreases pieces.len(),
{
    if pieces.len() == 0 { Seq::empty() } else { joined_cells(pieces.drop_last()) + pieces.last() }
}

proof fn lemma_wrap_prefix(l: Seq<ParsedCell>, w: nat, k: int)
    requires
        w > 0,
        l.len() > 0,
        0 <= k <= wrap_line(l, w).len(),
    ensures
        k * w <= l.len() + w - 1,
        joined_cells(wrap_line(l, w).take(k)) == l.subrange(0, if k * w < l.len() { k * w } else { l.len() as int }),
    decreases k,
{
    let n = (l.len() + w - 1) / (w as int);
    let pieces = wrap_line(l, w);
    assert(n * w <= l.len() + w - 1) by (nonlinear_arith)
        requires n == (l.len() + w - 1) / (w as int), w > 0, l.len() + w - 1 >= 0;
    assert(k * w <= n * w) by (nonlinear_arith)
        requires k <= n, w > 0;
    if k == 0 {
        assert(pieces.take(0) =~= Seq::<Seq<ParsedCell>>::empty());
        assert(l.subrange(0, 0) =~= Seq::<ParsedCell>::empty());
    } else {
        lemma_wrap_prefix(l, w, k - 1);
        assert(pieces.take(k).drop_last() =~= pieces.take(k - 1));
        assert((k - 1) * w + w == k * w) by (nonlinear_arith);
        assert((k - 1) * w < l.len()) by (nonlinear_arith)
            requires (k - 1) * w + w == k * w, k * w <= l.len() + w - 1;
        let end = if k * w < l.len() { k * w } else { l.len() as int };
        assert(pieces.take(k).last() == l.subrange((k - 1) * w, end));
        assert(l.subrange(0, (k - 1) * w) + l.subrange((k - 1) * w, end) =~= l.subrange(0, end));
    }
}

/// Law: wrapping a line at a positive width keeps every cell in order and cuts it into
/// pieces of at most that width, none of them empty unless the line is.
pub proof fn lemma_wrap_keeps_cells(l: Seq<ParsedCell>, w: nat)
    requires
        w > 0,
    ensures
        joined_cells(wrap_line(l, w)) == l,
        forall|k: int| 0 <= k < wrap_line(l, w).len() ==> (#[trigger] wrap_line(l, w)[k]).len() <= w,
        l.len() > 0 ==> forall|k: int| 0 <= k < wrap_line(l, w).len() ==> (#[trigger] wrap_line(l, w)[k]).len() > 0,
{
    let pieces = wrap_line(l, w);
    if l.len() == 0 {
        assert(pieces.len() == 1);
        assert(pieces.drop_last() =~= Seq::<Seq<ParsedCell>>::empty());
        assert(joined_cells(pieces.drop_last()) == Seq::<ParsedCell>::empty());
        assert(pieces.last() == Seq::<ParsedCell>::empty());
        assert(joined_cells(pieces) =~= l);
    } else {
        let n = (l.len() + w - 1) / (w as int);
        assert(n * w >= l.len()) by (nonlinear_arith)
            requires n == (l.len() + w - 1) / (w as int), w > 0;
        lemma_wrap_prefix(l, w, n);
        assert(pieces.take(n) =~= pieces);
        assert(l.subrange(0, l.len() as int) =~= l);
        assert forall|k: int| 0 <= k < pieces.len() implies 0 < (#[trigger] pieces[k]).len() <= w by {
            lemma_wrap_prefix(l, w, k + 1);
            assert(k * w + w == (k + 1) * w) by (nonlinear_arith);
            assert(k * w < l.len()) by (nonlinear_arith)
                requires k * w + w == (k + 1) * w, (k + 1) * w <= l.len() + w - 1;
        }
    }
}

fn copy_range(line: &Vec<ParsedCell>, from: usize, to: usize) -> (piece: Vec<ParsedCell>)
    requires
        from <= to <= line@.len(),
    ensures
        piece@ == line@.subrange(from as int, to as int),
{
    let mut piece: Vec<ParsedCell> = Vec::new();
    let mut k = from;
    while k < to
        invariant
            from <= k <= to <= line@.len(),
            piece@ == line@.subrange(from as int, k as int),
        decreases to - k,
    {
        piece.push(line[k]);
        proof {
            assert(piece@ =~= line@.subrange(from as int, k + 1));
        }
        k += 1;
    }
    piece
}

proof fn lemma_wrap_count(len: int, w: int, k: int)
    requires
        w > 0,
        len > 0,
        0 <= k,
        k * w < len,
    ensures
        k < (len + w - 1) / w,
{
    assert(k < (len + w - 1) / w) by (nonlinear_arith)
        requires w > 0, len > 0, 0 <= k, k * w < len;
}

proof fn lemma_wrap_count_end(len: int, w: int, k: int)
    requires
        w > 0,
        len > 0,
        0 <= k,
        k * w >= len,
        (k - 1) * w < len,
    ensures
        k == (len + w - 1) / w,
{
    assert(k == (len + w - 1) / w) by (nonlinear_arith)
        requires w > 0, len > 0, 0 <= k, k * w >= len, (k - 1) * w < len;
}

/// Cuts each line into pieces of at most `width` cells; a width of 0 changes nothing.
pub fn wrap_parsed_lines(lines: Vec<Vec<ParsedCell>>, width: usize) -> (out: Vec<Vec<ParsedCell>>)
    ensures
        line_views(out@) == wrap_lines(line_views(lines@), width as nat),
{
    if width == 0 {
        return lines;
    }
    let mut out: Vec<Vec<ParsedCell>> = Vec::new();
    let mut i: usize = 0;
    while i < lines.len()
        invariant
            width > 0,
            i <= lines@.len(),
            line_views(out@) == wrap_lines(line_views(lines@.take(i as int)), width as nat),
        decreases lines.len() - i,
    {
        let line = &lines[i];
        let ghost base = line_views(out@);
        let ghost l = line@;
        proof {
            assert(line_views(lines@.take(i + 1)).drop_last() =~= line_views(lines@.take(i as int)));
            assert(line_views(lines@.take(i + 1)).last() == l);
        }
        if line.len() == 0 {
            out.push(Vec::new());
            proof {
                assert(line_views(out@) =~= base + wrap_line(l, width as nat));
            }
        } else {
            let mut start: usize = 0;
            let ghost n = (l.len() + width - 1) / (width as int);
            let mut k: usize = 0;
            while start < line.len()
                invariant
                    width > 0,
                    l == line@,
                    l.len() > 0,
                    n == (l.len() + width - 1) / (width as int),
                    start == k * width || (start == l.len() && (k - 1) * width < l.len() && k * width >= l.len()),
                    k == 0 || (k - 1) * width < l.len(),
                    start <= l.len(),
                    line_views(out@) == base + wrap_line(l, width as nat).take(k as int),
                decreases line.len() - start,
            {
                proof {
                    lemma_wrap_count(l.len() as int, width as int, k as int);
                    assert((k + 1) * width == k * width + width) by (nonlinear_arith);
                    assert(k <= k * width) by (nonlinear_arith) requires width > 0, k >= 0;
                }
                let end = if line.len() - start > width { start + width } else { line.len() };
                let piece = copy_range(line, start, end);
                let ghost before_push = out@;
                out.push(piece);
                proof {
                    assert(end == (if (k + 1) * width < l.len() { (k + 1) * width } else { l.len() as int }));
                    assert(wrap_line(l, width as nat)[k as int] == l.subrange(start as int, end as int));
                    assert(wrap_line(l, width as nat).take(k + 1) =~= wrap_line(l, width as nat).take(k as int).push(l.subrange(start as int, end as int)));
                    assert(line_views(out@) =~= line_views(before_push).push(piece@));
                    assert(line_views(out@) =~= base + wrap_line(l, width as nat).take(k + 1));
                }
                start = end;
                k += 1;
            }
            proof {
                assert(start == l.len());
                assert(k > 0);
                assert(k * width >= l.len());
                lemma_wrap_count_end(l.len() as int, width as int, k as int);
                assert(wrap_line(l, width as nat).take(k as int) =~= wrap_line(l, width as nat));
            }
        }
        i += 1;
    }
    proof {
        assert(lines@.take(lines@.len() as int) =~= lines@);
    }
    out
}

/// Offset of text of size `tw` x `th` inside a `cw` x `ch` area for each anchor; centered
/// axes use Rust's truncating division by two.
pub open spec fn anchor_offset(cw: int, ch: int, tw: int, th: int, anchor: Anchor) -> (int, int) {
    match anchor {
        Anchor::Center => (trunc_div(cw - tw, 2), trunc_div(ch - th, 2)),
        Anchor::N => (trunc_div(cw - tw, 2), ch - th),
        Anchor::S => (trunc_div(cw - tw, 2), 0),
        Anchor::E => (cw - tw, trunc_div(ch - th, 2)),
        Anchor::W => (0, trunc_div(ch - th, 2)),
        Anchor::Ne => (cw - tw, ch - th),
        Anchor::Nw => (0, ch - th),
        Anchor::Se => (cw - tw, 0),
        Anchor::Sw => (0, 0),
    }
}

/// Where the lower-left character of the text goes.
pub open spec fn spec_text_origin(canvas: Canvas, text_w: usize, text_h: usize, anchor: Anchor) -> Coord {
    let d = anchor_offset((canvas.width as i32) as int, (canvas.height as i32) as int,
        (text_w as i32) as int, (text_h as i32) as int, anchor);
    Coord { column: (canvas.left + d.0) as i32, row: (canvas.bottom + d.1) as i32 }
}

/// The i32 arithmetic of `text_origin` stays in range.
pub open spec fn text_origin_fits(canvas: Canvas, text_w: usize, text_h: usize) -> bool {
    let cw = (canvas.width as i32) as int;
    let ch = (canvas.height as i32) as int;
    let tw = (text_w as i32) as int;
    let th = (text_h as i32) as int;
    &&& i32::MIN <= cw - tw <= i32::MAX
    &&& i32::MIN <= ch - th <= i32::MAX
    &&& i32::MIN <= canvas.left + (cw - tw) <= i32::MAX
    &&& i32::MIN <= canvas.left + trunc_div(cw - tw, 2) <= i32::MAX
    &&& i32::MIN <= canvas.left <= i32::MAX
    &&& i32::MIN <= canvas.bottom + (ch - th) <= i32::MAX
    &&& i32::MIN <= canvas.bottom + trunc_div(ch - th, 2) <= i32::MAX
}

fn half_toward_zero(x: i32) -> (h: i32)
    ensures
        h == trunc_div(x as int, 2),
{
    proof {
        lemma_trunc_div_rem(x as int, 2);
    }
    x / 2
}

/// Where the text's lower-left character goes on `canvas` for the given anchor.
pub fn text_origin(canvas: &Canvas, text_w: usize, text_h: usize, anchor: Anchor) -> (c: Coord)
    requires
        text_origin_fits(*canvas, text_w, text_h),
    ensures
        c == spec_text_origin(*canvas, text_w, text_h, anchor),
{
    let cw = canvas.width as i32;
    let ch = canvas.height as i32;
    let tw = text_w as i32;
    let th = text_h as i32;
    let (dx, dy) = match anchor {
        Anchor::Center => (half_toward_zero(cw - tw), half_toward_zero(ch - th)),
        Anchor::N => (half_toward_zero(cw - tw), ch - th),
        Anchor::S => (half_toward_zero(cw - tw), 0),
        Anchor::E => (cw - tw, half_toward_zero(ch - th)),
        Anchor::W => (0, half_toward_zero(ch - th)),
        Anchor::Ne => (cw - tw, ch - th),
        Anchor::Nw => (0, ch - th),
        Anchor::Se => (cw - tw, 0),
        Anchor::Sw => (0, 0),
    };
    Coord { column: canvas.left + dx, row: canvas.bottom + dy }
}

/// The id of the last of `coords` equal to `target` (the one a later insertion keeps).
pub open spec fn id_at(coords: Seq<Coord>, ids: Seq<CharacterId>, target: Coord) -> Option<CharacterId>
    decreases coords.len(),
{
    if coords.len() == 0 || ids.len() != coords.len() {
        None
    } else if coords.last() == target {
        Some(ids.last())
    } else {
        id_at(coords.drop_last(), ids.drop_last(), target)
    }
}

/// The neighbors of the character at `c`: the characters one column left and right and
/// one row above and below.
pub open spec fn neighbors_of(coords: Seq<Coord>, ids: Seq<CharacterId>, c: Coord) -> Neighbors {
    Neighbors {
        left: id_at(coords, ids, Coord { column: (c.column - 1) as i32, row: c.row }),
        right: id_at(coords, ids, Coord { column: (c.column + 1) as i32, row: c.row }),
        above: id_at(coords, ids, Coord { column: c.column, row: (c.row + 1) as i32 }),
        below: id_at(coords, ids, Coord { column: c.column, row: (c.row - 1) as i32 }),
    }
}

fn find_id_at(coords: &[Coord], ids: &[CharacterId], target: Coord) -> (r: Option<CharacterId>)
    requires
        coords@.len() == ids@.len(),
    ensures
        r == id_at(coords@, ids@, target),
{
    let mut k: usize = coords.len();
    proof {
        lemma_take_full(coords@);
        lemma_take_full(ids@);
    }
    while k > 0
        invariant
            k <= coords@.len(),
            coords@.len() == ids@.len(),
            id_at(coords@, ids@, target) == id_at(coords@.take(k as int), ids@.take(k as int), target),
        decreases k,
    {
        proof {
            assert(coords@.take(k as int).drop_last() =~= coords@.take(k - 1));
            assert(ids@.take(k as int).drop_last() =~= ids@.take(k - 1));
        }
        if coords[k - 1] == target {
            return Some(ids[k - 1]);
        }
        k -= 1;
    }
    None
}

proof fn lemma_take_full<T>(s: Seq<T>)
    ensures
        s.take(s.len() as int) == s,
{
    assert(s.take(s.len() as int) =~= s);
}

/// The neighbors of every character, found by position.
pub fn link_neighbors(coords: &[Coord], ids: &[CharacterId]) -> (n: Vec<Neighbors>)
    requires
        coords@.len() == ids@.len(),
        forall|i: int| 0 <= i < coords@.len() ==> {
            let c = #[trigger] coords@[i];
            i32::MIN < c.column < i32::MAX && i32::MIN < c.row < i32::MAX
        },
    ensures
        n@.len() == coords@.len(),
        forall|i: int| 0 <= i < n@.len() ==> #[trigger] n@[i] == neighbors_of(coords@, ids@, coords@[i]),
{
    proof {
        lemma_take_full(coords@);
        lemma_take_full(ids@);
    }
    let mut out: Vec<Neighbors> = Vec::new();
    let mut i: usize = 0;
    while i < coords.len()
        invariant
            coords@.len() == ids@.len(),
            i <= coords@.len(),
            out@.len() == i,
            forall|i: int| 0 <= i < coords@.len() ==> {
                let c = #[trigger] coords@[i];
                i32::MIN < c.column < i32::MAX && i32::MIN < c.row < i32::MAX
            },
            forall|j: int| 0 <= j < i ==> #[trigger] out@[j] == neighbors_of(coords@, ids@, coords@[j]),
        decreases coords.len() - i,
    {
        let c = coords[i];
        let left = find_id_at(coords, ids, Coord { column: c.column - 1, row: c.row });
        let right = find_id_at(coords, ids, Coord { column: c.column + 1, row: c.row });
        let above = find_id_at(coords, ids, Coord { column: c.column, row: c.row + 1 });
        let below = find_id_at(coords, ids, Coord { column: c.column, row: c.row - 1 });
        out.push(Neighbors { above, below, left, right });
        i += 1;
    }
    out
}

/// How input text is placed on the canvas.
#[derive(Clone, Copy, Debug, PartialEq, Eq, Structural)]
pub struct LayoutConfig {
    pub tab_width: usize,
    pub wrap_text: bool,
    pub canvas_width: Option<usize>,
    pub canvas_height: Option<usize>,
    pub anchor_canvas: Anchor,
    pub anchor_text: Anchor,
    pub ignore_terminal_dimensions: bool,
    pub existing_color_handling: ExistingColorHandling,
}

impl Default for LayoutConfig {
    fn default() -> (c: Self)
        ensures
            c == (LayoutConfig {
                tab_width: 4,
                wrap_text: false,
                canvas_width: None,
                canvas_height: None,
                anchor_canvas: Anchor::Center,
                anchor_text: Anchor::Center,
                ignore_terminal_dimensions: false,
                existing_color_handling: ExistingColorHandling::Ignore,
            }),
    {
        LayoutConfig {
            tab_width: 4,
            wrap_text: false,
            canvas_width: None,
            canvas_height: None,
            anchor_canvas: Anchor::Center,
            anchor_text: Anchor::Center,
            ignore_terminal_dimensions: false,
            existing_color_handling: ExistingColorHandling::Ignore,
        }
    }
}

/// One input character as placed on the canvas.
#[derive(Debug)]
pub struct PlacedCharacter {
    pub id: CharacterId,
    pub symbol: String,
    pub coord: Coord,
    pub fg: Option<Color>,
    pub bg: Option<Color>,
    pub visual: CharacterVisual,
    pub neighbors: Neighbors,
}

/// Length of the longest line (0 for none).
pub open spec fn max_line_len(lines: Seq<Seq<ParsedCell>>) -> nat
    decreases lines.len(),
{
    if lines.len() == 0 {
        0
    } else {
        let m = max_line_len(lines.drop_last());
        if lines.last().len() > m { lines.last().len() } else { m }
    }
}

pub open spec fn max_nat(a: nat, b: nat) -> nat {
    if a >= b { a } else { b }
}

pub open spec fn tab_of(config: LayoutConfig) -> nat {
    max_nat(config.tab_width as nat, 1)
}

/// The canvas size: configured sizes win; otherwise the text's size when terminal
/// dimensions are ignored, else the terminal's size (at least 1 either way).
pub open spec fn canvas_size(config: LayoutConfig, tw: nat, th: nat, term_w: u16, term_h: u16) -> (nat, nat) {
    if config.ignore_terminal_dimensions {
        (
            match config.canvas_width { Some(w) => w as nat, None => max_nat(tw, 1) },
            match config.canvas_height { Some(h) => h as nat, None => max_nat(th, 1) },
        )
    } else {
        (
            max_nat(match config.canvas_width { Some(w) => w as nat, None => term_w as nat }, 1),
            max_nat(match config.canvas_height { Some(h) => h as nat, None => term_h as nat }, 1),
        )
    }
}

pub open spec fn layout_parsed(input: Seq<char>, config: LayoutConfig) -> Seq<Seq<ParsedCell>> {
    ansi_lines(input, tab_of(config))
}

pub open spec fn layout_size(input: Seq<char>, config: LayoutConfig, term_w: u16, term_h: u16) -> (nat, nat) {
    let parsed = layout_parsed(input, config);
    canvas_size(config, max_line_len(parsed), parsed.len(), term_w, term_h)
}

/// The lines as laid out: parsed, then wrapped at the canvas width when asked.
pub open spec fn layout_lines(input: Seq<char>, config: LayoutConfig, term_w: u16, term_h: u16) -> Seq<Seq<ParsedCell>> {
    let parsed = layout_parsed(input, config);
    let w = layout_size(input, config, term_w, term_h).0;
    if config.wrap_text && w > 0 { wrap_lines(parsed, w) } else { parsed }
}

/// `c` lies on the `w` x `h` canvas built by `Canvas::new`.
pub open spec fn on_canvas(c: Coord, w: nat, h: nat) -> bool {
    &&& 1 <= c.column <= (w as usize as i32)
    &&& 1 <= c.row <= (h as usize as i32)
    &&& w > 0
    &&& h > 0
}

/// The cells of `line` that land on the canvas, with their positions, left to right.
pub open spec fn line_places(line: Seq<ParsedCell>, col0: int, row: int, w: nat, h: nat) -> Seq<(Coord, ParsedCell)>
    decreases line.len(),
{
    if line.len() == 0 {
        Seq::empty()
    } else {
        let c = Coord { column: (col0 + line.len() - 1) as i32, row: row as i32 };
        line_places(line.drop_last(), col0, row, w, h) + (if on_canvas(c, w, h) { seq![(c, line.last())] } else { Seq::empty() })
    }
}

/// The cells of all lines that land on the canvas: line `i` on row
/// `origin.row + th - 1 - i` (the first line on top), in reading order.
pub open spec fn all_places(lines: Seq<Seq<ParsedCell>>, origin: Coord, th: int, w: nat, h: nat) -> Seq<(Coord, ParsedCell)>
    decreases lines.len(),
{
    if lines.len() == 0 {
        Seq::empty()
    } else {
        all_places(lines.drop_last(), origin, th, w, h)
            + line_places(lines.last(), origin.column as int, origin.row + th - 1 - (lines.len() - 1), w, h)
    }
}

pub open spec fn layout_origin(input: Seq<char>, config: LayoutConfig, term_w: u16, term_h: u16) -> Coord {
    let size = layout_size(input, config, term_w, term_h);
    let lines = layout_lines(input, config, term_w, term_h);
    let d = anchor_offset(size.0 as int, size.1 as int, max_line_len(lines) as int, lines.len() as int, config.anchor_text);
    Coord { column: (1 + d.0) as i32, row: (1 + d.1) as i32 }
}

/// The placed cells of the laid-out input, in id order.
pub open spec fn layout_places(input: Seq<char>, config: LayoutConfig, term_w: u16, term_h: u16) -> Seq<(Coord, ParsedCell)> {
    let size = layout_size(input, config, term_w, term_h);
    let lines = layout_lines(input, config, term_w, term_h);
    all_places(lines, layout_origin(input, config, term_w, term_h), lines.len() as int, size.0, size.1)
}

/// The sizes involved stay far from the limits of `i32` coordinates and `u32` ids.
pub open spec fn layout_fits(input: Seq<char>, config: LayoutConfig, term_w: u16, term_h: u16) -> bool {
    let size = layout_size(input, config, term_w, term_h);
    let lines = layout_lines(input, config, term_w, term_h);
    &&& size.0 < 0x4000_0000
    &&& size.1 < 0x4000_0000
    &&& size.0 * size.1 <= usize::MAX
    &&& max_line_len(lines) < 0x4000_0000
    &&& lines.len() < 0x4000_0000
    &&& layout_places(input, config, term_w, term_h).len() < 0x1_0000_0000
}

/// The look a placed character starts with: its symbol, plus, unless existing colors are
/// ignored, the attributes and colors it was written in.
pub open spec fn placed_visual_ok(v: CharacterVisual, cell: ParsedCell, handling: ExistingColorHandling) -> bool {
    let keep = handling != ExistingColorHandling::Ignore;
    let st = cell.style;
    &&& v.symbol@ == seq![cell.ch]
    &&& v.bold == (keep && st.bold)
    &&& v.dim == (keep && st.dim)
    &&& v.italic == (keep && st.italic)
    &&& v.underline == (keep && st.underline)
    &&& v.blink == (keep && st.blink)
    &&& v.reverse == (keep && st.reverse)
    &&& v.hidden == (keep && st.hidden)
    &&& v.strike == (keep && st.strike)
    &&& v.colors == (if keep && (st.fg is Some || st.bg is Some) { Some(ColorPair { fg: st.fg, bg: st.bg }) } else { None })
    &&& v.formatted_symbol@ == formatted(v)
}

fn placed_visual(cell: ParsedCell, handling: ExistingColorHandling) -> (v: CharacterVisual)
    ensures
        placed_visual_ok(v, cell, handling),
{
    let symbol = char_string(cell.ch);
    let mut v = CharacterVisual::new(symbol.as_str(), None);
    match handling {
        ExistingColorHandling::Ignore => {},
        _ => {
            let st = cell.style;
            let pair = ColorPair { fg: st.fg, bg: st.bg };
            if pair.fg.is_some() || pair.bg.is_some() {
                v = CharacterVisual::new(symbol.as_str(), Some(pair));
            }
            v.bold = st.bold;
            v.dim = st.dim;
            v.italic = st.italic;
            v.underline = st.underline;
            v.blink = st.blink;
            v.reverse = st.reverse;
            v.hidden = st.hidden;
            v.strike = st.strike;
            if v.colors.is_none() {
                v.colors = pair.into_option();
            }
            v.refresh();
        },
    }
    v
}

fn max_len(lines: &Vec<Vec<ParsedCell>>) -> (m: usize)
    ensures
        m == max_line_len(line_views(lines@)),
{
    let mut m: usize = 0;
    let mut i: usize = 0;
    while i < lines.len()
        invariant
            i <= lines@.len(),
            m == max_line_len(line_views(lines@.take(i as int))),
        decreases lines.len() - i,
    {
        proof {
            assert(line_views(lines@.take(i + 1)).drop_last() =~= line_views(lines@.take(i as int)));
        }
        if lines[i].len() > m {
            m = lines[i].len();
        }
        i += 1;
    }
    proof {
        lemma_take_full(lines@);
    }
    m
}

proof fn lemma_line_views_take(lines: Seq<Vec<ParsedCell>>, i: int)
    requires
        0 <= i < lines.len(),
    ensures
        line_views(lines.take(i + 1)).drop_last() == line_views(lines.take(i)),
        line_views(lines.take(i + 1)).last() == lines[i]@,
        line_views(lines.take(i + 1)).len() == i + 1,
{
    assert(line_views(lines.take(i + 1)).drop_last() =~= line_views(lines.take(i)));
}

/// Places the characters of `lines` on a `width` x `height` canvas around `origin`.
fn place_cells(lines: &Vec<Vec<ParsedCell>>, origin: Coord, width: usize, height: usize, canvas: &Canvas) -> (places: Vec<(Coord, ParsedCell)>)
    requires
        canvas.wf(),
        canvas.width == width,
        canvas.height == height,
        width < 0x4000_0000,
        height < 0x4000_0000,
        lines@.len() < 0x4000_0000,
        max_line_len(line_views(lines@)) < 0x4000_0000,
        -0x4000_0000 <= origin.column <= 0x4000_0000,
        -0x4000_0000 <= origin.row <= 0x4000_0000,
    ensures
        places@ == all_places(line_views(lines@), origin, lines@.len() as int, width as nat, height as nat),
{
    let text_h = lines.len();
    let mut places: Vec<(Coord, ParsedCell)> = Vec::new();
    let mut line_idx: usize = 0;
    while line_idx < text_h
        invariant
            canvas.wf(),
            canvas.width == width,
            canvas.height == height,
            width < 0x4000_0000,
            height < 0x4000_0000,
            text_h == lines@.len(),
            text_h < 0x4000_0000,
            max_line_len(line_views(lines@)) < 0x4000_0000,
            -0x4000_0000 <= origin.column <= 0x4000_0000,
            -0x4000_0000 <= origin.row <= 0x4000_0000,
            line_idx <= text_h,
            places@ == all_places(line_views(lines@.take(line_idx as int)), origin, text_h as int, width as nat, height as nat),
        decreases text_h - line_idx,
    {
        let row = origin.row + (text_h as i32 - 1 - line_idx as i32);
        let line = &lines[line_idx];
        proof {
            lemma_line_views_take(lines@, line_idx as int);
            lemma_max_line_len_bound(line_views(lines@), line_idx as int);
            assert(line_views(lines@)[line_idx as int] == line@);
        }
        let ghost before = places@;
        let mut col_idx: usize = 0;
        while col_idx < line.len()
            invariant
                canvas.wf(),
                canvas.width == width,
                canvas.height == height,
                line@.len() < 0x4000_0000,
                -0x4000_0000 <= origin.column <= 0x4000_0000,
                col_idx <= line@.len(),
                places@ == before + line_places(line@.take(col_idx as int), origin.column as int, row as int, width as nat, height as nat),
            decreases line.len() - col_idx,
        {
            let coord = Coord { column: origin.column + col_idx as i32, row };
            proof {
                assert(line@.take(col_idx + 1).drop_last() =~= line@.take(col_idx as int));
                assert(canvas.spec_contains(coord) == on_canvas(coord, width as nat, height as nat));
            }
            if canvas.contains(coord) {
                places.push((coord, line[col_idx]));
            }
            proof {
                assert(places@ =~= before + line_places(line@.take(col_idx + 1), origin.column as int, row as int, width as nat, height as nat));
            }
            col_idx += 1;
        }
        proof {
            lemma_take_full(line@);
        }
        line_idx += 1;
    }
    proof {
        lemma_take_full(lines@);
    }
    places
}

proof fn lemma_max_line_len_bound(lines: Seq<Seq<ParsedCell>>, i: int)
    requires
        0 <= i < lines.len(),
    ensures
        lines[i].len() <= max_line_len(lines),
    decreases lines.len(),
{
    if i < lines.len() - 1 {
        lemma_max_line_len_bound(lines.drop_last(), i);
        assert(lines.drop_last()[i] == lines[i]);
    }
}

proof fn lemma_line_places_on_canvas(line: Seq<ParsedCell>, col0: int, row: int, w: nat, h: nat)
    ensures
        forall|j: int| 0 <= j < line_places(line, col0, row, w, h).len() ==> on_canvas(#[trigger] line_places(line, col0, row, w, h)[j].0, w, h),
    decreases line.len(),
{
    if line.len() > 0 {
        lemma_line_places_on_canvas(line.drop_last(), col0, row, w, h);
        let a = line_places(line.drop_last(), col0, row, w, h);
        let c = Coord { column: (col0 + line.len() - 1) as i32, row: row as i32 };
        let b: Seq<(Coord, ParsedCell)> = if on_canvas(c, w, h) { seq![(c, line.last())] } else { Seq::empty() };
        assert forall|j: int| 0 <= j < (a + b).len() implies on_canvas(#[trigger] (a + b)[j].0, w, h) by {
            if j < a.len() {
                assert((a + b)[j] == a[j]);
            } else {
                assert((a + b)[j] == b[j - a.len()]);
            }
        }
    }
}

proof fn lemma_all_places_on_canvas(lines: Seq<Seq<ParsedCell>>, origin: Coord, th: int, w: nat, h: nat)
    ensures
        forall|j: int| 0 <= j < all_places(lines, origin, th, w, h).len() ==> on_canvas(#[trigger] all_places(lines, origin, th, w, h)[j].0, w, h),
    decreases lines.len(),
{
    if lines.len() > 0 {
        lemma_all_places_on_canvas(lines.drop_last(), origin, th, w, h);
        lemma_line_places_on_canvas(lines.last(), origin.column as int, origin.row + th - 1 - (lines.len() - 1), w, h);
        let a = all_places(lines.drop_last(), origin, th, w, h);
        let b = line_places(lines.last(), origin.column as int, origin.row + th - 1 - (lines.len() - 1), w, h);
        assert forall|j: int| 0 <= j < (a + b).len() implies on_canvas(#[trigger] (a + b)[j].0, w, h) by {
            if j < a.len() {
                assert((a + b)[j] == a[j]);
            } else {
                assert((a + b)[j] == b[j - a.len()]);
            }
        }
    }
}

fn layout_dims(config: &LayoutConfig, text_w: usize, text_h: usize, term_w: u16, term_h: u16) -> (d: (usize, usize))
    ensures
        (d.0 as nat, d.1 as nat) == canvas_size(*config, text_w as nat, text_h as nat, term_w, term_h),
{
    if config.ignore_terminal_dimensions {
        let width = match config.canvas_width {
            Some(w) => w,
            None => if text_w > 1 { text_w } else { 1 },
        };
        let height = match config.canvas_height {
            Some(h) => h,
            None => if text_h > 1 { text_h } else { 1 },
        };
        (width, height)
    } else {
        let w = match config.canvas_width {
            Some(w) => w,
            None => term_w as usize,
        };
        let h = match config.canvas_height {
            Some(h) => h,
            None => term_h as usize,
        };
        (if w > 1 { w } else { 1 }, if h > 1 { h } else { 1 })
    }
}

/// The canvas and the cells of `input` that land on it, with their positions.
#[verifier::rlimit(60)]
fn layout_grid(input: &str, config: &LayoutConfig, term_w: u16, term_h: u16) -> (r: (Canvas, Vec<(Coord, ParsedCell)>))
    requires
        layout_fits(input@, *config, term_w, term_h),
    ensures
        r.0.wf(),
        r.0.width == layout_size(input@, *config, term_w, term_h).0,
        r.0.height == layout_size(input@, *config, term_w, term_h).1,
        forall|i: int| 0 <= i < r.0.cells_view().len() ==> is_blank_cell(#[trigger] r.0.cells_view()[i]),
        r.1@ == layout_places(input@, *config, term_w, term_h),
{
    let tab = if config.tab_width > 1 { config.tab_width } else { 1 };
    let parsed = parse_ansi_text(input, tab);
    let text_w = max_len(&parsed);
    let text_h = parsed.len();
    let (width, height) = layout_dims(config, text_w, text_h, term_w, term_h);
    let ghost size = layout_size(input@, *config, term_w, term_h);
    let ghost spec_lines = layout_lines(input@, *config, term_w, term_h);
    proof {
        assert(line_views(parsed@) == layout_parsed(input@, *config));
        assert(width as nat == size.0 && height as nat == size.1);
    }
    let lines = if config.wrap_text && width > 0 {
        wrap_parsed_lines(parsed, width)
    } else {
        parsed
    };
    proof {
        assert(line_views(lines@) == spec_lines);
    }
    let text_w = max_len(&lines);
    let text_h = lines.len();
    proof {
        assert(text_w < 0x4000_0000 && text_h < 0x4000_0000);
        assert(width < 0x4000_0000 && height < 0x4000_0000);
        assert(width * height <= usize::MAX);
    }
    let canvas = Canvas::new(width, height);
    proof {
        lemma_trunc_div_rem(width as int - text_w as int, 2);
        lemma_trunc_div_rem(height as int - text_h as int, 2);
    }
    let origin = text_origin(&canvas, text_w, text_h, config.anchor_text);
    let places = place_cells(&lines, origin, width, height, &canvas);
    (canvas, places)
}

/// The placed characters for the given cells: ids in order, neighbors by position.
fn assemble_characters(places: &Vec<(Coord, ParsedCell)>, handling: ExistingColorHandling) -> (out: Vec<PlacedCharacter>)
    requires
        places@.len() < 0x1_0000_0000,
        forall|j: int| 0 <= j < places@.len() ==> 1 <= (#[trigger] places@[j]).0.column < 0x4000_0000 && 1 <= places@[j].0.row < 0x4000_0000,
    ensures
        out@.len() == places@.len(),
        forall|k: int| 0 <= k < out@.len() ==> {
            let p = places@;
            let ch = #[trigger] out@[k];
            &&& ch.id == CharacterId(k as u32)
            &&& ch.coord == p[k].0
            &&& ch.symbol@ == seq![p[k].1.ch]
            &&& ch.fg == p[k].1.style.fg
            &&& ch.bg == p[k].1.style.bg
            &&& placed_visual_ok(ch.visual, p[k].1, handling)
            &&& ch.neighbors == neighbors_of(
                p.map_values(|q: (Coord, ParsedCell)| q.0),
                Seq::new(p.len(), |j: int| CharacterId(j as u32)),
                p[k].0,
            )
        },
{
    let ghost p = places@;
    let mut coords: Vec<Coord> = Vec::new();
    let mut ids: Vec<CharacterId> = Vec::new();
    let mut k: usize = 0;
    while k < places.len()
        invariant
            p == places@,
            p.len() < 0x1_0000_0000,
            k <= p.len(),
            coords@ == p.take(k as int).map_values(|q: (Coord, ParsedCell)| q.0),
            ids@ == Seq::new(k as nat, |j: int| CharacterId(j as u32)),
        decreases places.len() - k,
    {
        coords.push(places[k].0);
        ids.push(CharacterId(k as u32));
        proof {
            assert(coords@ =~= p.take(k + 1).map_values(|q: (Coord, ParsedCell)| q.0));
            assert(ids@ =~= Seq::new((k + 1) as nat, |j: int| CharacterId(j as u32)));
        }
        k += 1;
    }
    proof {
        lemma_take_full(p);
        assert(coords@ == p.map_values(|q: (Coord, ParsedCell)| q.0));
        assert forall|i: int| 0 <= i < coords@.len() implies {
            let c = #[trigger] coords@[i];
            i32::MIN < c.column < i32::MAX && i32::MIN < c.row < i32::MAX
        } by {
            assert(coords@[i] == p[i].0);
        }
    }
    let neighbors = link_neighbors(coords.as_slice(), ids.as_slice());
    let mut out: Vec<PlacedCharacter> = Vec::new();
    let mut k: usize = 0;
    while k < places.len()
        invariant
            p == places@,
            p.len() < 0x1_0000_0000,
            k <= p.len(),
            neighbors@.len() == p.len(),
            forall|j: int| 0 <= j < neighbors@.len() ==> #[trigger] neighbors@[j] == neighbors_of(
                p.map_values(|q: (Coord, ParsedCell)| q.0),
                Seq::new(p.len(), |j: int| CharacterId(j as u32)),
                p.map_values(|q: (Coord, ParsedCell)| q.0)[j],
            ),
            out@.len() == k,
            forall|j: int| 0 <= j < k ==> {
                let ch = #[trigger] out@[j];
                &&& ch.id == CharacterId(j as u32)
                &&& ch.coord == p[j].0
                &&& ch.symbol@ == seq![p[j].1.ch]
                &&& ch.fg == p[j].1.style.fg
                &&& ch.bg == p[j].1.style.bg
                &&& placed_visual_ok(ch.visual, p[j].1, handling)
                &&& ch.neighbors == neighbors@[j]
            },
        decreases places.len() - k,
    {
        let (coord, cell) = places[k];
        out.push(PlacedCharacter {
            id: CharacterId(k as u32),
            symbol: char_string(cell.ch),
            coord,
            fg: cell.style.fg,
            bg: cell.style.bg,
            visual: placed_visual(cell, handling),
            neighbors: neighbors[k],
        });
        k += 1;
    }
    out
}

/// The canvas and the placed characters for `input`, given the terminal size.
///
/// Characters get ids `0, 1, ...` in reading order; only those landing on the canvas are kept.
pub fn layout_text(input: &str, config: &LayoutConfig, term_w: u16, term_h: u16) -> (r: (Canvas, Vec<PlacedCharacter>))
    requires
        layout_fits(input@, *config, term_w, term_h),
    ensures
        r.0.wf(),
        r.0.width == layout_size(input@, *config, term_w, term_h).0,
        r.0.height == layout_size(input@, *config, term_w, term_h).1,
        forall|i: int| 0 <= i < r.0.cells_view().len() ==> is_blank_cell(#[trigger] r.0.cells_view()[i]),
        r.1@.len() == layout_places(input@, *config, term_w, term_h).len(),
        forall|k: int| 0 <= k < r.1@.len() ==> {
            let p = layout_places(input@, *config, term_w, term_h);
            let ch = #[trigger] r.1@[k];
            &&& ch.id == CharacterId(k as u32)
            &&& ch.coord == p[k].0
            &&& ch.symbol@ == seq![p[k].1.ch]
            &&& ch.fg == p[k].1.style.fg
            &&& ch.bg == p[k].1.style.bg
            &&& placed_visual_ok(ch.visual, p[k].1, config.existing_color_handling)
            &&& ch.neighbors == neighbors_of(
                p.map_values(|q: (Coord, ParsedCell)| q.0),
                Seq::new(p.len(), |j: int| CharacterId(j as u32)),
                p[k].0,
            )
        },
{
    let (canvas, places) = layout_grid(input, config, term_w, term_h);
    proof {
        let size = layout_size(input@, *config, term_w, term_h);
        let lines = layout_lines(input@, *config, term_w, term_h);
        lemma_all_places_on_canvas(lines, layout_origin(input@, *config, term_w, term_h), lines.len() as int, size.0, size.1);
    }
    let chars = assemble_characters(&places, config.existing_color_handling);
    (canvas, chars)
}


/// Each character at its place, in a foreground color of its own.
pub open spec fn tinted(chars: Seq<PlacedCharacter>, colors: Seq<Color>) -> Seq<(Coord, Seq<char>)> {
    Seq::new(chars.len(), |k: int| (chars[k].coord, fg_text(chars[k].symbol@, colors[k])))
}

/// The characters' sprites, each in its color.
pub fn tinted_sprites(chars: &[PlacedCharacter], colors: &[Color]) -> (sprites: Vec<(Coord, CharacterVisual)>)
    requires
        colors@.len() == chars@.len(),
    ensures
        sprite_texts(sprites@) == tinted(chars@, colors@),
{
    let mut sprites: Vec<(Coord, CharacterVisual)> = Vec::new();
    let mut k: usize = 0;
    while k < chars.len()
        invariant
            colors@.len() == chars@.len(),
            k <= chars@.len(),
            sprite_texts(sprites@) == tinted(chars@, colors@).take(k as int),
        decreases chars.len() - k,
    {
        let visual = CharacterVisual::new(chars[k].symbol.as_str(), Some(ColorPair::fg(colors[k])));
        proof {
            lemma_fg_text(visual, colors@[k as int]);
        }
        let ghost before = sprites@;
        sprites.push((chars[k].coord, visual));
        proof {
            assert(sprite_texts(sprites@) =~= sprite_texts(before).push((chars@[k as int].coord, formatted(visual))));
            assert(tinted(chars@, colors@).take(k + 1) =~= tinted(chars@, colors@).take(k as int).push(
                tinted(chars@, colors@)[k as int],
            ));
        }
        k = k + 1;
    }
    proof {
        assert(tinted(chars@, colors@).take(chars@.len() as int) =~= tinted(chars@, colors@));
    }
    sprites
}

/// Draws the sprites on the cleared canvas; the frame is their picture.
pub fn draw_frame(canvas: &mut Canvas, sprites: &[(Coord, CharacterVisual)]) -> (f: String)
    requires
        old(canvas).wf(),
        old(canvas).width < 0x4000_0000,
        old(canvas).height < 0x4000_0000,
    ensures
        final(canvas).wf(),
        final(canvas).width == old(canvas).width,
        final(canvas).height == old(canvas).height,
        f@ == picture(old(canvas).width as nat, old(canvas).height as nat, sprite_texts(sprites@)),
{
    let ghost before = *canvas;
    let f = canvas.compose(sprites);
    proof {
        let cleared = choose|cleared: Seq<Cell>|
            cleared.len() == before.cells_view().len() && (forall|i: int|
                0 <= i < cleared.len() ==> is_blank_cell(#[trigger] cleared[i])) && canvas.cells_view() == painted(
                before,
                cleared,
                sprites@,
            );
        lemma_compose_picture(before, cleared, sprites@, *canvas);
    }
    f
}

/// Law: a lone basic color code sets one color and keeps the rest of the style: `30..=37`
/// and `40..=47` pick the foreground and background from the first eight system colors
/// (xterm `0..=7`), the bright codes `90..=97` and `100..=107` from the bright half
/// (xterm `8..=15`), and `39`/`49` clear the foreground/background.
pub proof fn lemma_sgr_basic_colors(st: StyleState, v: i32)
    ensures
        ({
            let after = sgr_apply(st, seq![v]);
            &&& 30 <= v <= 37 ==> after == StyleState { fg: Some(xterm_color((v - 30) as u8)), ..st }
            &&& 90 <= v <= 97 ==> after == StyleState { fg: Some(xterm_color((v - 82) as u8)), ..st }
            &&& 40 <= v <= 47 ==> after == StyleState { bg: Some(xterm_color((v - 40) as u8)), ..st }
            &&& 100 <= v <= 107 ==> after == StyleState { bg: Some(xterm_color((v - 92) as u8)), ..st }
            &&& v == 39 ==> after == StyleState { fg: None, ..st }
            &&& v == 49 ==> after == StyleState { bg: None, ..st }
        }),
{
    let p = seq![v];
    reveal_with_fuel(sgr_from, 2);
    let (next, j) = sgr_one(st, p, 0);
    assert(j == 0);
    assert(sgr_from(next, p, 1) == next);
}

/// Law: the text lands on the canvas side its anchor names and is centered on the other
/// axes. For text no larger than the canvas, north anchors put its top row on the canvas's
/// top row and south anchors its bottom row on the bottom row; east anchors put its last
/// column on the right edge and west anchors its first column on the left edge; a centered
/// axis leaves margins on both sides that differ by at most one, the larger one after the
/// text. The text always fits inside the canvas.
pub proof fn lemma_anchor_edges(canvas: Canvas, text_w: usize, text_h: usize, anchor: Anchor)
    requires
        canvas.wf(),
        canvas.width <= i32::MAX,
        canvas.height <= i32::MAX,
        1 <= text_w <= canvas.width,
        1 <= text_h <= canvas.height,
    ensures
        ({
            let o = spec_text_origin(canvas, text_w, text_h, anchor);
            let (tw, th) = (text_w as int, text_h as int);
            let north = anchor == Anchor::N || anchor == Anchor::Ne || anchor == Anchor::Nw;
            let south = anchor == Anchor::S || anchor == Anchor::Se || anchor == Anchor::Sw;
            let east = anchor == Anchor::E || anchor == Anchor::Ne || anchor == Anchor::Se;
            let west = anchor == Anchor::W || anchor == Anchor::Nw || anchor == Anchor::Sw;
            let below = o.row - canvas.bottom;
            let above = canvas.top - (o.row + th - 1);
            let before = o.column - canvas.left;
            let after = canvas.right - (o.column + tw - 1);
            &&& 0 <= below && 0 <= above && 0 <= before && 0 <= after
            &&& north ==> above == 0
            &&& south ==> below == 0
            &&& east ==> after == 0
            &&& west ==> before == 0
            &&& !north && !south ==> 0 <= above - below <= 1
            &&& !east && !west ==> 0 <= after - before <= 1
        }),
{
    let cw = canvas.width as int;
    let ch = canvas.height as int;
    let tw = text_w as int;
    let th = text_h as int;
    assert((canvas.width as i32) as int == cw);
    assert((canvas.height as i32) as int == ch);
    assert((text_w as i32) as int == tw);
    assert((text_h as i32) as int == th);
    lemma_trunc_div_rem(cw - tw, 2);
    lemma_trunc_div_rem(ch - th, 2);
}

/// Law: a tab in the text moves to the next tab stop: it adds between one and `tab` spaces
/// in the current style to the line, so that the line's length becomes the next multiple
/// of `tab` above it; the other lines are untouched.
pub proof fn lemma_tab_to_next_stop(
    lines: Seq<Seq<ParsedCell>>,
    style: StyleState,
    csi: Seq<char>,
    lf_next: bool,
    tab: nat,
)
    requires
        tab >= 1,
        lines.len() >= 1,
    ensures
        ({
            let r = ansi_step(lines, style, AnsiMode::Ground, csi, '\t', lf_next, tab);
            let before = lines.last().len();
            let after = r.0.last().len();
            &&& r.0.len() == lines.len()
            &&& r.0.drop_last() == lines.drop_last()
            &&& before < after <= before + tab
            &&& after % tab == 0
            &&& r.0.last().take(before as int) == lines.last()
            &&& forall|k: int| before <= k < after ==> #[trigger] r.0.last()[k] == ParsedCell { ch: ' ', style }
            &&& r.4 == 1
        }),
{
    let r = ansi_step(lines, style, AnsiMode::Ground, csi, '\t', lf_next, tab);
    let col = lines.last().len() as int;
    let t = tab as int;
    let spaces = t - col % t;
    vstd::arithmetic::div_mod::lemma_fundamental_div_mod(col, t);
    assert(0 < spaces <= t);
    let after = col + spaces;
    assert(after == (col / t + 1) * t) by (nonlinear_arith)
        requires col == t * (col / t) + col % t, after == col + (t - col % t);
    vstd::arithmetic::div_mod::lemma_mod_multiples_basic(col / t + 1, t);
    assert(r.0.last() == lines.last() + repeat_cell(ParsedCell { ch: ' ', style }, spaces as nat));
    assert(r.0.last().take(col) =~= lines.last());
    assert(r.0.drop_last() =~= lines.drop_last());
}

/// Law: the extended color codes: `38;5;n` and `48;5;n` take palette color `n` (`0..=255`)
/// for the foreground or background, `38;2;r;g;b` and `48;2;r;g;b` take the color with
/// those channels (each `0..=255`); the rest of the style stays.
pub proof fn lemma_sgr_extended_colors(st: StyleState, n: i32, r: i32, g: i32, b: i32)
    ensures
        0 <= n <= 255 ==> sgr_apply(st, seq![38i32, 5, n]) == (StyleState { fg: Some(xterm_color(n as u8)), ..st }),
        0 <= n <= 255 ==> sgr_apply(st, seq![48i32, 5, n]) == (StyleState { bg: Some(xterm_color(n as u8)), ..st }),
        0 <= r <= 255 && 0 <= g <= 255 && 0 <= b <= 255 ==> sgr_apply(st, seq![38i32, 2, r, g, b])
            == (StyleState { fg: Some(Color { r: r as u8, g: g as u8, b: b as u8 }), ..st }),
        0 <= r <= 255 && 0 <= g <= 255 && 0 <= b <= 255 ==> sgr_apply(st, seq![48i32, 2, r, g, b])
            == (StyleState { bg: Some(Color { r: r as u8, g: g as u8, b: b as u8 }), ..st }),
{
    reveal_with_fuel(sgr_from, 2);
    let p = seq![38i32, 5, n];
    assert(sgr_one(st, p, 0).1 == 2);
    assert(sgr_from(sgr_one(st, p, 0).0, p, 3) == sgr_one(st, p, 0).0);
    let p = seq![48i32, 5, n];
    assert(sgr_one(st, p, 0).1 == 2);
    assert(sgr_from(sgr_one(st, p, 0).0, p, 3) == sgr_one(st, p, 0).0);
    let p = seq![38i32, 2, r, g, b];
    assert(sgr_one(st, p, 0).1 == 4);
    assert(sgr_from(sgr_one(st, p, 0).0, p, 5) == sgr_one(st, p, 0).0);
    let p = seq![48i32, 2, r, g, b];
    assert(sgr_one(st, p, 0).1 == 4);
    assert(sgr_from(sgr_one(st, p, 0).0, p, 5) == sgr_one(st, p, 0).0);
}

/// Law: each attribute code turns one attribute on and its partner code (twenty higher)
/// turns it off again, leaving the colors and the other attributes as they were: `1`
/// bold, `2` dim (`22` ends both), `3` italic, `4` underline, `5` blink, `7` reverse,
/// `8` hidden, `9` strike.
pub proof fn lemma_sgr_attributes(st: StyleState)
    ensures
        sgr_apply(st, seq![1i32]) == (StyleState { bold: true, ..st }),
        sgr_apply(st, seq![2i32]) == (StyleState { dim: true, ..st }),
        sgr_apply(st, seq![22i32]) == (StyleState { bold: false, dim: false, ..st }),
        sgr_apply(st, seq![3i32]) == (StyleState { italic: true, ..st }),
        sgr_apply(st, seq![23i32]) == (StyleState { italic: false, ..st }),
        sgr_apply(st, seq![4i32]) == (StyleState { underline: true, ..st }),
        sgr_apply(st, seq![24i32]) == (StyleState { underline: false, ..st }),
        sgr_apply(st, seq![5i32]) == (StyleState { blink: true, ..st }),
        sgr_apply(st, seq![25i32]) == (StyleState { blink: false, ..st }),
        sgr_apply(st, seq![7i32]) == (StyleState { reverse: true, ..st }),
        sgr_apply(st, seq![27i32]) == (StyleState { reverse: false, ..st }),
        sgr_apply(st, seq![8i32]) == (StyleState { hidden: true, ..st }),
        sgr_apply(st, seq![28i32]) == (StyleState { hidden: false, ..st }),
        sgr_apply(st, seq![9i32]) == (StyleState { strike: true, ..st }),
        sgr_apply(st, seq![29i32]) == (StyleState { strike: false, ..st }),
{
    reveal_with_fuel(sgr_from, 2);
    assert forall|v: i32| #[trigger] sgr_attribute(st, v) is Some implies sgr_apply(st, seq![v])
        == sgr_attribute(st, v).unwrap() by {
        let p = seq![v];
        assert(sgr_one(st, p, 0).1 == 0);
        assert(sgr_from(sgr_one(st, p, 0).0, p, 1) == sgr_one(st, p, 0).0);
    }
    assert(sgr_attribute(st, 1) is Some);
    assert(sgr_attribute(st, 2) is Some);
    assert(sgr_attribute(st, 22) is Some);
    assert(sgr_attribute(st, 3) is Some);
    assert(sgr_attribute(st, 23) is Some);
    assert(sgr_attribute(st, 4) is Some);
    assert(sgr_attribute(st, 24) is Some);
    assert(sgr_attribute(st, 5) is Some);
    assert(sgr_attribute(st, 25) is Some);
    assert(sgr_attribute(st, 7) is Some);
    assert(sgr_attribute(st, 27) is Some);
    assert(sgr_attribute(st, 8) is Some);
    assert(sgr_attribute(st, 28) is Some);
    assert(sgr_attribute(st, 9) is Some);
    assert(sgr_attribute(st, 29) is Some);
}

/// Law: outside escape sequences, an ordinary character (code 32 or above) is added to the
/// end of the current line in the current style, a line feed starts a new empty line, and
/// a carriage return starts one too, taking a line feed right after it along with it.
pub proof fn lemma_scan_text(
    lines: Seq<Seq<ParsedCell>>,
    style: StyleState,
    csi: Seq<char>,
    c: char,
    lf_next: bool,
    tab: nat,
)
    requires
        lines.len() >= 1,
    ensures
        ({
            let r = ansi_step(lines, style, AnsiMode::Ground, csi, c, lf_next, tab);
            &&& c >= ' ' ==> r.0 == lines.drop_last().push(lines.last().push(ParsedCell { ch: c, style }))
                && r.1 == style && r.2 == AnsiMode::Ground && r.4 == 1
            &&& c == '\n' ==> r.0 == lines.push(Seq::empty()) && r.4 == 1
            &&& c == '\r' ==> r.0 == lines.push(Seq::empty()) && r.4 == (if lf_next { 2int } else { 1int })
        }),
{
    let r = ansi_step(lines, style, AnsiMode::Ground, csi, c, lf_next, tab);
    if c >= ' ' {
        assert('\x1b' < ' ' && '\n' < ' ' && '\r' < ' ' && '\t' < ' ');
        assert((' ' as u32) == 32);
        let cell = ParsedCell { ch: c, style };
        assert(lines.last() + seq![cell] =~= lines.last().push(cell));
        assert(r.0 =~= lines.drop_last().push(lines.last().push(cell)));
    }
}

/// `found` is what a lookup of `target` among the characters should give: `None` when no
/// character sits there, else the id of the last character placed there.
pub open spec fn last_placed_at(coords: Seq<Coord>, ids: Seq<CharacterId>, target: Coord, found: Option<CharacterId>) -> bool {
    match found {
        None => forall|k: int| 0 <= k < coords.len() ==> #[trigger] coords[k] != target,
        Some(id) => exists|k: int|
            0 <= k < coords.len() && #[trigger] coords[k] == target && ids[k] == id && forall|j: int|
                k < j < coords.len() ==> #[trigger] coords[j] != target,
    }
}

proof fn lemma_id_at_last(coords: Seq<Coord>, ids: Seq<CharacterId>, target: Coord)
    requires
        coords.len() == ids.len(),
    ensures
        last_placed_at(coords, ids, target, id_at(coords, ids, target)),
    decreases coords.len(),
{
    if coords.len() > 0 {
        let l = coords.len() - 1;
        if coords.last() == target {
            assert(coords[l] == target && ids[l] == ids.last());
        } else {
            lemma_id_at_last(coords.drop_last(), ids.drop_last(), target);
            match id_at(coords.drop_last(), ids.drop_last(), target) {
                None => {
                    assert forall|k: int| 0 <= k < coords.len() implies #[trigger] coords[k] != target by {
                        if k < l {
                            assert(coords[k] == coords.drop_last()[k]);
                        }
                    }
                },
                Some(id) => {
                    let k = choose|k: int|
                        0 <= k < coords.drop_last().len() && #[trigger] coords.drop_last()[k] == target
                            && ids.drop_last()[k] == id && forall|j: int|
                            k < j < coords.drop_last().len() ==> #[trigger] coords.drop_last()[j] != target;
                    assert(coords[k] == target && ids[k] == id);
                    assert forall|j: int| k < j < coords.len() implies #[trigger] coords[j] != target by {
                        if j < l {
                            assert(coords[j] == coords.drop_last()[j]);
                        }
                    }
                },
            }
        }
    }
}

/// Law: a character's neighbors are found by position: its left, right, upper and lower
/// neighbor is the character one column left, one column right, one row up and one row
/// down of it (the last one placed there), or none when no character sits there.
pub proof fn lemma_neighbors_by_position(coords: Seq<Coord>, ids: Seq<CharacterId>, c: Coord)
    requires
        coords.len() == ids.len(),
        i32::MIN < c.column < i32::MAX,
        i32::MIN < c.row < i32::MAX,
    ensures
        ({
            let n = neighbors_of(coords, ids, c);
            &&& last_placed_at(coords, ids, Coord { column: (c.column - 1) as i32, row: c.row }, n.left)
            &&& last_placed_at(coords, ids, Coord { column: (c.column + 1) as i32, row: c.row }, n.right)
            &&& last_placed_at(coords, ids, Coord { column: c.column, row: (c.row + 1) as i32 }, n.above)
            &&& last_placed_at(coords, ids, Coord { column: c.column, row: (c.row - 1) as i32 }, n.below)
        }),
{
    lemma_id_at_last(coords, ids, Coord { column: (c.column - 1) as i32, row: c.row });
    lemma_id_at_last(coords, ids, Coord { column: (c.column + 1) as i32, row: c.row });
    lemma_id_at_last(coords, ids, Coord { column: c.column, row: (c.row + 1) as i32 });
    lemma_id_at_last(coords, ids, Coord { column: c.column, row: (c.row - 1) as i32 });
}

/// Law: the decimal text the library writes for a number reads back as that number: it
/// is made of decimal digits, their value is the number, and it starts with a zero only
/// when the number is zero.
pub proof fn lemma_decimal_reads_back(n: nat)
    ensures
        all_digits(decimal(n)),
        digits_value(decimal(n)) == n,
        decimal(n).len() >= 1,
        decimal(n)[0] == '0' ==> n == 0,
    decreases n,
{
    let k = n % 10;
    assert(('0' as u32) == 48);
    assert((decimal_digit(k) as u32) == 48 + k);
    if n < 10 {
        assert(decimal(n) == seq![decimal_digit(n)]);
        assert(decimal(n).drop_last() =~= Seq::<char>::empty());
        assert(digits_value(Seq::<char>::empty()) == 0);
        assert(k == n);
    } else {
        lemma_decimal_reads_back(n / 10);
        let d = decimal(n);
        assert(d.drop_last() =~= decimal(n / 10));
        vstd::arithmetic::div_mod::lemma_fundamental_div_mod(n as int, 10);
        assert(digits_value(d) == digits_value(decimal(n / 10)) * 10 + k);
        assert(d[0] == decimal(n / 10)[0]);
        assert forall|i: int| 0 <= i < d.len() implies is_decimal_digit(#[trigger] d[i]) by {
            if i < d.len() - 1 {
                assert(d[i] == decimal(n / 10)[i]);
            }
        }
    }
}

/// The number of cells in all the lines.
pub open spec fn cells_in(lines: Seq<Seq<ParsedCell>>) -> nat
    decreases lines.len(),
{
    if lines.len() == 0 { 0 } else { cells_in(lines.drop_last()) + lines.last().len() }
}

proof fn lemma_line_places_fit(line: Seq<ParsedCell>, col0: int, row: int, w: nat, h: nat)
    requires
        w < 0x4000_0000,
        h < 0x4000_0000,
        1 <= col0,
        col0 + line.len() - 1 <= w,
        1 <= row <= h,
    ensures
        line_places(line, col0, row, w, h) == Seq::new(
            line.len(),
            |j: int| (Coord { column: (col0 + j) as i32, row: row as i32 }, line[j]),
        ),
    decreases line.len(),
{
    let want = Seq::new(line.len(), |j: int| (Coord { column: (col0 + j) as i32, row: row as i32 }, line[j]));
    if line.len() > 0 {
        lemma_line_places_fit(line.drop_last(), col0, row, w, h);
        assert(((w as usize) as i32) as int == w);
        assert(((h as usize) as i32) as int == h);
        let c = Coord { column: (col0 + line.len() - 1) as i32, row: row as i32 };
        assert(on_canvas(c, w, h));
        assert(line_places(line, col0, row, w, h) =~= want);
    } else {
        assert(line_places(line, col0, row, w, h) =~= want);
    }
}

/// Law: text that fits on the canvas is laid out line by line from the top: character `j`
/// of line `i` is placed `j` columns right of the origin, on the row `i` below the text's
/// top row, and the places come in reading order, every cell of every line once.
pub proof fn lemma_text_placed_in_reading_order(
    lines: Seq<Seq<ParsedCell>>,
    origin: Coord,
    th: int,
    w: nat,
    h: nat,
    i: int,
    j: int,
)
    requires
        w < 0x4000_0000,
        h < 0x4000_0000,
        lines.len() <= th,
        1 <= origin.column,
        origin.column + max_line_len(lines) - 1 <= w,
        1 <= origin.row,
        origin.row + th - 1 <= h,
    ensures
        all_places(lines, origin, th, w, h).len() == cells_in(lines),
        0 <= i < lines.len() && 0 <= j < lines[i].len() ==> {
            let x = cells_in(lines.take(i)) + j;
            &&& x < cells_in(lines)
            &&& all_places(lines, origin, th, w, h)[x] == (
            Coord { column: (origin.column + j) as i32, row: (origin.row + th - 1 - i) as i32 },
            lines[i][j],
            )
        },
    decreases lines.len(),
{
    if lines.len() > 0 {
        let n = lines.len() - 1;
        let rest = lines.drop_last();
        assert(max_line_len(rest) <= max_line_len(lines));
        lemma_max_line_len_bound(lines, n);
        let row = origin.row + th - 1 - n;
        lemma_line_places_fit(lines.last(), origin.column as int, row, w, h);
        let a = all_places(rest, origin, th, w, h);
        let b = line_places(lines.last(), origin.column as int, row, w, h);
        if 0 <= i < n && 0 <= j < lines[i].len() {
            lemma_text_placed_in_reading_order(rest, origin, th, w, h, i, j);
            assert(rest.take(i) =~= lines.take(i));
            assert(rest[i] == lines[i]);
            let x = cells_in(lines.take(i)) + j;
            assert((a + b)[x] == a[x]);
        } else {
            lemma_text_placed_in_reading_order(rest, origin, th, w, h, 0, 0);
            if i == n && 0 <= j < lines[i].len() {
                assert(lines.take(i) =~= rest);
                let x = cells_in(lines.take(i)) + j;
                assert((a + b)[x] == b[j]);
            }
        }
    }
}

/// Law: parameters split at separators: a run of characters with no `;` or `:` in it is a
/// single field, and appending `;` and such a run to a body adds exactly that field after
/// the body's fields.
pub proof fn lemma_split_params_fields(body: Seq<char>, f: Seq<char>)
    requires
        forall|k: int| 0 <= k < f.len() ==> !is_param_separator(#[trigger] f[k]),
    ensures
        split_params(f) == seq![f],
        split_params(body.push(';') + f) == split_params(body).push(f),
    decreases f.len(),
{
    if f.len() == 0 {
        assert(f =~= Seq::<char>::empty());
        assert(split_params(f) =~= seq![f]);
        assert(body.push(';') + f =~= body.push(';'));
        assert(body.push(';').drop_last() =~= body);
    } else {
        let g = f.drop_last();
        assert forall|k: int| 0 <= k < g.len() implies !is_param_separator(#[trigger] g[k]) by {
            assert(g[k] == f[k]);
        }
        lemma_split_params_fields(body, g);
        assert(!is_param_separator(f[f.len() - 1]));
        assert(g.push(f.last()) =~= f);
        assert(seq![g].update(0, g.push(f.last())) =~= seq![f]);
        let t = body.push(';') + f;
        assert(t.drop_last() =~= body.push(';') + g);
        assert(t[t.len() - 1] == f[f.len() - 1]);
        assert(split_params(body).push(g).update(split_params(body).len() as int, g.push(f.last()))
            =~= split_params(body).push(f));
        lemma_split_params_nonempty(body);
    }
}

/// Law: a number's decimal text parses back to that number.
pub proof fn lemma_parse_decimal(n: nat)
    requires
        n <= i32::MAX,
    ensures
        parse_i32(decimal(n)) == Some(n as i32),
{
    lemma_decimal_reads_back(n);
    assert(is_decimal_digit(decimal(n)[0]));
}

} // verus!
