//! Pour: the text pours into place from one side. The character grid, the pouring order
//! and the color options are read here; the movement itself is floating point.
use vstd::prelude::*;

use crate::graphics::{from_hex_splits_char, hex_body, parse_hex_color, Color};
use crate::terminal::{parse_i32, parse_i32_chars};
use crate::text::{chars_of, same_chars, strip_leading_chars, trim_chars};

verus! {

/// `s` parsed as a `u16` the way `str::parse::<u16>` does: an optional `+`, at least one
/// decimal digit, nothing else, and a value in range.
pub open spec fn parse_u16(s: Seq<char>) -> Option<u16> {
    if s.len() > 0 && s[0] == '-' {
        None
    } else {
        match parse_i32(s) {
            Some(v) => if 0 <= v <= 0xffff { Some(v as u16) } else { None },
            None => None,
        }
    }
}

/// A color option: `#rgb` or `#rrggbb` as a hex color, else a decimal gray level up to
/// 255, else white.
pub open spec fn pour_color(raw: Seq<char>) -> (u8, u8, u8) {
    match parse_hex_color(raw) {
        Some(c) => (c.r, c.g, c.b),
        None => match parse_u16(hex_body(raw)) {
            Some(n) => if n <= 255 { (n as u8, n as u8, n as u8) } else { (255u8, 255u8, 255u8) },
            None => (255u8, 255u8, 255u8),
        },
    }
}

/// Reads a color option (see `pour_color`).
pub fn parse_hex(raw: &str) -> (rgb: (u8, u8, u8))
    requires
        !from_hex_splits_char(raw@),
    ensures
        rgb == pour_color(raw@),
{
    match Color::from_hex(raw) {
        Some(c) => (c.r, c.g, c.b),
        None => {
            let chars = chars_of(raw);
            let t = trim_chars(&chars);
            let body = strip_leading_chars(&t, '#');
            if body.len() > 0 && body[0] == '-' {
                return (255, 255, 255);
            }
            match parse_i32_chars(body.as_slice()) {
                Some(v) => if 0 <= v && v <= 255 {
                    (v as u8, v as u8, v as u8)
                } else {
                    (255, 255, 255)
                },
                None => (255, 255, 255),
            }
        },
    }
}


/// The pieces of `s` between `'\n'` separators, as `str::split('\n')` gives them (always
/// at least one).
pub open spec fn split_lines(s: Seq<char>) -> Seq<Seq<char>>
    decreases s.len(),
{
    if s.len() == 0 {
        seq![Seq::empty()]
    } else {
        let before = split_lines(s.drop_last());
        if s.last() == '\n' {
            before.push(Seq::empty())
        } else {
            before.update(before.len() - 1, before.last().push(s.last()))
        }
    }
}

/// `line` without one trailing carriage return.
pub open spec fn strip_cr(line: Seq<char>) -> Seq<char> {
    if line.len() > 0 && line.last() == '\r' { line.drop_last() } else { line }
}

/// `line` with each tab replaced by spaces up to the next multiple of four columns.
pub open spec fn expand_tabs(line: Seq<char>) -> Seq<char>
    decreases line.len(),
{
    if line.len() == 0 {
        Seq::empty()
    } else {
        let before = expand_tabs(line.drop_last());
        if line.last() == '\t' {
            before + Seq::new((4 - before.len() % 4) as nat, |i: int| ' ')
        } else {
            before.push(line.last())
        }
    }
}

/// The character grid of the input: its lines (a final newline ends the last line
/// rather than starting an empty one), each without a trailing carriage return and with
/// its tabs expanded.
pub open spec fn pour_grid(s: Seq<char>) -> Seq<Seq<char>> {
    let rows = split_lines(s).map_values(|l: Seq<char>| expand_tabs(strip_cr(l)));
    if s.len() > 0 && s.last() == '\n' && rows.last().len() == 0 {
        rows.drop_last()
    } else {
        rows
    }
}

proof fn lemma_split_lines_nonempty(s: Seq<char>)
    ensures
        split_lines(s).len() >= 1,
        split_lines(s).len() <= s.len() + 1,
    decreases s.len(),
{
    if s.len() > 0 {
        lemma_split_lines_nonempty(s.drop_last());
    }
}

proof fn lemma_expand_tabs_len(line: Seq<char>)
    ensures
        expand_tabs(line).len() <= 4 * line.len(),
    decreases line.len(),
{
    if line.len() > 0 {
        lemma_expand_tabs_len(line.drop_last());
    }
}

/// `line` with its trailing carriage return dropped and its tabs expanded.
fn clean_line(line: &Vec<char>) -> (out: Vec<char>)
    requires
        4 * line@.len() <= usize::MAX,
    ensures
        out@ == expand_tabs(strip_cr(line@)),
{
    let mut end = line.len();
    if end > 0 && line[end - 1] == '\r' {
        end = end - 1;
    }
    let ghost src = strip_cr(line@);
    proof {
        assert(src =~= line@.take(end as int));
    }
    let mut out: Vec<char> = Vec::new();
    let mut i: usize = 0;
    while i < end
        invariant
            end <= line@.len(),
            4 * line@.len() <= usize::MAX,
            src =~= line@.take(end as int),
            i <= end,
            out@ == expand_tabs(src.take(i as int)),
        decreases end - i,
    {
        proof {
            assert(src.take(i + 1).drop_last() =~= src.take(i as int));
            lemma_expand_tabs_len(src.take(i as int));
        }
        let c = line[i];
        if c == '\t' {
            let pad = 4 - out.len() % 4;
            let ghost before = out@;
            let mut k: usize = 0;
            while k < pad
                invariant
                    pad == 4 - before.len() % 4,
                    out@.len() + pad - k <= usize::MAX,
                    k <= pad,
                    out@ =~= before + Seq::new(k as nat, |j: int| ' '),
                decreases pad - k,
            {
                out.push(' ');
                k = k + 1;
            }
        } else {
            out.push(c);
        }
        i = i + 1;
    }
    proof {
        assert(src.take(end as int) =~= src);
    }
    out
}

/// The character grid of the input (see `pour_grid`).
pub fn parse_input(input: &str) -> (grid: Vec<Vec<char>>)
    requires
        4 * input@.len() <= usize::MAX,
    ensures
        grid@.map_values(|r: Vec<char>| r@) == pour_grid(input@),
{
    let chars = chars_of(input);
    let n = chars.len();
    let mut pieces: Vec<Vec<char>> = Vec::new();
    let mut current: Vec<char> = Vec::new();
    let mut i: usize = 0;
    while i < n
        invariant
            chars@ == input@,
            n == chars@.len(),
            i <= n,
            current@.len() <= i,
            pieces@.map_values(|r: Vec<char>| r@).push(current@) == split_lines(chars@.take(i as int)),
        decreases n - i,
    {
        let ghost prev = chars@.take(i as int);
        proof {
            assert(chars@.take(i + 1).drop_last() =~= prev);
        }
        if chars[i] == '\n' {
            let done = current;
            pieces.push(done);
            current = Vec::new();
            proof {
                assert(pieces@.map_values(|r: Vec<char>| r@).push(current@) =~= split_lines(prev).push(Seq::empty()));
            }
        } else {
            current.push(chars[i]);
            proof {
                let before = split_lines(prev);
                assert(pieces@.map_values(|r: Vec<char>| r@).push(current@) =~= before.update(before.len() - 1, before.last().push(chars@[i as int])));
            }
        }
        i = i + 1;
    }
    pieces.push(current);
    proof {
        assert(chars@.take(n as int) =~= chars@);
        assert(pieces@.map_values(|r: Vec<char>| r@) =~= split_lines(input@));
        lemma_split_lines_nonempty(input@);
        assert(pieces@.len() == pieces@.map_values(|r: Vec<char>| r@).len());
    }
    let ghost lines = split_lines(input@);
    let mut grid: Vec<Vec<char>> = Vec::new();
    let mut j: usize = 0;
    while j < pieces.len()
        invariant
            pieces@.map_values(|r: Vec<char>| r@) == lines,
            lines == split_lines(input@),
            pieces@.len() == lines.len(),
            lines.len() >= 1,
            4 * input@.len() <= usize::MAX,
            j <= pieces@.len(),
            grid@.map_values(|r: Vec<char>| r@) =~= lines.take(j as int).map_values(|l: Seq<char>| expand_tabs(strip_cr(l))),
        decreases pieces.len() - j,
    {
        proof {
            lemma_piece_short(input@, j as int);
            assert(pieces@.map_values(|r: Vec<char>| r@)[j as int] == pieces@[j as int]@);
        }
        let row = clean_line(&pieces[j]);
        let ghost before = grid@;
        grid.push(row);
        proof {
            assert(lines.take(j + 1) =~= lines.take(j as int).push(lines[j as int]));
            assert(grid@.map_values(|r: Vec<char>| r@) =~= before.map_values(|r: Vec<char>| r@).push(row@));
        }
        j = j + 1;
    }
    proof {
        assert(lines.take(pieces@.len() as int) =~= lines);
    }
    let ends_with_newline = n > 0 && chars[n - 1] == '\n';
    if ends_with_newline && grid.len() > 0 && grid[grid.len() - 1].len() == 0 {
        grid.pop();
        proof {
            assert(grid@.map_values(|r: Vec<char>| r@) =~= pour_grid(input@));
        }
    }
    grid
}

proof fn lemma_piece_short(s: Seq<char>, j: int)
    requires
        0 <= j < split_lines(s).len(),
    ensures
        split_lines(s)[j].len() <= s.len(),
    decreases s.len(),
{
    if s.len() > 0 {
        let before = split_lines(s.drop_last());
        lemma_split_lines_nonempty(s.drop_last());
        if s.last() == '\n' {
            if j < before.len() {
                lemma_piece_short(s.drop_last(), j);
            }
        } else if j < before.len() - 1 {
            lemma_piece_short(s.drop_last(), j);
        } else {
            lemma_piece_short(s.drop_last(), before.len() - 1);
        }
    }
}

/// The length of each row of the grid.
pub open spec fn row_lens(grid: Seq<Vec<char>>) -> Seq<int> {
    grid.map_values(|r: Vec<char>| r@.len() as int)
}

/// The sum of the lengths.
pub open spec fn total_len(lens: Seq<int>) -> int
    decreases lens.len(),
{
    if lens.len() == 0 { 0 } else { total_len(lens.drop_last()) + lens.last() }
}

/// The position of the first character of row `r` when the rows are laid end to end.
pub open spec fn row_start(lens: Seq<int>, r: int) -> int {
    total_len(lens.take(r))
}

/// The positions of row `r`'s characters in the first `cols` columns, left to right.
pub open spec fn row_cells(lens: Seq<int>, cols: int, r: int) -> Seq<int> {
    let n = if cols < lens[r] { cols } else { lens[r] };
    Seq::new(n as nat, |c: int| row_start(lens, r) + c)
}

/// The positions of column `c`'s characters in the first `k` rows, top row first.
pub open spec fn column_cells(lens: Seq<int>, k: int, c: int) -> Seq<int>
    decreases k,
{
    if k <= 0 {
        Seq::empty()
    } else {
        let before = column_cells(lens, k - 1, c);
        if c < lens[k - 1] { before.push(row_start(lens, k - 1) + c) } else { before }
    }
}

/// The groups that are not empty, in order.
pub open spec fn nonempty_groups(gs: Seq<Seq<int>>) -> Seq<Seq<int>>
    decreases gs.len(),
{
    if gs.len() == 0 {
        Seq::empty()
    } else {
        let before = nonempty_groups(gs.drop_last());
        if gs.last().len() > 0 { before.push(gs.last()) } else { before }
    }
}

/// The order the characters pour in, group by group: whole rows from the bottom row up
/// (`"up"`), whole columns from the left (`"left"`) or from the right (`"right"`), and
/// otherwise whole rows from the top down; empty groups are skipped.
pub open spec fn pour_groups(direction: Seq<char>, rows: int, cols: int, lens: Seq<int>) -> Seq<Seq<int>> {
    if direction == "up"@ {
        nonempty_groups(Seq::new(rows as nat, |i: int| row_cells(lens, cols, rows - 1 - i)))
    } else if direction == "left"@ {
        nonempty_groups(Seq::new(cols as nat, |i: int| column_cells(lens, rows, i)))
    } else if direction == "right"@ {
        nonempty_groups(Seq::new(cols as nat, |i: int| column_cells(lens, rows, cols - 1 - i)))
    } else {
        nonempty_groups(Seq::new(rows as nat, |i: int| row_cells(lens, cols, i)))
    }
}

/// The groups as sequences of integers.
pub open spec fn group_ints(groups: Seq<Vec<usize>>) -> Seq<Seq<int>> {
    groups.map_values(|g: Vec<usize>| g@.map_values(|x: usize| x as int))
}

proof fn lemma_row_start_step(lens: Seq<int>, r: int)
    requires
        0 <= r < lens.len(),
    ensures
        row_start(lens, r + 1) == row_start(lens, r) + lens[r],
{
    assert(lens.take(r + 1).drop_last() =~= lens.take(r));
}

proof fn lemma_row_start_bound(lens: Seq<int>, r: int)
    requires
        0 <= r <= lens.len(),
        forall|i: int| 0 <= i < lens.len() ==> lens[i] >= 0,
    ensures
        0 <= row_start(lens, r) <= total_len(lens),
    decreases lens.len() - r,
{
    if r == lens.len() {
        assert(lens.take(r) =~= lens);
        lemma_total_nonneg(lens);
    } else {
        lemma_row_start_bound(lens, r + 1);
        lemma_row_start_step(lens, r);
        lemma_total_nonneg(lens.take(r));
    }
}

proof fn lemma_total_nonneg(lens: Seq<int>)
    requires
        forall|i: int| 0 <= i < lens.len() ==> lens[i] >= 0,
    ensures
        total_len(lens) >= 0,
    decreases lens.len(),
{
    if lens.len() > 0 {
        lemma_total_nonneg(lens.drop_last());
    }
}

proof fn lemma_nonempty_step(f: spec_fn(int) -> Seq<int>, i: int)
    requires
        0 <= i,
    ensures
        nonempty_groups(Seq::new((i + 1) as nat, f)) == (if f(i).len() > 0 {
            nonempty_groups(Seq::new(i as nat, f)).push(f(i))
        } else {
            nonempty_groups(Seq::new(i as nat, f))
        }),
{
    assert(Seq::new((i + 1) as nat, f).drop_last() =~= Seq::new(i as nat, f));
}

/// The positions of row `r`'s characters among the first `cols` columns.
fn row_group(grid: &[Vec<char>], offsets: &Vec<usize>, cols: usize, r: usize) -> (g: Vec<usize>)
    requires
        r < offsets@.len(),
        offsets@.len() <= grid@.len(),
        total_len(row_lens(grid@)) <= usize::MAX,
        forall|k: int| 0 <= k < offsets@.len() ==> offsets@[k] == row_start(row_lens(grid@), k),
    ensures
        g@.map_values(|x: usize| x as int) == row_cells(row_lens(grid@), cols as int, r as int),
{
    let ghost lens = row_lens(grid@);
    let len = grid[r].len();
    let n = if cols < len { cols } else { len };
    proof {
        assert(lens[r as int] == len);
        assert forall|i: int| 0 <= i < lens.len() implies lens[i] >= 0 by {}
        lemma_row_start_bound(lens, r as int + 1);
        lemma_row_start_step(lens, r as int);
    }
    let mut g: Vec<usize> = Vec::new();
    let mut c: usize = 0;
    while c < n
        invariant
            n <= len,
            len == lens[r as int],
            offsets@[r as int] == row_start(lens, r as int),
            offsets@[r as int] + len <= usize::MAX,
            r < offsets@.len(),
            c <= n,
            g@.map_values(|x: usize| x as int) =~= Seq::new(c as nat, |k: int| row_start(lens, r as int) + k),
        decreases n - c,
    {
        let ghost before = g@;
        g.push(offsets[r] + c);
        proof {
            assert(g@.map_values(|x: usize| x as int) =~= before.map_values(|x: usize| x as int).push(row_start(lens, r as int) + c));
        }
        c = c + 1;
    }
    g
}

/// The positions of column `c`'s characters among the first `rows` rows.
fn column_group(grid: &[Vec<char>], offsets: &Vec<usize>, rows: usize, c: usize) -> (g: Vec<usize>)
    requires
        rows == offsets@.len(),
        offsets@.len() <= grid@.len(),
        total_len(row_lens(grid@)) <= usize::MAX,
        forall|k: int| 0 <= k < offsets@.len() ==> offsets@[k] == row_start(row_lens(grid@), k),
    ensures
        g@.map_values(|x: usize| x as int) == column_cells(row_lens(grid@), rows as int, c as int),
{
    let ghost lens = row_lens(grid@);
    proof {
        assert forall|i: int| 0 <= i < lens.len() implies lens[i] >= 0 by {}
    }
    let mut g: Vec<usize> = Vec::new();
    let mut r: usize = 0;
    while r < rows
        invariant
            rows == offsets@.len(),
            offsets@.len() <= grid@.len(),
            lens == row_lens(grid@),
            total_len(lens) <= usize::MAX,
            forall|i: int| 0 <= i < lens.len() ==> lens[i] >= 0,
            forall|k: int| 0 <= k < offsets@.len() ==> offsets@[k] == row_start(lens, k),
            r <= rows,
            g@.map_values(|x: usize| x as int) =~= column_cells(lens, r as int, c as int),
        decreases rows - r,
    {
        let ghost before = g@;
        if c < grid[r].len() {
            proof {
                assert(lens[r as int] == grid@[r as int]@.len());
                lemma_row_start_bound(lens, r as int + 1);
                lemma_row_start_step(lens, r as int);
            }
            g.push(offsets[r] + c);
            proof {
                assert(g@.map_values(|x: usize| x as int) =~= before.map_values(|x: usize| x as int).push(offsets@[r as int] + c));
            }
        }
        r = r + 1;
    }
    g
}

/// The pouring order (see `pour_groups`) for the first `rows` rows of the grid.
pub fn build_groups(direction: &str, rows: usize, cols: usize, grid: &[Vec<char>]) -> (groups: Vec<Vec<usize>>)
    requires
        rows <= grid@.len(),
        total_len(row_lens(grid@)) <= usize::MAX,
    ensures
        group_ints(groups@) == pour_groups(direction@, rows as int, cols as int, row_lens(grid@)),
{
    let ghost lens = row_lens(grid@);
    proof {
        assert forall|i: int| 0 <= i < lens.len() implies lens[i] >= 0 by {}
    }
    let mut offsets: Vec<usize> = Vec::new();
    let mut acc: usize = 0;
    while offsets.len() < rows
        invariant
            rows <= grid@.len(),
            lens == row_lens(grid@),
            total_len(lens) <= usize::MAX,
            forall|i: int| 0 <= i < lens.len() ==> lens[i] >= 0,
            offsets@.len() <= rows,
            acc == row_start(lens, offsets@.len() as int),
            forall|k: int| 0 <= k < offsets@.len() ==> offsets@[k] == row_start(lens, k),
        decreases rows - offsets.len(),
    {
        let r = offsets.len();
        proof {
            assert(lens[r as int] == grid@[r as int]@.len());
            lemma_row_start_step(lens, r as int);
            lemma_row_start_bound(lens, r as int + 1);
        }
        offsets.push(acc);
        acc = acc + grid[r].len();
    }
    let d = chars_of(direction);
    let up = same_chars(&d, "up");
    let left = same_chars(&d, "left");
    let right = same_chars(&d, "right");
    let by_rows = up || !(left || right);
    let count = if by_rows { rows } else { cols };
    let ghost f: spec_fn(int) -> Seq<int> = if up {
        |i: int| row_cells(lens, cols as int, rows - 1 - i)
    } else if left {
        |i: int| column_cells(lens, rows as int, i)
    } else if right {
        |i: int| column_cells(lens, rows as int, cols - 1 - i)
    } else {
        |i: int| row_cells(lens, cols as int, i)
    };
    proof {
        assert(pour_groups(direction@, rows as int, cols as int, lens) == nonempty_groups(Seq::new(count as nat, f)));
    }
    let mut groups: Vec<Vec<usize>> = Vec::new();
    let mut i: usize = 0;
    while i < count
        invariant
            rows == offsets@.len(),
            rows <= grid@.len(),
            lens == row_lens(grid@),
            total_len(lens) <= usize::MAX,
            forall|k: int| 0 <= k < offsets@.len() ==> offsets@[k] == row_start(lens, k),
            by_rows == (up || !(left || right)),
            count == (if by_rows { rows } else { cols }),
            f == (if up {
                |i: int| row_cells(lens, cols as int, rows - 1 - i)
            } else if left {
                |i: int| column_cells(lens, rows as int, i)
            } else if right {
                |i: int| column_cells(lens, rows as int, cols - 1 - i)
            } else {
                |i: int| row_cells(lens, cols as int, i)
            }),
            i <= count,
            group_ints(groups@) =~= nonempty_groups(Seq::new(i as nat, f)),
        decreases count - i,
    {
        let g = if up {
            row_group(grid, &offsets, cols, rows - 1 - i)
        } else if left {
            column_group(grid, &offsets, rows, i)
        } else if right {
            column_group(grid, &offsets, rows, cols - 1 - i)
        } else {
            row_group(grid, &offsets, cols, i)
        };
        proof {
            lemma_nonempty_step(f, i as int);
            assert(g@.map_values(|x: usize| x as int) == f(i as int));
        }
        let ghost before = groups@;
        if g.len() > 0 {
            groups.push(g);
            proof {
                assert(group_ints(groups@) =~= group_ints(before).push(f(i as int)));
            }
        }
        i = i + 1;
    }
    groups
}

/// The groups laid end to end.
pub open spec fn joined(gs: Seq<Seq<int>>) -> Seq<int>
    decreases gs.len(),
{
    if gs.len() == 0 { Seq::empty() } else { joined(gs.drop_last()) + gs.last() }
}

proof fn lemma_rows_joined(lens: Seq<int>, cols: int, k: int)
    requires
        0 <= k <= lens.len(),
        forall|i: int| 0 <= i < lens.len() ==> 0 <= #[trigger] lens[i] <= cols,
    ensures
        joined(nonempty_groups(Seq::new(k as nat, |i: int| row_cells(lens, cols, i))))
            == Seq::new(row_start(lens, k) as nat, |p: int| p),
    decreases k,
{
    let f = |i: int| row_cells(lens, cols, i);
    if k == 0 {
        assert(nonempty_groups(Seq::new(0, f)) =~= Seq::empty());
        assert(lens.take(0) =~= Seq::<int>::empty());
        assert(Seq::new(row_start(lens, 0) as nat, |p: int| p) =~= Seq::<int>::empty());
    } else {
        lemma_rows_joined(lens, cols, k - 1);
        lemma_nonempty_step(f, k - 1);
        lemma_row_start_step(lens, k - 1);
        assert forall|i: int| 0 <= i < lens.len() implies lens[i] >= 0 by {}
        lemma_row_start_bound(lens, k - 1);
        let start = row_start(lens, k - 1);
        if f(k - 1).len() > 0 {
            let before = nonempty_groups(Seq::new((k - 1) as nat, f));
            assert(before.push(f(k - 1)).drop_last() =~= before);
            assert(Seq::new(start as nat, |p: int| p) + f(k - 1) =~= Seq::new(row_start(lens, k) as nat, |p: int| p));
        } else {
            assert(lens[k - 1] == 0);
        }
    }
}

/// Law: when the text pours down (any direction but up, left or right) every character
/// of the grid pours exactly once, in reading order.
pub proof fn lemma_pour_down_covers_grid(direction: Seq<char>, grid: Seq<Vec<char>>, cols: int)
    requires
        direction != "up"@,
        direction != "left"@,
        direction != "right"@,
        forall|i: int| 0 <= i < grid.len() ==> #[trigger] grid[i]@.len() <= cols,
    ensures
        joined(pour_groups(direction, grid.len() as int, cols, row_lens(grid)))
            == Seq::new(total_len(row_lens(grid)) as nat, |p: int| p),
{
    let lens = row_lens(grid);
    assert forall|i: int| 0 <= i < lens.len() implies 0 <= #[trigger] lens[i] <= cols by {
        assert(lens[i] == grid[i]@.len());
    }
    lemma_rows_joined(lens, cols, lens.len() as int);
    assert(lens.take(lens.len() as int) =~= lens);
}

} // verus!
