use vstd::prelude::*;

use crate::animation::{attribute_codes, formatted, visual_formatting, CharacterVisual};
use crate::geometry::Coord;
use crate::text::push_char;

verus! {

/// One drawable position of the canvas.
#[derive(Debug)]
pub struct Cell {
    pub visual: CharacterVisual,
}

impl Clone for Cell {
    fn clone(&self) -> (r: Self)
        ensures
            r == *self,
    {
        Cell { visual: self.visual.clone() }
    }
}

/// The look of an untouched cell: a plain space.
pub open spec fn is_blank_cell(c: Cell) -> bool {
    &&& c.visual.symbol@ == seq![' ']
    &&& !c.visual.bold && !c.visual.dim && !c.visual.italic && !c.visual.underline
    &&& !c.visual.blink && !c.visual.reverse && !c.visual.hidden && !c.visual.strike
    &&& c.visual.colors is None
    &&& c.visual.formatted_symbol@ == seq![' ']
}

impl Default for Cell {
    fn default() -> (c: Self)
        ensures
            is_blank_cell(c),
    {
        let c = Cell { visual: CharacterVisual::new(" ", None) };
        proof {
            reveal_strlit(" ");
            assert(crate::animation::attribute_codes(c.visual) =~= Seq::<char>::empty());
            assert(crate::animation::visual_formatting(c.visual) =~= Seq::<char>::empty());
            assert(c.visual.symbol@ =~= seq![' ']);
            assert(formatted(c.visual) =~= seq![' ']);
        }
        c
    }
}

/// `x / 2` rounded to the nearest integer, ties to even.
pub open spec fn half_round_even(x: int) -> int {
    let q = x / 2;
    if x % 2 == 0 { q } else if q % 2 == 0 { q } else { q + 1 }
}

/// A `width` x `height` grid of cells; columns run `left..=right`, rows `bottom..=top`
/// with row numbers growing upward.
#[derive(Clone, Debug)]
pub struct Canvas {
    pub width: usize,
    pub height: usize,
    pub left: i32,
    pub right: i32,
    pub top: i32,
    pub bottom: i32,
    pub cells: Vec<Cell>,
}

impl Canvas {
    /// The cells, row by row from the bottom row, each row left to right.
    pub open spec fn cells_view(&self) -> Seq<Cell> {
        self.cells@
    }

    /// The shape `new` gives: columns `1..=width` and rows `1..=height`, one cell each.
    pub open spec fn wf(&self) -> bool {
        &&& self.left == 1
        &&& self.bottom == 1
        &&& self.right == self.width as i32
        &&& self.top == self.height as i32
        &&& self.cells_view().len() == self.width * self.height
    }

    pub open spec fn spec_contains(&self, coord: Coord) -> bool {
        &&& self.left <= coord.column <= self.right
        &&& self.bottom <= coord.row <= self.top
        &&& self.width > 0
        &&& self.height > 0
    }

    /// Position of `coord` in the cell list.
    pub open spec fn spec_idx(&self, coord: Coord) -> int {
        (coord.row - self.bottom) * self.width + (coord.column - self.left)
    }

    /// The cell at `coord`, for a coordinate on the canvas.
    pub open spec fn cell_at(&self, coord: Coord) -> Cell {
        self.cells_view()[self.spec_idx(coord)]
    }

    /// A blank canvas; `width * height` must fit in memory.
    pub fn new(width: usize, height: usize) -> (c: Self)
        requires
            width * height <= usize::MAX,
        ensures
            c.wf(),
            c.width == width,
            c.height == height,
            forall|i: int| 0 <= i < c.cells_view().len() ==> is_blank_cell(#[trigger] c.cells_view()[i]),
            0 < width <= i32::MAX && 0 < height <= i32::MAX ==> canvas_text(c) == blank_lines(
                width as nat,
                height as nat,
            ),
    {
        let total = width * height;
        let mut cells: Vec<Cell> = Vec::new();
        while cells.len() < total
            invariant
                total == width * height,
                cells@.len() <= total,
                forall|i: int| 0 <= i < cells@.len() ==> is_blank_cell(#[trigger] cells@[i]),
            decreases total - cells.len(),
        {
            cells.push(Cell::default());
        }
        let c = Canvas {
            width,
            height,
            left: 1,
            right: width as i32,
            top: height as i32,
            bottom: 1,
            cells,
        };
        proof {
            if 0 < width <= i32::MAX && 0 < height <= i32::MAX {
                lemma_blank_canvas(c);
            }
        }
        c
    }

    /// The middle cell: each axis' midpoint rounded half to even.
    pub fn center(&self) -> (c: Coord)
        requires
            i32::MIN <= self.left + self.right <= i32::MAX,
            i32::MIN <= self.top + self.bottom <= i32::MAX,
        ensures
            c.column == half_round_even(self.left + self.right),
            c.row == half_round_even(self.top + self.bottom),
    {
        Coord {
            column: half_round_even_exec(self.left + self.right),
            row: half_round_even_exec(self.top + self.bottom),
        }
    }

    pub fn contains(&self, coord: Coord) -> (b: bool)
        ensures
            b == self.spec_contains(coord),
    {
        coord.column >= self.left && coord.column <= self.right && coord.row >= self.bottom
            && coord.row <= self.top && self.width > 0 && self.height > 0
    }

    fn idx(&self, coord: Coord) -> (i: Option<usize>)
        requires
            self.wf(),
        ensures
            i is Some <==> self.spec_contains(coord),
            i matches Some(k) ==> k == self.spec_idx(coord),
            self.spec_contains(coord) ==> 0 <= self.spec_idx(coord) < self.cells_view().len(),
    {
        if !self.contains(coord) {
            return None;
        }
        let x = (coord.column - self.left) as usize;
        let y = (coord.row - self.bottom) as usize;
        let n = self.cells.len();
        proof {
            assert(x < self.width);
            assert(y < self.height);
            assert(y * self.width + x < self.width * self.height) by (nonlinear_arith)
                requires x < self.width, y < self.height;
            assert(y * self.width <= y * self.width + x);
        }
        Some(y * self.width + x)
    }

    /// Resets every cell to a blank space.
    pub fn clear(&mut self)
        ensures
            final(self).width == old(self).width,
            final(self).height == old(self).height,
            final(self).left == old(self).left,
            final(self).right == old(self).right,
            final(self).top == old(self).top,
            final(self).bottom == old(self).bottom,
            final(self).cells_view().len() == old(self).cells_view().len(),
            forall|i: int| 0 <= i < final(self).cells_view().len() ==> is_blank_cell(#[trigger] final(self).cells_view()[i]),
            old(self).wf() ==> final(self).wf(),
            old(self).wf() && 0 < old(self).width <= i32::MAX && 0 < old(self).height <= i32::MAX ==> canvas_text(
                *final(self),
            ) == blank_lines(old(self).width as nat, old(self).height as nat),
    {
        let mut i: usize = 0;
        let ghost n = self.cells@.len();
        while i < self.cells.len()
            invariant
                self.cells@.len() == n,
                i <= n,
                self.width == old(self).width,
                self.height == old(self).height,
                self.left == old(self).left,
                self.right == old(self).right,
                self.top == old(self).top,
                self.bottom == old(self).bottom,
                n == old(self).cells@.len(),
                forall|j: int| 0 <= j < i ==> is_blank_cell(#[trigger] self.cells@[j]),
            decreases n - i,
        {
            self.cells.set(i, Cell::default());
            i += 1;
        }
        proof {
            if self.wf() && 0 < self.width <= i32::MAX && 0 < self.height <= i32::MAX {
                lemma_blank_canvas(*self);
            }
        }
    }

    /// Draws `visual` at `coord`; coordinates off the canvas are ignored.
    pub fn put(&mut self, coord: Coord, visual: CharacterVisual)
        requires
            old(self).wf(),
        ensures
            final(self).wf(),
            final(self).width == old(self).width,
            final(self).height == old(self).height,
            final(self).cells_view() == (if old(self).spec_contains(coord) {
                old(self).cells_view().update(old(self).spec_idx(coord), Cell { visual })
            } else {
                old(self).cells_view()
            }),
    {
        if let Some(idx) = self.idx(coord) {
            self.cells.set(idx, Cell { visual });
        }
    }

    /// The cell at `coord`, if it is on the canvas.
    pub fn get(&self, coord: Coord) -> (c: Option<&Cell>)
        requires
            self.wf(),
        ensures
            c == (if self.spec_contains(coord) { Some(&self.cell_at(coord)) } else { None }),
    {
        match self.idx(coord) {
            Some(idx) => Some(&self.cells[idx]),
            None => None,
        }
    }
}

impl Canvas {
    /// Mutable access to the cell at `coord`, if it is on the canvas.
    pub fn get_mut(&mut self, coord: Coord) -> (c: Option<&mut Cell>)
        requires
            old(self).wf(),
        ensures
            c is Some <==> old(self).spec_contains(coord),
            c matches Some(r) ==> *r == old(self).cell_at(coord),
            c matches Some(r) ==> final(self).cells_view() == old(self).cells_view().update(
                old(self).spec_idx(coord), *final(r)),
            c matches Some(r) ==> final(self).width == old(self).width && final(self).height == old(self).height
                && final(self).left == old(self).left && final(self).right == old(self).right
                && final(self).top == old(self).top && final(self).bottom == old(self).bottom,
            c is None ==> *final(self) == *old(self),
    {
        match self.idx(coord) {
            Some(idx) => Some(&mut self.cells[idx]),
            None => None,
        }
    }
}

/// What one position renders as: its cell's formatted symbol, or a space off the canvas.
pub open spec fn cell_text(c: Canvas, column: int, row: int) -> Seq<char> {
    let coord = Coord { column: column as i32, row: row as i32 };
    if c.spec_contains(coord) { formatted(c.cell_at(coord).visual) } else { seq![' '] }
}

/// Columns `from..=right` of `row`, left to right.
pub open spec fn row_text(c: Canvas, row: int, from: int) -> Seq<char>
    decreases c.right - from + 1,
{
    if from > c.right {
        Seq::empty()
    } else {
        cell_text(c, from, row) + row_text(c, row, from + 1)
    }
}

/// Rows `row` down to `bottom`, each followed by a newline.
pub open spec fn rows_text(c: Canvas, row: int) -> Seq<char>
    decreases row - c.bottom + 1,
{
    if row < c.bottom {
        Seq::empty()
    } else {
        row_text(c, row, c.left as int) + seq!['\n'] + rows_text(c, row - 1)
    }
}

/// The whole canvas as text: rows from the top down, one line each.
pub open spec fn canvas_text(c: Canvas) -> Seq<char> {
    if c.width == 0 || c.height == 0 { Seq::empty() } else { rows_text(c, c.top as int) }
}

impl Canvas {
    /// The canvas as text, top row first, each row ending in a newline.
    pub fn render(&self) -> (s: String)
        requires
            self.wf(),
        ensures
            s@ == canvas_text(*self),
    {
        let mut out = String::new();
        if self.width == 0 || self.height == 0 {
            return out;
        }
        let mut row: i64 = self.top as i64;
        while row >= self.bottom as i64
            invariant
                self.wf(),
                self.width > 0 && self.height > 0,
                row <= self.top,
                self.bottom - 1 <= row || row == self.top,
                out@ + rows_text(*self, row as int) == rows_text(*self, self.top as int),
            decreases row - self.bottom + 1,
        {
            let ghost before = out@;
            let mut column: i64 = self.left as i64;
            while column <= self.right as i64
                invariant
                    self.wf(),
                    self.bottom <= row <= self.top,
                    self.left <= column,
                    column <= self.right + 1 || column == self.left,
                    out@ + row_text(*self, row as int, column as int) == before + row_text(*self, row as int, self.left as int),
                decreases self.right - column + 1,
            {
                let ghost prev = out@;
                let coord = Coord { column: column as i32, row: row as i32 };
                match self.get(coord) {
                    Some(cell) => {
                        let f = cell.visual.format_symbol();
                        out.append(f.as_str());
                    },
                    None => {
                        push_char(&mut out, ' ');
                    },
                }
                proof {
                    assert(out@ == prev + cell_text(*self, column as int, row as int));
                    assert(row_text(*self, row as int, column as int) == cell_text(*self, column as int, row as int) + row_text(*self, row as int, column + 1));
                    assert(out@ + row_text(*self, row as int, column + 1) =~= prev + row_text(*self, row as int, column as int));
                }
                column += 1;
            }
            push_char(&mut out, '\n');
            proof {
                assert(row_text(*self, row as int, column as int) =~= Seq::<char>::empty());
                assert(rows_text(*self, row as int) == row_text(*self, row as int, self.left as int) + seq!['\n'] + rows_text(*self, row - 1));
                assert(out@ + rows_text(*self, row - 1) =~= before + rows_text(*self, row as int));
            }
            row -= 1;
        }
        proof {
            assert(rows_text(*self, row as int) =~= Seq::<char>::empty());
            assert(out@ =~= rows_text(*self, self.top as int));
        }
        out
    }
}

fn half_round_even_exec(x: i32) -> (h: i32)
    ensures
        h == half_round_even(x as int),
{
    let xi = x as i64;
    let q: i64 = if xi >= 0 { xi / 2 } else { -((-xi + 1) / 2) };
    let r: i64 = xi - 2 * q;
    proof {
        assert(0 <= r < 2);
        vstd::arithmetic::div_mod::lemma_fundamental_div_mod_converse_div(x as int, 2, q as int, r as int);
        vstd::arithmetic::div_mod::lemma_fundamental_div_mod_converse_mod(x as int, 2, q as int, r as int);
    }
    let odd_q = q - 2 * (if q >= 0 { q / 2 } else { -((-q + 1) / 2) });
    proof {
        let qq: int = if q >= 0 { q / 2 } else { -((-q + 1) / 2) };
        assert(0 <= odd_q < 2);
        vstd::arithmetic::div_mod::lemma_fundamental_div_mod_converse_mod(q as int, 2, qq, odd_q as int);
    }
    if r == 0 || odd_q == 0 {
        q as i32
    } else {
        (q + 1) as i32
    }
}

/// Law: distinct coordinates on a canvas occupy distinct cells, so what `put` writes
/// at one coordinate is what is read back there and every other coordinate reads
/// what it read before.
pub proof fn lemma_put_then_read(c: Canvas, coord: Coord, visual: CharacterVisual, other: Coord)
    requires
        c.wf(),
        c.spec_contains(coord),
        c.spec_contains(other),
    ensures
        ({
            let after = Canvas { cells: c.cells, ..c };
            let cells = c.cells_view().update(c.spec_idx(coord), Cell { visual });
            &&& 0 <= c.spec_idx(coord) < c.cells_view().len()
            &&& 0 <= c.spec_idx(other) < c.cells_view().len()
            &&& other != coord ==> c.spec_idx(other) != c.spec_idx(coord)
            &&& cells[c.spec_idx(coord)] == Cell { visual }
            &&& other != coord ==> cells[c.spec_idx(other)] == c.cell_at(other)
        }),
{
    let w = c.width as int;
    let i = c.spec_idx(coord);
    let j = c.spec_idx(other);
    let (r1, c1) = (coord.row - c.bottom, coord.column - c.left);
    let (r2, c2) = (other.row - c.bottom, other.column - c.left);
    assert(0 <= r1 < c.height && 0 <= c1 < w && 0 <= r2 < c.height && 0 <= c2 < w);
    assert(0 <= i < c.width * c.height) by (nonlinear_arith)
        requires i == r1 * w + c1, 0 <= r1 < c.height, 0 <= c1 < w, w == c.width;
    assert(0 <= j < c.width * c.height) by (nonlinear_arith)
        requires j == r2 * w + c2, 0 <= r2 < c.height, 0 <= c2 < w, w == c.width;
    if other != coord {
        assert(i != j) by (nonlinear_arith)
            requires i == r1 * w + c1, j == r2 * w + c2, 0 <= c1 < w, 0 <= c2 < w, r1 != r2 || c1 != c2;
    }
}

/// The cells after drawing `sprites` in order onto `cells`: each sprite on the canvas
/// replaces the cell at its coordinate.
pub open spec fn painted(c: Canvas, cells: Seq<Cell>, sprites: Seq<(Coord, CharacterVisual)>) -> Seq<Cell>
    decreases sprites.len(),
{
    if sprites.len() == 0 {
        cells
    } else {
        let before = painted(c, cells, sprites.drop_last());
        let (coord, visual) = sprites.last();
        if c.spec_contains(coord) {
            before.update(c.spec_idx(coord), Cell { visual })
        } else {
            before
        }
    }
}

impl Canvas {
    /// Clears the canvas, draws the sprites in order (later ones over earlier ones) and
    /// renders the result.
    pub fn compose(&mut self, sprites: &[(Coord, CharacterVisual)]) -> (s: String)
        requires
            old(self).wf(),
        ensures
            final(self).wf(),
            final(self).width == old(self).width,
            final(self).height == old(self).height,
            final(self).cells_view().len() == old(self).cells_view().len(),
            exists|cleared: Seq<Cell>|
                cleared.len() == old(self).cells_view().len() && (forall|i: int|
                    0 <= i < cleared.len() ==> is_blank_cell(#[trigger] cleared[i]))
                    && final(self).cells_view() == painted(*old(self), cleared, sprites@),
            s@ == canvas_text(*final(self)),
    {
        self.clear();
        let ghost cleared = self.cells_view();
        let mut i: usize = 0;
        while i < sprites.len()
            invariant
                self.wf(),
                i <= sprites@.len(),
                self.width == old(self).width,
                self.height == old(self).height,
                self.left == old(self).left,
                self.right == old(self).right,
                self.top == old(self).top,
                self.bottom == old(self).bottom,
                cleared.len() == old(self).cells_view().len(),
                forall|k: int| 0 <= k < cleared.len() ==> is_blank_cell(#[trigger] cleared[k]),
                self.cells_view() == painted(*old(self), cleared, sprites@.take(i as int)),
            decreases sprites.len() - i,
        {
            let coord = sprites[i].0;
            let visual = sprites[i].1.clone();
            self.put(coord, visual);
            proof {
                assert(sprites@.take(i + 1).drop_last() =~= sprites@.take(i as int));
                assert(sprites@.take(i + 1).last() == sprites@[i as int]);
                assert(old(self).spec_contains(coord) == self.spec_contains(coord));
            }
            i = i + 1;
        }
        proof {
            assert(sprites@.take(sprites@.len() as int) =~= sprites@);
        }
        self.render()
    }
}

/// The visual of the last sprite drawn at `at`, if any.
pub open spec fn last_at(sprites: Seq<(Coord, CharacterVisual)>, at: Coord) -> Option<CharacterVisual>
    decreases sprites.len(),
{
    if sprites.len() == 0 {
        None
    } else if sprites.last().0 == at {
        Some(sprites.last().1)
    } else {
        last_at(sprites.drop_last(), at)
    }
}

/// Law: after drawing sprites, a coordinate on the canvas shows the last sprite drawn at
/// it, or what it showed before when none was.
pub proof fn lemma_last_sprite_wins(c: Canvas, cells: Seq<Cell>, sprites: Seq<(Coord, CharacterVisual)>, at: Coord)
    requires
        c.wf(),
        cells.len() == c.cells_view().len(),
        c.spec_contains(at),
    ensures
        painted(c, cells, sprites).len() == cells.len(),
        painted(c, cells, sprites)[c.spec_idx(at)] == (match last_at(sprites, at) {
            Some(visual) => Cell { visual },
            None => cells[c.spec_idx(at)],
        }),
    decreases sprites.len(),
{
    lemma_put_then_read(c, at, vstd::pervasive::arbitrary(), at);
    if sprites.len() > 0 {
        lemma_last_sprite_wins(c, cells, sprites.drop_last(), at);
        let (coord, visual) = sprites.last();
        if c.spec_contains(coord) {
            lemma_put_then_read(c, coord, visual, at);
        }
    }
}

/// The text of the last sprite drawn at `at`, if any.
pub open spec fn last_text(sprites: Seq<(Coord, Seq<char>)>, at: Coord) -> Option<Seq<char>>
    decreases sprites.len(),
{
    if sprites.len() == 0 {
        None
    } else if sprites.last().0 == at {
        Some(sprites.last().1)
    } else {
        last_text(sprites.drop_last(), at)
    }
}

/// What position `(column, row)` of a picture shows: the last sprite drawn there, else a
/// space.
pub open spec fn picture_cell(sprites: Seq<(Coord, Seq<char>)>, column: int, row: int) -> Seq<char> {
    match last_text(sprites, Coord { column: column as i32, row: row as i32 }) {
        Some(t) => t,
        None => seq![' '],
    }
}

/// Columns `from..=width` of `row` of a picture.
pub open spec fn picture_row(sprites: Seq<(Coord, Seq<char>)>, width: int, row: int, from: int) -> Seq<char>
    decreases width - from + 1,
{
    if from > width { Seq::empty() } else { picture_cell(sprites, from, row) + picture_row(sprites, width, row, from + 1) }
}

/// Rows `row` down to 1 of a picture, each followed by a newline.
pub open spec fn picture_rows(sprites: Seq<(Coord, Seq<char>)>, width: int, row: int) -> Seq<char>
    decreases row,
{
    if row < 1 { Seq::empty() } else { picture_row(sprites, width, row, 1) + seq!['\n'] + picture_rows(sprites, width, row - 1) }
}

/// The text of a `width` x `height` picture (columns and rows numbered from 1, the top
/// row first) made of the sprites' texts drawn in order onto blank positions.
pub open spec fn picture(width: nat, height: nat, sprites: Seq<(Coord, Seq<char>)>) -> Seq<char> {
    if width == 0 || height == 0 { Seq::empty() } else { picture_rows(sprites, width as int, height as int) }
}

/// The sprites with each visual replaced by the text it formats to.
pub open spec fn sprite_texts(sprites: Seq<(Coord, CharacterVisual)>) -> Seq<(Coord, Seq<char>)> {
    sprites.map_values(|s: (Coord, CharacterVisual)| (s.0, formatted(s.1)))
}

proof fn lemma_last_text(sprites: Seq<(Coord, CharacterVisual)>, at: Coord)
    ensures
        last_text(sprite_texts(sprites), at) == (match last_at(sprites, at) {
            Some(v) => Some(formatted(v)),
            None => None,
        }),
    decreases sprites.len(),
{
    if sprites.len() > 0 {
        assert(sprite_texts(sprites).drop_last() =~= sprite_texts(sprites.drop_last()));
        lemma_last_text(sprites.drop_last(), at);
    }
}

proof fn lemma_blank_text(cell: Cell)
    requires
        is_blank_cell(cell),
    ensures
        formatted(cell.visual) == seq![' '],
{
    assert(attribute_codes(cell.visual) =~= Seq::<char>::empty());
    assert(visual_formatting(cell.visual) =~= Seq::<char>::empty());
}

proof fn lemma_cell_matches(c: Canvas, cells: Seq<Cell>, sprites: Seq<(Coord, CharacterVisual)>, shown: Canvas, column: int, row: int)
    requires
        c.wf(),
        shown.wf(),
        shown.width == c.width,
        shown.height == c.height,
        c.width < 0x4000_0000,
        c.height < 0x4000_0000,
        cells.len() == c.cells_view().len(),
        forall|i: int| 0 <= i < cells.len() ==> is_blank_cell(#[trigger] cells[i]),
        shown.cells_view() == painted(c, cells, sprites),
        1 <= column <= c.width,
        1 <= row <= c.height,
    ensures
        cell_text(shown, column, row) == picture_cell(sprite_texts(sprites), column, row),
{
    let at = Coord { column: column as i32, row: row as i32 };
    assert(c.spec_contains(at));
    assert(shown.spec_contains(at));
    assert(shown.spec_idx(at) == c.spec_idx(at));
    lemma_last_sprite_wins(c, cells, sprites, at);
    lemma_put_then_read(c, at, vstd::pervasive::arbitrary(), at);
    lemma_last_text(sprites, at);
    match last_at(sprites, at) {
        Some(v) => {},
        None => {
            lemma_blank_text(cells[c.spec_idx(at)]);
        },
    }
}

proof fn lemma_row_matches(c: Canvas, cells: Seq<Cell>, sprites: Seq<(Coord, CharacterVisual)>, shown: Canvas, row: int, from: int)
    requires
        c.wf(),
        shown.wf(),
        shown.width == c.width,
        shown.height == c.height,
        c.width < 0x4000_0000,
        c.height < 0x4000_0000,
        cells.len() == c.cells_view().len(),
        forall|i: int| 0 <= i < cells.len() ==> is_blank_cell(#[trigger] cells[i]),
        shown.cells_view() == painted(c, cells, sprites),
        1 <= row <= c.height,
        1 <= from,
    ensures
        row_text(shown, row, from) == picture_row(sprite_texts(sprites), c.width as int, row, from),
    decreases c.width - from + 1,
{
    if from <= c.width {
        lemma_row_matches(c, cells, sprites, shown, row, from + 1);
        lemma_cell_matches(c, cells, sprites, shown, from, row);
    }
}

proof fn lemma_rows_match(c: Canvas, cells: Seq<Cell>, sprites: Seq<(Coord, CharacterVisual)>, shown: Canvas, row: int)
    requires
        c.wf(),
        shown.wf(),
        shown.width == c.width,
        shown.height == c.height,
        c.width < 0x4000_0000,
        c.height < 0x4000_0000,
        cells.len() == c.cells_view().len(),
        forall|i: int| 0 <= i < cells.len() ==> is_blank_cell(#[trigger] cells[i]),
        shown.cells_view() == painted(c, cells, sprites),
        0 <= row <= c.height,
    ensures
        rows_text(shown, row) == picture_rows(sprite_texts(sprites), c.width as int, row),
    decreases row,
{
    if row >= 1 {
        lemma_rows_match(c, cells, sprites, shown, row - 1);
        lemma_row_matches(c, cells, sprites, shown, row, 1);
    }
}

/// Drawing sprites in order on a blank canvas and rendering it gives the picture of the
/// texts the sprites format to.
pub proof fn lemma_compose_picture(c: Canvas, cells: Seq<Cell>, sprites: Seq<(Coord, CharacterVisual)>, shown: Canvas)
    requires
        c.wf(),
        shown.wf(),
        shown.width == c.width,
        shown.height == c.height,
        c.width < 0x4000_0000,
        c.height < 0x4000_0000,
        cells.len() == c.cells_view().len(),
        forall|i: int| 0 <= i < cells.len() ==> is_blank_cell(#[trigger] cells[i]),
        shown.cells_view() == painted(c, cells, sprites),
    ensures
        canvas_text(shown) == picture(c.width as nat, c.height as nat, sprite_texts(sprites)),
{
    lemma_rows_match(c, cells, sprites, shown, c.height as int);
}


/// `height` lines of `width` spaces, each ending in a newline.
pub open spec fn blank_lines(width: nat, height: nat) -> Seq<char>
    decreases height,
{
    if height == 0 {
        Seq::empty()
    } else {
        Seq::new(width, |i: int| ' ') + seq!['\n'] + blank_lines(width, (height - 1) as nat)
    }
}

proof fn lemma_blank_row(c: Canvas, row: int, from: int)
    requires
        c.wf(),
        0 < c.width <= i32::MAX,
        0 < c.height <= i32::MAX,
        forall|i: int| 0 <= i < c.cells_view().len() ==> is_blank_cell(#[trigger] c.cells_view()[i]),
        1 <= row <= c.height,
        1 <= from <= c.width + 1,
    ensures
        row_text(c, row, from) == Seq::new((c.width - from + 1) as nat, |i: int| ' '),
    decreases c.width - from + 1,
{
    if from <= c.width {
        lemma_blank_row(c, row, from + 1);
        let at = Coord { column: from as i32, row: row as i32 };
        lemma_put_then_read(c, at, c.cell_at(at).visual, at);
        lemma_blank_text(c.cell_at(at));
        assert(row_text(c, row, from) =~= Seq::new((c.width - from + 1) as nat, |i: int| ' '));
    } else {
        assert(row_text(c, row, from) =~= Seq::new((c.width - from + 1) as nat, |i: int| ' '));
    }
}

proof fn lemma_blank_rows(c: Canvas, row: int)
    requires
        c.wf(),
        0 < c.width <= i32::MAX,
        0 < c.height <= i32::MAX,
        forall|i: int| 0 <= i < c.cells_view().len() ==> is_blank_cell(#[trigger] c.cells_view()[i]),
        0 <= row <= c.height,
    ensures
        rows_text(c, row) == blank_lines(c.width as nat, row as nat),
    decreases row,
{
    if row >= 1 {
        lemma_blank_rows(c, row - 1);
        lemma_blank_row(c, row, 1);
    }
}

/// Law: a canvas whose cells are all blank, as `new` and `clear` leave it, renders as
/// rows of spaces; so clearing a canvas twice renders the same as clearing it once.
pub proof fn lemma_blank_canvas(c: Canvas)
    requires
        c.wf(),
        0 < c.width <= i32::MAX,
        0 < c.height <= i32::MAX,
        forall|i: int| 0 <= i < c.cells_view().len() ==> is_blank_cell(#[trigger] c.cells_view()[i]),
    ensures
        canvas_text(c) == blank_lines(c.width as nat, c.height as nat),
{
    lemma_blank_rows(c, c.height as int);
}

/// A change a canvas can undergo: a `put` or a `clear`.
pub enum CanvasEdit {
    Put(Coord, CharacterVisual),
    Clear,
}

/// `after` is `before` changed by `edit`, as `put` and `clear` promise.
pub open spec fn edited(before: Canvas, edit: CanvasEdit, after: Canvas) -> bool {
    match edit {
        CanvasEdit::Put(coord, visual) => {
            &&& after.wf()
            &&& after.width == before.width
            &&& after.height == before.height
            &&& after.cells_view() == (if before.spec_contains(coord) {
                before.cells_view().update(before.spec_idx(coord), Cell { visual })
            } else {
                before.cells_view()
            })
        },
        CanvasEdit::Clear => {
            &&& after.width == before.width
            &&& after.height == before.height
            &&& after.left == before.left
            &&& after.right == before.right
            &&& after.top == before.top
            &&& after.bottom == before.bottom
            &&& after.cells_view().len() == before.cells_view().len()
            &&& forall|i: int| 0 <= i < after.cells_view().len() ==> is_blank_cell(#[trigger] after.cells_view()[i])
        },
    }
}

/// The visual last put at `at` since the last clear, if any.
pub open spec fn last_put(edits: Seq<CanvasEdit>, at: Coord) -> Option<CharacterVisual>
    decreases edits.len(),
{
    if edits.len() == 0 {
        None
    } else {
        match edits.last() {
            CanvasEdit::Clear => None,
            CanvasEdit::Put(coord, visual) => if coord == at {
                Some(visual)
            } else {
                last_put(edits.drop_last(), at)
            },
        }
    }
}

/// Law: after a history of puts and clears on a blank canvas, what `get` finds at a
/// coordinate on the canvas is the visual last put there since the last clear, or a
/// blank cell when there is none; the canvas keeps its shape.
pub proof fn lemma_get_after_edits(states: Seq<Canvas>, edits: Seq<CanvasEdit>, at: Coord)
    requires
        states.len() == edits.len() + 1,
        states[0].wf(),
        forall|i: int| 0 <= i < states[0].cells_view().len() ==> is_blank_cell(#[trigger] states[0].cells_view()[i]),
        forall|i: int| 0 <= i < edits.len() ==> edited(#[trigger] states[i], edits[i], states[i + 1]),
    ensures
        states.last().wf(),
        states.last().width == states[0].width,
        states.last().height == states[0].height,
        states.last().spec_contains(at) == states[0].spec_contains(at),
        states.last().spec_contains(at) ==> match last_put(edits, at) {
            Some(v) => states.last().cell_at(at) == Cell { visual: v },
            None => is_blank_cell(states.last().cell_at(at)),
        },
    decreases edits.len(),
{
    if edits.len() > 0 {
        let n = edits.len() - 1;
        let prev = states.drop_last();
        assert forall|i: int| 0 <= i < edits.drop_last().len() implies edited(
            #[trigger] prev[i],
            edits.drop_last()[i],
            prev[i + 1],
        ) by {
            assert(edited(states[i], edits[i], states[i + 1]));
        }
        lemma_get_after_edits(prev, edits.drop_last(), at);
        let before = states[n];
        let after = states[n + 1];
        assert(edited(before, edits[n], after));
        assert(prev.last() == before);
        match edits[n] {
            CanvasEdit::Put(coord, visual) => {
                if before.spec_contains(at) && before.spec_contains(coord) {
                    lemma_put_then_read(before, coord, visual, at);
                }
            },
            CanvasEdit::Clear => {
                if before.spec_contains(at) {
                    lemma_put_then_read(before, at, before.cell_at(at).visual, at);
                    assert(after.spec_idx(at) == before.spec_idx(at));
                }
            },
        }
    } else {
        if states[0].spec_contains(at) {
            lemma_put_then_read(states[0], at, states[0].cell_at(at).visual, at);
        }
    }
}
} // verus!
