use vstd::prelude::*;

verus! {

/// A cell position on the canvas: `column` grows to the right, `row` grows upward.
#[derive(Clone, Copy, Debug, Default, PartialEq, Eq, Hash, Structural)]
pub struct Coord {
    pub column: i32,
    pub row: i32,
}

impl Coord {
    pub fn new(column: i32, row: i32) -> (c: Self)
        ensures
            c.column == column,
            c.row == row,
    {
        Coord { column, row }
    }
}

pub open spec fn abs(x: int) -> int {
    if x < 0 { -x } else { x }
}

pub open spec fn sign_toward(from: int, to: int) -> int {
    if from < to { 1 } else { -1 }
}

/// Bresenham error term at point `p` of the line from `start` to `end`: the scaled
/// signed distance between `p` and the ideal line, as the classic all-octant walk keeps it.
pub open spec fn line_error(start: Coord, end: Coord, p: Coord) -> int {
    let dx = abs(end.column - start.column);
    let dy = abs(end.row - start.row);
    let kx = abs(p.column - start.column);
    let ky = abs(p.row - start.row);
    dx - dy - kx * dy + ky * dx
}

/// The point that follows `p` on the Bresenham line from `start` to `end`.
pub open spec fn line_next(start: Coord, end: Coord, p: Coord) -> Coord {
    let dx = abs(end.column - start.column);
    let dy = abs(end.row - start.row);
    let e2 = 2 * line_error(start, end, p);
    let col = if e2 > -dy { p.column + sign_toward(start.column as int, end.column as int) } else { p.column as int };
    let row = if e2 < dx { p.row + sign_toward(start.row as int, end.row as int) } else { p.row as int };
    Coord { column: col as i32, row: row as i32 }
}

/// The line's extent is small enough that the error term fits an `i32`.
pub open spec fn line_fits(start: Coord, end: Coord) -> bool {
    &&& abs(end.column - start.column) < 0x2000_0000
    &&& abs(end.row - start.row) < 0x2000_0000
}

/// The walk stays between the two ends, moving toward `end`, with a bounded error term.
pub open spec fn line_invariant(start: Coord, end: Coord, p: Coord) -> bool {
    let dx = abs(end.column - start.column);
    let dy = abs(end.row - start.row);
    let kx = abs(p.column - start.column);
    let ky = abs(p.row - start.row);
    &&& 0 <= kx <= dx
    &&& 0 <= ky <= dy
    &&& p.column - start.column == kx * sign_toward(start.column as int, end.column as int)
    &&& p.row - start.row == ky * sign_toward(start.row as int, end.row as int)
    &&& -2 * dy <= line_error(start, end, p) <= 2 * dx
}

proof fn lemma_line_step(start: Coord, end: Coord, p: Coord)
    requires
        line_fits(start, end),
        line_invariant(start, end, p),
        !(p == end),
    ensures
        line_invariant(start, end, line_next(start, end, p)),
        abs(line_next(start, end, p).column - start.column) + abs(line_next(start, end, p).row - start.row)
            > abs(p.column - start.column) + abs(p.row - start.row),
        line_error(start, end, line_next(start, end, p)) == line_error(start, end, p)
            - (if 2 * line_error(start, end, p) > -abs(end.row - start.row) { abs(end.row - start.row) } else { 0 })
            + (if 2 * line_error(start, end, p) < abs(end.column - start.column) { abs(end.column - start.column) } else { 0 }),
        2 * line_error(start, end, p) > -abs(end.row - start.row) ==> i32::MIN <= p.column + sign_toward(start.column as int, end.column as int) <= i32::MAX,
        2 * line_error(start, end, p) < abs(end.column - start.column) ==> i32::MIN <= p.row + sign_toward(start.row as int, end.row as int) <= i32::MAX,
{
    let dx = abs(end.column - start.column);
    let dy = abs(end.row - start.row);
    let kx = abs(p.column - start.column);
    let ky = abs(p.row - start.row);
    let sx = sign_toward(start.column as int, end.column as int);
    let sy = sign_toward(start.row as int, end.row as int);
    let err = line_error(start, end, p);
    assert(err == dx - dy - kx * dy + ky * dx);
    let xstep = 2 * err > -dy;
    let ystep = 2 * err < dx;
    // An axis that has reached its end is never stepped again.
    if kx == dx && ky < dy {
        assert(err <= -dy) by (nonlinear_arith)
            requires err == dx - dy - kx * dy + ky * dx, kx == dx, ky < dy, ky >= 0, dx >= 0;
    }
    if ky == dy && kx < dx {
        assert(err >= dx) by (nonlinear_arith)
            requires err == dx - dy - kx * dy + ky * dx, ky == dy, kx < dx, kx >= 0, dy >= 0;
    }
    if kx == dx && ky == dy {
        assert(p.column == end.column && p.row == end.row);
    }
    assert(xstep || ystep);
    assert(xstep ==> kx < dx);
    assert(ystep ==> ky < dy);
    let nkx = if xstep { kx + 1 } else { kx };
    let nky = if ystep { ky + 1 } else { ky };
    let ncol = p.column + (if xstep { sx } else { 0 });
    let nrow = p.row + (if ystep { sy } else { 0 });
    assert(ncol - start.column == nkx * sx) by (nonlinear_arith)
        requires p.column - start.column == kx * sx, ncol == p.column + (if xstep { sx } else { 0 }),
            nkx == (if xstep { kx + 1 } else { kx });
    assert(nrow - start.row == nky * sy) by (nonlinear_arith)
        requires p.row - start.row == ky * sy, nrow == p.row + (if ystep { sy } else { 0 }),
            nky == (if ystep { ky + 1 } else { ky });
    assert(i32::MIN <= ncol <= i32::MAX);
    assert(i32::MIN <= nrow <= i32::MAX);
    let nerr = err - (if xstep { dy } else { 0 }) + (if ystep { dx } else { 0 });
    assert(nerr == dx - dy - nkx * dy + nky * dx) by (nonlinear_arith)
        requires err == dx - dy - kx * dy + ky * dx,
            nkx == (if xstep { kx + 1 } else { kx }),
            nky == (if ystep { ky + 1 } else { ky }),
            nerr == err - (if xstep { dy } else { 0 }) + (if ystep { dx } else { 0 });
    let q = line_next(start, end, p);
    assert(q.column == ncol);
    assert(q.row == nrow);
    assert(abs(q.column - start.column) == nkx);
    assert(abs(q.row - start.row) == nky);
    assert(line_error(start, end, q) == nerr);
}

/// All cells of the line from `start` to `end` (Bresenham), starting at `start`.
/// `path` walks the line from `start` to `end`: it begins at `start`, each point is the
/// line step from the one before, and only its last point is `end`.
pub open spec fn walks_line(path: Seq<Coord>, start: Coord, end: Coord) -> bool {
    &&& path.len() > 0
    &&& path[0] == start
    &&& path.last() == end
    &&& forall|i: int| 0 <= i < path.len() - 1 ==> #[trigger] path[i + 1] == line_next(start, end, path[i])
    &&& forall|i: int| 0 <= i < path.len() - 1 ==> #[trigger] path[i] != end
}

/// `path` walks the lines through `waypoints` in turn, each shared corner appearing once.
pub open spec fn walks_route(path: Seq<Coord>, waypoints: Seq<Coord>) -> bool
    decreases waypoints.len(),
{
    if waypoints.len() <= 1 {
        path == waypoints
    } else {
        exists|m: int|
            0 <= m < path.len() && #[trigger] walks_line(path.take(m + 1), waypoints[0], waypoints[1])
                && walks_route(path.skip(m), waypoints.drop_first())
    }
}

/// Extending a route by the line from its last waypoint to `x`, without repeating the
/// joint, gives the route through `x` as well.
pub proof fn lemma_route_extend(p: Seq<Coord>, w: Seq<Coord>, l: Seq<Coord>, x: Coord)
    requires
        w.len() >= 1,
        walks_route(p, w),
        walks_line(l, w.last(), x),
    ensures
        walks_route(p + l.skip(1), w.push(x)),
        (p + l.skip(1)).len() >= 1,
    decreases w.len(),
{
    let q = p + l.skip(1);
    let wx = w.push(x);
    if w.len() == 1 {
        assert(p == w);
        assert(q =~= l);
        let m = l.len() - 1;
        assert(q.take(m + 1) =~= l);
        assert(q.skip(m) =~= seq![x]);
        assert(wx.drop_first() =~= seq![x]);
        assert(walks_route(q.skip(m), wx.drop_first()));
        assert(walks_line(q.take(m + 1), wx[0], wx[1]));
    } else {
        let m = choose|m: int|
            0 <= m < p.len() && #[trigger] walks_line(p.take(m + 1), w[0], w[1]) && walks_route(
                p.skip(m),
                w.drop_first(),
            );
        assert(w.drop_first().last() == w.last());
        lemma_route_extend(p.skip(m), w.drop_first(), l, x);
        assert(q.take(m + 1) =~= p.take(m + 1));
        assert(q.skip(m) =~= p.skip(m) + l.skip(1));
        assert(wx.drop_first() =~= w.drop_first().push(x));
        assert(walks_line(q.take(m + 1), wx[0], wx[1]));
    }
}

pub fn find_coords_on_line(start: Coord, end: Coord) -> (coords: Vec<Coord>)
    requires
        line_fits(start, end),
    ensures
        walks_line(coords@, start, end),
        forall|i: int| 0 <= i < coords@.len() ==> line_invariant(start, end, #[trigger] coords@[i]),
{
    let mut coords: Vec<Coord> = Vec::new();
    let dx: i32 = if end.column >= start.column { end.column - start.column } else { start.column - end.column };
    let dy: i32 = if end.row >= start.row { end.row - start.row } else { start.row - end.row };
    let sx: i32 = if start.column < end.column { 1 } else { -1 };
    let sy: i32 = if start.row < end.row { 1 } else { -1 };
    let mut err: i32 = dx - dy;
    let mut x: i32 = start.column;
    let mut y: i32 = start.row;
    loop
        invariant_except_break
            coords@.len() > 0 ==> line_next(start, end, coords@.last()) == (Coord { column: x, row: y }),
            forall|i: int| 0 <= i < coords@.len() ==> coords@[i] != end,
        invariant
            line_fits(start, end),
            dx == abs(end.column - start.column),
            dy == abs(end.row - start.row),
            sx == sign_toward(start.column as int, end.column as int),
            sy == sign_toward(start.row as int, end.row as int),
            line_invariant(start, end, Coord { column: x, row: y }),
            err == line_error(start, end, Coord { column: x, row: y }),
            coords@.len() > 0 ==> coords@[0] == start,
            forall|i: int| 0 <= i < coords@.len() - 1 ==> #[trigger] coords@[i + 1] == line_next(start, end, coords@[i]),
            coords@.len() == 0 ==> x == start.column && y == start.row,
            forall|i: int| 0 <= i < coords@.len() ==> line_invariant(start, end, #[trigger] coords@[i]),
        ensures
            forall|i: int| 0 <= i < coords@.len() ==> line_invariant(start, end, #[trigger] coords@[i]),
            coords@.len() > 0,
            coords@[0] == start,
            coords@.last() == end,
            forall|i: int| 0 <= i < coords@.len() - 1 ==> #[trigger] coords@[i + 1] == line_next(start, end, coords@[i]),
            forall|i: int| 0 <= i < coords@.len() - 1 ==> coords@[i] != end,
        decreases (dx - abs(x - start.column)) + (dy - abs(y - start.row)),
    {
        let ghost p = Coord { column: x, row: y };
        let ghost old_coords = coords@;
        coords.push(Coord { column: x, row: y });
        if x == end.column && y == end.row {
            break;
        }
        proof {
            lemma_line_step(start, end, p);
        }
        let e2 = 2 * err;
        if e2 > -dy {
            err -= dy;
            x += sx;
        }
        if e2 < dx {
            err += dx;
            y += sy;
        }
        proof {
            assert(line_next(start, end, p) == (Coord { column: x, row: y }));
            assert forall|i: int| 0 <= i < coords@.len() - 1 implies #[trigger] coords@[i + 1] == line_next(start, end, coords@[i]) by {
                if i < old_coords.len() - 1 {
                    assert(coords@[i + 1] == old_coords[i + 1]);
                }
            }
        }
    }
    coords
}

/// The `i`-th cell of the filled `width`-wide rectangle at `origin`, filled row by row
/// from the bottom row up, each row left to right.
pub open spec fn rect_cell(origin: Coord, width: int, i: int) -> Coord {
    Coord { column: (origin.column + i % width) as i32, row: (origin.row + i / width) as i32 }
}

/// Every cell of the `width` x `height` rectangle whose lower-left cell is `origin`.
pub fn find_coords_in_rect(origin: Coord, width: i32, height: i32) -> (coords: Vec<Coord>)
    requires
        width > 0 ==> origin.column + width <= i32::MAX,
        height > 0 ==> origin.row + height <= i32::MAX,
    ensures
        width <= 0 || height <= 0 ==> coords@.len() == 0,
        width > 0 && height > 0 ==> coords@.len() == width * height,
        width > 0 && height > 0 ==> forall|i: int| 0 <= i < coords@.len() ==> #[trigger] coords@[i] == rect_cell(origin, width as int, i),
{
    let mut coords: Vec<Coord> = Vec::new();
    if width <= 0 || height <= 0 {
        return coords;
    }
    let mut row: i32 = origin.row;
    while row < origin.row + height
        invariant
            width > 0,
            height > 0,
            origin.column + width <= i32::MAX,
            origin.row + height <= i32::MAX,
            origin.row <= row <= origin.row + height,
            coords@.len() == (row - origin.row) * width,
            forall|i: int| 0 <= i < coords@.len() ==> #[trigger] coords@[i] == rect_cell(origin, width as int, i),
        decreases origin.row + height - row,
    {
        let mut column: i32 = origin.column;
        while column < origin.column + width
            invariant
                width > 0,
                height > 0,
                origin.column + width <= i32::MAX,
                origin.row + height <= i32::MAX,
                origin.row <= row < origin.row + height,
                origin.column <= column <= origin.column + width,
                coords@.len() == (row - origin.row) * width + (column - origin.column),
                forall|i: int| 0 <= i < coords@.len() ==> #[trigger] coords@[i] == rect_cell(origin, width as int, i),
            decreases origin.column + width - column,
        {
            let ghost k = coords@.len() as int;
            proof {
                let r = row - origin.row;
                let c = column - origin.column;
                assert(k == r * width + c);
                assert(k == r * width + c);
                vstd::arithmetic::div_mod::lemma_fundamental_div_mod_converse_div(k, width as int, r, c);
                vstd::arithmetic::div_mod::lemma_fundamental_div_mod_converse_mod(k, width as int, r, c);
            }
            coords.push(Coord { column, row });
            column += 1;
        }
        proof {
            assert((row - origin.row) * width + width == (row + 1 - origin.row) * width) by (nonlinear_arith);
        }
        row += 1;
    }
    proof {
        assert((row - origin.row) * width == width * height) by (nonlinear_arith)
            requires row == origin.row + height;
    }
    coords
}

/// The outline of the `width` x `height` rectangle at `origin`: first the bottom and top
/// edges column by column (bottom cell first), then the left and right edges row by row
/// between them (left cell first).
pub open spec fn rect_outline(origin: Coord, width: int, height: int) -> Seq<Coord> {
    let right = origin.column + width - 1;
    let top = origin.row + height - 1;
    let m: int = if height > 1 { 2 } else { 1 };
    let n: int = if width > 1 { 2 } else { 1 };
    let edges = Seq::new((width * m) as nat, |k: int| Coord {
        column: (origin.column + k / m) as i32,
        row: (if k % m == 0 { origin.row as int } else { top }) as i32,
    });
    let sides = Seq::new((if height > 2 { (height - 2) * n } else { 0 }) as nat, |k: int| Coord {
        column: (if k % n == 0 { origin.column as int } else { right }) as i32,
        row: (origin.row + 1 + k / n) as i32,
    });
    if width <= 0 || height <= 0 { Seq::empty() } else { edges + sides }
}

proof fn lemma_div_mod_pos(k: int, q: int, r: int, d: int)
    requires
        d > 0,
        0 <= r < d,
        k == q * d + r,
    ensures
        k / d == q,
        k % d == r,
{
    vstd::arithmetic::div_mod::lemma_fundamental_div_mod_converse_div(k, d, q, r);
    vstd::arithmetic::div_mod::lemma_fundamental_div_mod_converse_mod(k, d, q, r);
}

/// The cells on the border of the `width` x `height` rectangle whose lower-left cell is `origin`.
pub fn find_coords_on_rect(origin: Coord, width: i32, height: i32) -> (coords: Vec<Coord>)
    requires
        width > 0 ==> origin.column + width <= i32::MAX,
        height > 0 ==> origin.row + height <= i32::MAX,
    ensures
        coords@ == rect_outline(origin, width as int, height as int),
{
    let mut coords: Vec<Coord> = Vec::new();
    if width <= 0 || height <= 0 {
        return coords;
    }
    let right = origin.column + width - 1;
    let top = origin.row + height - 1;
    let ghost m: int = if height > 1 { 2 } else { 1 };
    let ghost n: int = if width > 1 { 2 } else { 1 };
    let ghost outline = rect_outline(origin, width as int, height as int);
    let ghost edges_len = width * m;
    let mut column: i32 = origin.column;
    while column <= right
        invariant
            width > 0,
            height > 0,
            right == origin.column + width - 1,
            origin.column + width <= i32::MAX,
            top == origin.row + height - 1,
            m == (if height > 1 { 2int } else { 1 }),
            n == (if width > 1 { 2int } else { 1 }),
            outline == rect_outline(origin, width as int, height as int),
            edges_len == width * m,
            origin.column <= column <= right + 1,
            coords@.len() == (column - origin.column) * m,
            forall|i: int| 0 <= i < coords@.len() ==> #[trigger] coords@[i] == outline[i],
        decreases right + 1 - column,
    {
        let ghost c = column - origin.column;
        proof {
            assert(c * m + m <= width * m) by (nonlinear_arith) requires c < width, m > 0;
            lemma_div_mod_pos(c * m, c, 0, m);
        }
        coords.push(Coord { column, row: origin.row });
        if height > 1 {
            proof { lemma_div_mod_pos(c * m + 1, c, 1, m); }
            coords.push(Coord { column, row: top });
        }
        proof {
            assert((c + 1) * m == c * m + m) by (nonlinear_arith);
        }
        column += 1;
    }
    proof {
        assert(coords@.len() == edges_len);
    }
    if height > 2 {
        let mut row: i32 = origin.row + 1;
        while row < top
            invariant
                width > 0,
                height > 2,
                right == origin.column + width - 1,
                top == origin.row + height - 1,
                n == (if width > 1 { 2int } else { 1 }),
                outline == rect_outline(origin, width as int, height as int),
                edges_len == width * m,
                m == 2,
                origin.row + 1 <= row <= top,
                coords@.len() == edges_len + (row - origin.row - 1) * n,
                forall|i: int| 0 <= i < coords@.len() ==> #[trigger] coords@[i] == outline[i],
            decreases top - row,
        {
            let ghost r = row - origin.row - 1;
            proof {
                assert(r * n + n <= (height - 2) * n) by (nonlinear_arith) requires r < height - 2, n > 0;
                lemma_div_mod_pos(r * n, r, 0, n);
            }
            coords.push(Coord { column: origin.column, row });
            if width > 1 {
                proof { lemma_div_mod_pos(r * n + 1, r, 1, n); }
                coords.push(Coord { column: right, row });
            }
            proof {
                assert((r + 1) * n == r * n + n) by (nonlinear_arith);
            }
            row += 1;
        }
    }
    proof {
        assert(coords@ =~= outline);
    }
    coords
}

/// Law: a line step moves at most one cell along each axis.
pub proof fn lemma_line_step_adjacent(start: Coord, end: Coord, p: Coord)
    requires
        i32::MIN < p.column < i32::MAX,
        i32::MIN < p.row < i32::MAX,
    ensures
        -1 <= line_next(start, end, p).column - p.column <= 1,
        -1 <= line_next(start, end, p).row - p.row <= 1,
{
}


/// The cell `i` steps along the line from `start` toward `end`.
pub open spec fn line_point(start: Coord, end: Coord, i: nat) -> Coord
    decreases i,
{
    if i == 0 {
        start
    } else {
        line_next(start, end, line_point(start, end, (i - 1) as nat))
    }
}

/// The line reaches `end` first after `k` steps.
pub open spec fn reaches_in(start: Coord, end: Coord, k: nat) -> bool {
    line_point(start, end, k) == end && forall|j: nat| j < k ==> #[trigger] line_point(start, end, j) != end
}

/// The cells of the line from `start` to `end`, both ends included.
pub open spec fn line_walk(start: Coord, end: Coord) -> Seq<Coord> {
    let k = choose|k: nat| reaches_in(start, end, k);
    Seq::new(k + 1, |i: int| line_point(start, end, i as nat))
}

proof fn lemma_walk_points(path: Seq<Coord>, start: Coord, end: Coord, i: nat)
    requires
        walks_line(path, start, end),
        i < path.len(),
    ensures
        path[i as int] == line_point(start, end, i),
    decreases i,
{
    if i > 0 {
        lemma_walk_points(path, start, end, (i - 1) as nat);
        assert(path[(i - 1) + 1] == line_next(start, end, path[i - 1]));
    }
}

/// A walk of the line is the line's cells.
pub proof fn lemma_walk_is_line(path: Seq<Coord>, start: Coord, end: Coord)
    requires
        walks_line(path, start, end),
    ensures
        path == line_walk(start, end),
{
    let last = (path.len() - 1) as nat;
    assert forall|i: int| 0 <= i < path.len() implies path[i] == line_point(start, end, i as nat) by {
        lemma_walk_points(path, start, end, i as nat);
    }
    assert forall|j: nat| j < last implies #[trigger] line_point(start, end, j) != end by {
        assert(path[j as int] != end);
    }
    assert(reaches_in(start, end, last));
    let k = choose|k: nat| reaches_in(start, end, k);
    if k < last {
        assert(line_point(start, end, k) != end);
    }
    if k > last {
        assert(line_point(start, end, last) != end);
    }
    assert(path =~= line_walk(start, end));
}

/// Law: filling a `width` x `height` rectangle goes row by row from the bottom row up,
/// each row left to right: cell `r * width + c` is `c` columns right of and `r` rows above
/// the lower-left cell, and every cell of the fill lies inside the rectangle.
pub proof fn lemma_rect_fill_order(origin: Coord, width: int, height: int, c: int, r: int, i: int)
    requires
        width > 0,
        height > 0,
        origin.column + width <= i32::MAX,
        origin.row + height <= i32::MAX,
    ensures
        0 <= c < width && 0 <= r < height ==> r * width + c < width * height && rect_cell(origin, width, r * width + c)
            == (Coord { column: (origin.column + c) as i32, row: (origin.row + r) as i32 }),
        0 <= i < width * height ==> {
            let p = rect_cell(origin, width, i);
            &&& origin.column <= p.column < origin.column + width
            &&& origin.row <= p.row < origin.row + height
        },
{
    if 0 <= c < width && 0 <= r < height {
        assert(r * width + c < width * height) by (nonlinear_arith)
            requires 0 <= c < width, 0 <= r < height;
        assert(r * width + c >= 0) by (nonlinear_arith)
            requires 0 <= c < width, 0 <= r;
        lemma_div_mod_pos(r * width + c, r, c, width);
    }
    if 0 <= i < width * height {
        vstd::arithmetic::div_mod::lemma_fundamental_div_mod(i, width);
        let q = i / width;
        assert(0 <= q < height) by (nonlinear_arith)
            requires i == width * q + i % width, 0 <= i % width < width, 0 <= i < width * height, width > 0;
    }
}

/// On the border of the `width` x `height` rectangle whose lower-left cell is `origin`.
pub open spec fn on_rect_border(origin: Coord, width: int, height: int, p: Coord) -> bool {
    let right = origin.column + width - 1;
    let top = origin.row + height - 1;
    &&& origin.column <= p.column <= right
    &&& origin.row <= p.row <= top
    &&& (p.column == origin.column || p.column == right || p.row == origin.row || p.row == top)
}

/// Law: the outline of a rectangle is exactly its border: every cell of it is on the
/// border, every border cell is in it, and it has one entry per border cell (`w * h` for a
/// rectangle one cell thick, else `2w + 2h - 4`).
pub proof fn lemma_outline_is_border(origin: Coord, width: int, height: int, i: int, p: Coord)
    requires
        width > 0,
        height > 0,
        origin.column + width <= i32::MAX,
        origin.row + height <= i32::MAX,
    ensures
        rect_outline(origin, width, height).len() == (if width == 1 || height == 1 {
            width * height
        } else {
            2 * width + 2 * height - 4
        }),
        0 <= i < rect_outline(origin, width, height).len() ==> on_rect_border(
            origin,
            width,
            height,
            rect_outline(origin, width, height)[i],
        ),
        on_rect_border(origin, width, height, p) ==> rect_outline(origin, width, height).contains(p),
{
    let o = rect_outline(origin, width, height);
    let right = origin.column + width - 1;
    let top = origin.row + height - 1;
    let m: int = if height > 1 { 2 } else { 1 };
    let n: int = if width > 1 { 2 } else { 1 };
    let e = width * m;
    let sl: int = if height > 2 { (height - 2) * n } else { 0 };
    assert(o.len() == e + sl);
    if width == 1 || height == 1 {
        if width == 1 {
            assert(e + sl == height) by (nonlinear_arith)
                requires e == 1 * m, m == (if height > 1 { 2int } else { 1 }), n == 1,
                    sl == (if height > 2 { (height - 2) * n } else { 0int }), height > 0;
        } else {
            assert(e == width);
        }
    } else {
        assert(e + sl == 2 * width + 2 * height - 4) by (nonlinear_arith)
            requires e == width * 2, n == 2, sl == (if height > 2 { (height - 2) * n } else { 0int }), height >= 2;
    }
    if 0 <= i < o.len() {
        if i < e {
            vstd::arithmetic::div_mod::lemma_fundamental_div_mod(i, m);
            let q = i / m;
            assert(0 <= q < width) by (nonlinear_arith)
                requires i == m * q + i % m, 0 <= i % m < m, 0 <= i < width * m, m > 0;
        } else {
            let k = i - e;
            vstd::arithmetic::div_mod::lemma_fundamental_div_mod(k, n);
            let q = k / n;
            assert(0 <= q < height - 2) by (nonlinear_arith)
                requires k == n * q + k % n, 0 <= k % n < n, 0 <= k < (height - 2) * n, n > 0;
        }
    }
    if on_rect_border(origin, width, height, p) {
        let c = p.column - origin.column;
        if p.row == origin.row {
            assert(0 <= c * m < e) by (nonlinear_arith) requires 0 <= c < width, m > 0, e == width * m;
            lemma_div_mod_pos(c * m, c, 0, m);
            assert(o[c * m] == p);
        } else if p.row == top {
            assert(height > 1);
            assert(0 <= c * m + 1 < e) by (nonlinear_arith) requires 0 <= c < width, m == 2, e == width * m;
            lemma_div_mod_pos(c * m + 1, c, 1, m);
            assert(o[c * m + 1] == p);
        } else {
            assert(height > 2);
            let r = p.row - origin.row - 1;
            let side: int = if p.column == origin.column { 0 } else { 1 };
            assert(side == 1 ==> n == 2);
            let k = r * n + side;
            assert(0 <= k < sl) by (nonlinear_arith)
                requires 0 <= r < height - 2, 0 <= side < n, sl == (height - 2) * n, k == r * n + side;
            lemma_div_mod_pos(k, r, side, n);
            assert(o[e + k] == p);
        }
    }
}

} // verus!
