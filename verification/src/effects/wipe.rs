//! Wipe: the text is revealed group by group as a wipe travels across it.
use vstd::prelude::*;

use crate::animation::{fg_text, formatted, lemma_fg_text, CharacterVisual};
use crate::canvas::{picture, sprite_texts, Canvas};
use crate::effects::overflow::row_of;
use crate::geometry::Coord;
use crate::graphics::{gradient_spectrum, Color, ColorPair, Gradient};
use crate::sorting::{bucket_ids, buckets, group_views, lemma_bucket_len};
use crate::terminal::{draw_frame, PlacedCharacter};

verus! {

/// Direction the wipe travels while revealing characters.
#[derive(Clone, Copy, Debug, PartialEq, Eq, Structural)]
pub enum WipeDirection {
    ColumnLeftToRight,
    ColumnRightToLeft,
    RowTopToBottom,
    RowBottomToTop,
    DiagonalTopLeftToBottomRight,
    DiagonalBottomLeftToTopRight,
    DiagonalTopRightToBottomLeft,
    DiagonalBottomRightToTopLeft,
    CenterToOutside,
    OutsideToCenter,
}

/// The wipe effect and its settings.
pub struct Wipe {
    pub wipe_direction: WipeDirection,
    pub final_gradient_stops: Vec<Color>,
    pub final_gradient_steps: usize,
    pub final_gradient_frames: usize,
    pub wipe_delay: usize,
}

/// The default settings: left to right, a purple-to-blue final gradient of 12 steps,
/// 5 frames per color, no delay.
pub open spec fn default_wipe(w: Wipe) -> bool {
    &&& w.wipe_direction == WipeDirection::ColumnLeftToRight
    &&& w.final_gradient_stops@ == seq![Color { r: 0x83, g: 0x38, b: 0xec }, Color { r: 0x3a, g: 0x86, b: 0xff }]
    &&& w.final_gradient_steps == 12
    &&& w.final_gradient_frames == 5
    &&& w.wipe_delay == 0
}

impl Wipe {
    pub fn new() -> (w: Self)
        ensures
            default_wipe(w),
    {
        let stops = vec![Color::rgb(0x83, 0x38, 0xec), Color::rgb(0x3a, 0x86, 0xff)];
        proof {
            assert(stops@ =~= seq![Color { r: 0x83, g: 0x38, b: 0xec }, Color { r: 0x3a, g: 0x86, b: 0xff }]);
        }
        Wipe {
            wipe_direction: WipeDirection::ColumnLeftToRight,
            final_gradient_stops: stops,
            final_gradient_steps: 12,
            final_gradient_frames: 5,
            wipe_delay: 0,
        }
    }

    pub fn name(&self) -> (n: &'static str)
        ensures
            n@ == "wipe"@,
    {
        "wipe"
    }
}

impl Default for Wipe {
    fn default() -> (w: Self)
        ensures
            default_wipe(w),
    {
        Wipe::new()
    }
}

/// The group key of a cell for a direction: its column, row, diagonal or ring around
/// the text's center.
pub open spec fn wipe_key(c: Coord, direction: WipeDirection, center_column: int, center_row: int) -> int {
    match direction {
        WipeDirection::ColumnLeftToRight | WipeDirection::ColumnRightToLeft => c.column as int,
        WipeDirection::RowTopToBottom | WipeDirection::RowBottomToTop => c.row as int,
        WipeDirection::DiagonalTopLeftToBottomRight | WipeDirection::DiagonalBottomRightToTopLeft => c.column - c.row,
        WipeDirection::DiagonalBottomLeftToTopRight | WipeDirection::DiagonalTopRightToBottomLeft => c.column + c.row,
        WipeDirection::CenterToOutside | WipeDirection::OutsideToCenter => {
            let dc = if c.column >= center_column { c.column - center_column } else { center_column - c.column };
            let dr = if c.row >= center_row { c.row - center_row } else { center_row - c.row };
            if dc >= dr { dc } else { dr }
        },
    }
}

/// The directions that take the groups from the highest key down.
pub open spec fn reversed_direction(direction: WipeDirection) -> bool {
    match direction {
        WipeDirection::ColumnRightToLeft | WipeDirection::RowTopToBottom | WipeDirection::DiagonalBottomRightToTopLeft
        | WipeDirection::DiagonalTopRightToBottomLeft | WipeDirection::OutsideToCenter => true,
        _ => false,
    }
}

/// Cells close enough to the origin for every key to fit an `i32`.
pub open spec fn small(c: Coord) -> bool {
    -0x2000_0000 < c.column < 0x2000_0000 && -0x2000_0000 < c.row < 0x2000_0000
}

/// The groups the wipe reveals in turn: the characters bucketed by the direction's key
/// (in input order within a bucket), lowest key first or, for the reversed directions,
/// highest first.
pub fn group_characters(
    coords: &[Coord],
    ids: &[u32],
    direction: WipeDirection,
    text_left: i32,
    text_right: i32,
    text_bottom: i32,
    text_top: i32,
) -> (groups: Vec<Vec<u32>>)
    requires
        coords@.len() == ids@.len(),
        ids@.len() <= u32::MAX,
        text_left <= text_right,
        text_bottom <= text_top,
        small(Coord { column: text_left, row: text_bottom }),
        small(Coord { column: text_right, row: text_top }),
        forall|i: int| 0 <= i < coords@.len() ==> small(#[trigger] coords@[i]),
    ensures
        ({
            let cc = text_left + (text_right - text_left) / 2;
            let cr = text_bottom + (text_top - text_bottom) / 2;
            let b = buckets(Seq::new(ids@.len(), |i: int| wipe_key(coords@[i], direction, cc, cr) as i64), ids@);
            group_views(groups@) == if reversed_direction(direction) { b.reverse() } else { b }
        }),
{
    let center_column = text_left + (text_right - text_left) / 2;
    let center_row = text_bottom + (text_top - text_bottom) / 2;
    let mut keys: Vec<i64> = Vec::new();
    let mut i: usize = 0;
    while i < coords.len()
        invariant
            i <= coords@.len(),
            coords@.len() == ids@.len(),
            forall|k: int| 0 <= k < coords@.len() ==> small(#[trigger] coords@[k]),
            -0x2000_0000 < center_column < 0x2000_0000,
            -0x2000_0000 < center_row < 0x2000_0000,
            keys@ == Seq::new(i as nat, |k: int| wipe_key(coords@[k], direction, center_column as int, center_row as int) as i64),
        decreases coords.len() - i,
    {
        let c = coords[i];
        let key: i64 = match direction {
            WipeDirection::ColumnLeftToRight | WipeDirection::ColumnRightToLeft => c.column as i64,
            WipeDirection::RowTopToBottom | WipeDirection::RowBottomToTop => c.row as i64,
            WipeDirection::DiagonalTopLeftToBottomRight | WipeDirection::DiagonalBottomRightToTopLeft => c.column as i64 - c.row as i64,
            WipeDirection::DiagonalBottomLeftToTopRight | WipeDirection::DiagonalTopRightToBottomLeft => c.column as i64 + c.row as i64,
            WipeDirection::CenterToOutside | WipeDirection::OutsideToCenter => {
                let dc = if c.column >= center_column { c.column as i64 - center_column as i64 } else { center_column as i64 - c.column as i64 };
                let dr = if c.row >= center_row { c.row as i64 - center_row as i64 } else { center_row as i64 - c.row as i64 };
                if dc >= dr { dc } else { dr }
            },
        };
        keys.push(key);
        proof {
            assert(keys@ =~= Seq::new((i + 1) as nat, |k: int| wipe_key(coords@[k], direction, center_column as int, center_row as int) as i64));
        }
        i = i + 1;
    }
    let mut groups = bucket_ids(keys.as_slice(), ids);
    let reverse = match direction {
        WipeDirection::ColumnRightToLeft | WipeDirection::RowTopToBottom | WipeDirection::DiagonalBottomRightToTopLeft
        | WipeDirection::DiagonalTopRightToBottomLeft | WipeDirection::OutsideToCenter => true,
        _ => false,
    };
    if reverse {
        let ghost before = group_views(groups@);
        let mut out: Vec<Vec<u32>> = Vec::new();
        while groups.len() > 0
            invariant
                group_views(out@) + group_views(groups@).reverse() == before.reverse(),
            decreases groups.len(),
        {
            let ghost g = group_views(groups@);
            let last = groups.pop().unwrap();
            out.push(last);
            proof {
                assert(g =~= group_views(groups@).push(last@));
                assert(group_views(out@) + group_views(groups@).reverse() =~= before.reverse());
            }
        }
        proof {
            assert(group_views(out@) =~= before.reverse());
        }
        out
    } else {
        groups
    }
}

/// The least of the first `m` values (`m >= 1`).
pub open spec fn least(v: Seq<i32>, m: nat) -> i32
    decreases m,
{
    if m <= 1 {
        v[0]
    } else {
        let r = least(v, (m - 1) as nat);
        if v[m - 1] < r { v[m - 1] } else { r }
    }
}

/// The greatest of the first `m` values (`m >= 1`).
pub open spec fn greatest(v: Seq<i32>, m: nat) -> i32
    decreases m,
{
    if m <= 1 {
        v[0]
    } else {
        let r = greatest(v, (m - 1) as nat);
        if v[m - 1] > r { v[m - 1] } else { r }
    }
}

/// The groups the wipe reveals in turn for the laid-out characters, as character
/// positions: `group_characters` over the text's extent.
pub open spec fn wipe_groups(chars: Seq<PlacedCharacter>, direction: WipeDirection) -> Seq<Seq<u32>> {
    let n = chars.len();
    let cols = chars.map_values(|p: PlacedCharacter| p.coord.column);
    let rows = chars.map_values(|p: PlacedCharacter| p.coord.row);
    let (left, right) = (least(cols, n), greatest(cols, n));
    let (bottom, top) = (least(rows, n), greatest(rows, n));
    let cc = left + (right - left) / 2;
    let cr = bottom + (top - bottom) / 2;
    let b = buckets(Seq::new(n, |i: int| wipe_key(chars[i].coord, direction, cc, cr) as i64), Seq::new(n, |i: int| i as u32));
    if reversed_direction(direction) { b.reverse() } else { b }
}

/// The colors a character fades through: black to its final color, or just the final
/// color when that gradient is empty.
pub open spec fn fade_palette(final_color: Color, steps: usize) -> Seq<Color> {
    let s = gradient_spectrum(seq![Color { r: 0, g: 0, b: 0 }, final_color], steps);
    if s.len() == 0 { seq![final_color] } else { s }
}

/// The palette color `tick` frames after a reveal, each held `hold` frames, the last kept.
pub open spec fn fade_color(palette: Seq<Color>, tick: int, hold: int) -> Color {
    let i = tick / hold;
    palette[if i < palette.len() - 1 { i } else { palette.len() - 1 }]
}

/// The frame group `g` is revealed in: one group every `delay + 1` frames.
pub open spec fn reveal_frame(g: int, delay: int) -> int {
    g * (delay + 1)
}

/// The frame character `c` is revealed in, if any of the first `m` groups lists it.
pub open spec fn start_of(groups: Seq<Seq<u32>>, c: int, m: nat, delay: int) -> Option<int> {
    match row_of(groups, c, m) {
        Some(g) => Some(reveal_frame(g as int, delay)),
        None => None,
    }
}

/// A stored frame number as an integer.
pub open spec fn as_int(o: Option<u64>) -> Option<int> {
    match o {
        Some(x) => Some(x as int),
        None => None,
    }
}

/// Frame `k` among the first `m` characters: each revealed character at its place in
/// its fade color.
pub open spec fn wipe_sprites(
    chars: Seq<PlacedCharacter>,
    finals: Seq<Color>,
    groups: Seq<Seq<u32>>,
    steps: usize,
    hold: int,
    delay: int,
    k: int,
    m: nat,
) -> Seq<(Coord, Seq<char>)>
    decreases m,
{
    if m == 0 {
        Seq::empty()
    } else {
        let prev = wipe_sprites(chars, finals, groups, steps, hold, delay, k, (m - 1) as nat);
        let c = m - 1;
        match start_of(groups, c, groups.len(), delay) {
            Some(s) => {
                if s <= k {
                    prev.push((chars[c].coord, fg_text(chars[c].symbol@, fade_color(fade_palette(finals[c], steps), k - s, hold))))
                } else {
                    prev
                }
            },
            None => prev,
        }
    }
}

/// The frames of the wipe, over the first `m` characters: until the last character has
/// been through its whole palette.
pub open spec fn wipe_frame_count(
    chars: Seq<PlacedCharacter>,
    finals: Seq<Color>,
    groups: Seq<Seq<u32>>,
    steps: usize,
    hold: int,
    delay: int,
    m: nat,
) -> int
    decreases m,
{
    if m == 0 {
        0
    } else {
        let prev = wipe_frame_count(chars, finals, groups, steps, hold, delay, (m - 1) as nat);
        let c = m - 1;
        let end = match start_of(groups, c, groups.len(), delay) {
            Some(s) => s + fade_palette(finals[c], steps).len() * hold,
            None => 0,
        };
        if end > prev { end } else { prev }
    }
}

proof fn lemma_fade_len(final_color: Color, steps: usize)
    requires
        steps < 0x100,
    ensures
        1 <= fade_palette(final_color, steps).len() <= 0x101,
{
}

proof fn lemma_row_of_below(groups: Seq<Seq<u32>>, c: int, m: nat)
    ensures
        row_of(groups, c, m) matches Some(r) ==> (r as int) < m,
    decreases m,
{
    if m > 0 {
        lemma_row_of_below(groups, c, (m - 1) as nat);
    }
}

impl Wipe {
    /// The frames of the wipe for the characters laid out on `canvas`, character `c`
    /// settling in `final_colors[c]`: the groups of `wipe_groups` are revealed one every
    /// `wipe_delay + 1` frames, each character then fading from black to its final color
    /// (`fade_palette`, each color held `final_gradient_frames` frames, at least one);
    /// frame `k` is `wipe_sprites` at `k`, until every character has faded in. Without
    /// characters, no frames.
    #[verifier::rlimit(50)]
    pub fn frames(&self, canvas: &mut Canvas, chars: &[PlacedCharacter], final_colors: &[Color]) -> (frames: Vec<String>)
        requires
            old(canvas).wf(),
            old(canvas).width < 0x4000_0000,
            old(canvas).height < 0x4000_0000,
            final_colors@.len() == chars@.len(),
            chars@.len() < 0x10_0000,
            forall|c: int| 0 <= c < chars@.len() ==> small(#[trigger] chars@[c].coord),
            self.wipe_delay < 0x100,
            self.final_gradient_steps < 0x100,
            self.final_gradient_frames < 0x100,
        ensures
            final(canvas).wf(),
            final(canvas).width == old(canvas).width,
            final(canvas).height == old(canvas).height,
            ({
                let w = old(canvas).width as nat;
                let h = old(canvas).height as nat;
                let n = chars@.len();
                let groups = wipe_groups(chars@, self.wipe_direction);
                let hold: int = if self.final_gradient_frames > 0 { self.final_gradient_frames as int } else { 1 };
                let steps = self.final_gradient_steps;
                let delay = self.wipe_delay as int;
                if n == 0 {
                    frames@.len() == 0
                } else {
                    &&& frames@.len() == wipe_frame_count(chars@, final_colors@, groups, steps, hold, delay, n)
                    &&& forall|k: int| 0 <= k < frames@.len() ==> #[trigger] frames@[k]@ == picture(
                        w,
                        h,
                        wipe_sprites(chars@, final_colors@, groups, steps, hold, delay, k, n),
                    )
                }
            }),
    {
        let ghost w = canvas.width as nat;
        let ghost h = canvas.height as nat;
        let mut frames: Vec<String> = Vec::new();
        let n = chars.len();
        if n == 0 {
            return frames;
        }
        let hold: usize = if self.final_gradient_frames > 0 { self.final_gradient_frames } else { 1 };
        let steps = self.final_gradient_steps;
        let delay = self.wipe_delay;
        let ghost groups = wipe_groups(chars@, self.wipe_direction);
        // The text's extent and the characters' places.
        let mut coords: Vec<Coord> = Vec::new();
        let mut ids: Vec<u32> = Vec::new();
        let mut left: i32 = chars[0].coord.column;
        let mut right: i32 = chars[0].coord.column;
        let mut bottom: i32 = chars[0].coord.row;
        let mut top: i32 = chars[0].coord.row;
        let ghost cols = chars@.map_values(|p: PlacedCharacter| p.coord.column);
        let ghost rows = chars@.map_values(|p: PlacedCharacter| p.coord.row);
        let mut c: usize = 0;
        while c < n
            invariant
                n == chars@.len(),
                n < 0x10_0000,
                c <= n,
                cols == chars@.map_values(|p: PlacedCharacter| p.coord.column),
                rows == chars@.map_values(|p: PlacedCharacter| p.coord.row),
                forall|i: int| 0 <= i < chars@.len() ==> small(#[trigger] chars@[i].coord),
                coords@ == chars@.map_values(|p: PlacedCharacter| p.coord).take(c as int),
                ids@ == Seq::new(c as nat, |i: int| i as u32),
                c >= 1 ==> left == least(cols, c as nat) && right == greatest(cols, c as nat),
                c >= 1 ==> bottom == least(rows, c as nat) && top == greatest(rows, c as nat),
                c == 0 ==> left == chars@[0].coord.column && right == left && bottom == chars@[0].coord.row && top == bottom,
            decreases n - c,
        {
            let p = chars[c].coord;
            if p.column < left {
                left = p.column;
            }
            if p.column > right {
                right = p.column;
            }
            if p.row < bottom {
                bottom = p.row;
            }
            if p.row > top {
                top = p.row;
            }
            coords.push(p);
            ids.push(c as u32);
            proof {
                assert(coords@ =~= chars@.map_values(|p: PlacedCharacter| p.coord).take(c + 1));
                assert(ids@ =~= Seq::new((c + 1) as nat, |i: int| i as u32));
            }
            c = c + 1;
        }
        proof {
            assert(coords@ =~= chars@.map_values(|p: PlacedCharacter| p.coord));
            lemma_extent(cols, n as nat);
            lemma_extent(rows, n as nat);
            let a = choose|i: int| 0 <= i < n && cols[i] == least(cols, n as nat);
            let b = choose|i: int| 0 <= i < n && cols[i] == greatest(cols, n as nat);
            let d = choose|i: int| 0 <= i < n && rows[i] == least(rows, n as nat);
            let e = choose|i: int| 0 <= i < n && rows[i] == greatest(rows, n as nat);
            assert(small(chars@[a].coord) && small(chars@[b].coord) && small(chars@[d].coord) && small(chars@[e].coord));
            assert(small(Coord { column: left, row: bottom }));
            assert(small(Coord { column: right, row: top }));
        }
        let grouped = group_characters(coords.as_slice(), ids.as_slice(), self.wipe_direction, left, right, bottom, top);
        proof {
            assert(Seq::new(ids@.len(), |i: int| wipe_key(coords@[i], self.wipe_direction, left + (right - left) / 2, bottom + (top - bottom) / 2) as i64)
                =~= Seq::new(n as nat, |i: int| wipe_key(chars@[i].coord, self.wipe_direction, left + (right - left) / 2, bottom + (top - bottom) / 2) as i64));
            assert(group_views(grouped@) == groups);
        }
        let count = grouped.len();
        // The frame each character is revealed in.
        let mut starts: Vec<Option<u64>> = Vec::new();
        while starts.len() < n
            invariant
                starts@.len() <= n,
                forall|c: int| 0 <= c < starts@.len() ==> #[trigger] starts@[c] is None,
            decreases n - starts.len(),
        {
            starts.push(None);
        }
        proof {
            lemma_bucket_count(chars@, self.wipe_direction);
        }
        let mut g: usize = 0;
        let mut s: u64 = 0;
        while g < count
            invariant
                n == chars@.len(),
                n < 0x10_0000,
                count == grouped@.len(),
                count <= n,
                group_views(grouped@) == groups,
                delay < 0x100,
                g <= count,
                s == reveal_frame(g as int, delay as int),
                starts@.len() == n,
                forall|c: int| 0 <= c < n ==> #[trigger] as_int(starts@[c]) == start_of(groups, c, g as nat, delay as int),
            decreases count - g,
        {
            let members = &grouped[g];
            proof {
                assert(members@ == groups[g as int]);
                assert(s <= 0x10_0000 * 0x101) by (nonlinear_arith)
                    requires
                        s == g * (delay + 1),
                        g < 0x10_0000,
                        delay < 0x100,
                ;
            }
            let mut j: usize = 0;
            while j < members.len()
                invariant
                    n == chars@.len(),
                    n < 0x10_0000,
                    g < count,
                    count == grouped@.len(),
                    group_views(grouped@) == groups,
                    members@ == groups[g as int],
                    s == reveal_frame(g as int, delay as int),
                    j <= members@.len(),
                    starts@.len() == n,
                    forall|c: int|
                        0 <= c < n ==> #[trigger] as_int(starts@[c]) == (if members@.take(j as int).contains(c as u32) {
                            Some(s as int)
                        } else {
                            start_of(groups, c, g as nat, delay as int)
                        }),
                decreases members.len() - j,
            {
                let id = members[j];
                let ghost old_starts = starts@;
                if (id as usize) < n {
                    starts.set(id as usize, Some(s));
                }
                proof {
                    let pre = members@.take(j as int);
                    let post = members@.take(j + 1);
                    assert(post =~= pre.push(id));
                    assert forall|c: int|
                        0 <= c < n implies #[trigger] as_int(starts@[c]) == (if post.contains(c as u32) {
                            Some(s as int)
                        } else {
                            start_of(groups, c, g as nat, delay as int)
                        }) by {
                        if c == id as int {
                            assert(post[j as int] == id);
                            assert(post.contains(c as u32));
                        } else {
                            assert(starts@[c] == old_starts[c]);
                            assert(as_int(old_starts[c]) == (if pre.contains(c as u32) {
                                Some(s as int)
                            } else {
                                start_of(groups, c, g as nat, delay as int)
                            }));
                            assert(c as u32 != id);
                            if post.contains(c as u32) {
                                let t = choose|t: int| 0 <= t < post.len() && post[t] == c as u32;
                                assert(t != j);
                                assert(pre[t] == c as u32);
                                assert(pre.contains(c as u32));
                            }
                            if pre.contains(c as u32) {
                                let t = choose|t: int| 0 <= t < pre.len() && pre[t] == c as u32;
                                assert(post[t] == c as u32);
                                assert(post.contains(c as u32));
                            }
                        }
                    }
                }
                j = j + 1;
            }
            proof {
                assert(members@.take(members@.len() as int) =~= members@);
                assert(reveal_frame(g + 1, delay as int) == s + delay + 1) by (nonlinear_arith)
                    requires
                        s == g * (delay + 1),
                ;
            }
            s = s + delay as u64 + 1;
            g = g + 1;
        }
        // Each character's palette.
        let mut palettes: Vec<Vec<Color>> = Vec::new();
        let mut c: usize = 0;
        while c < n
            invariant
                n == chars@.len(),
                final_colors@.len() == n,
                steps < 0x100,
                c <= n,
                palettes@.len() == c,
                forall|i: int| 0 <= i < c ==> #[trigger] palettes@[i]@ == fade_palette(final_colors@[i], steps),
            decreases n - c,
        {
            let stops = vec![Color::rgb(0, 0, 0), final_colors[c]];
            let fade = Gradient::new(stops.as_slice(), steps);
            proof {
                assert(stops@ =~= seq![Color { r: 0, g: 0, b: 0 }, final_colors@[c as int]]);
            }
            let palette = if fade.spectrum().len() == 0 {
                vec![final_colors[c]]
            } else {
                vstd::slice::slice_to_vec(fade.spectrum())
            };
            proof {
                if fade@.len() == 0 {
                    assert(palette@ =~= seq![final_colors@[c as int]]);
                }
            }
            palettes.push(palette);
            c = c + 1;
        }
        // The number of frames.
        let mut total: u64 = 0;
        let mut c: usize = 0;
        while c < n
            invariant
                n == chars@.len(),
                n < 0x10_0000,
                final_colors@.len() == n,
                steps < 0x100,
                1 <= hold < 0x100,
                delay < 0x100,
                c <= n,
                starts@.len() == n,
                palettes@.len() == n,
                groups.len() <= n,
                forall|i: int| 0 <= i < n ==> #[trigger] palettes@[i]@ == fade_palette(final_colors@[i], steps),
                forall|c: int| 0 <= c < n ==> #[trigger] as_int(starts@[c]) == start_of(groups, c, groups.len(), delay as int),
                total == wipe_frame_count(chars@, final_colors@, groups, steps, hold as int, delay as int, c as nat),
                total <= 0x10_0000 * 0x101 + 0x101 * 0x100,
            decreases n - c,
        {
            proof {
                lemma_row_of_below(groups, c as int, groups.len());
                lemma_fade_len(final_colors@[c as int], steps);
                match row_of(groups, c as int, groups.len()) {
                    Some(r) => {
                        assert(reveal_frame(r as int, delay as int) <= 0x10_0000 * 0x101) by (nonlinear_arith)
                            requires
                                r < 0x10_0000,
                                delay < 0x100,
                        ;
                        assert(fade_palette(final_colors@[c as int], steps).len() * hold <= 0x101 * 0x100) by (nonlinear_arith)
                            requires
                                fade_palette(final_colors@[c as int], steps).len() <= 0x101,
                                hold < 0x100,
                        ;
                    },
                    None => {},
                }
            }
            proof {
                assert(as_int(starts@[c as int]) == start_of(groups, c as int, groups.len(), delay as int));
                assert(palettes@[c as int]@.len() <= 0x101);
                assert((palettes@[c as int]@.len() as int) * (hold as int) <= 0x101 * 0x100) by (nonlinear_arith)
                    requires
                        palettes@[c as int]@.len() <= 0x101,
                        hold < 0x100,
                ;
            }
            match starts[c] {
                Some(st) => {
                    let end = st + (palettes[c].len() as u64) * (hold as u64);
                    if end > total {
                        total = end;
                    }
                },
                None => {},
            }
            c = c + 1;
        }
        let mut k: u64 = 0;
        while k < total
            invariant
                canvas.wf(),
                canvas.width == w,
                canvas.height == h,
                canvas.width < 0x4000_0000,
                canvas.height < 0x4000_0000,
                n == chars@.len(),
                final_colors@.len() == n,
                steps < 0x100,
                1 <= hold < 0x100,
                delay < 0x100,
                starts@.len() == n,
                palettes@.len() == n,
                forall|i: int| 0 <= i < n ==> #[trigger] palettes@[i]@ == fade_palette(final_colors@[i], steps),
                forall|c: int| 0 <= c < n ==> #[trigger] as_int(starts@[c]) == start_of(groups, c, groups.len(), delay as int),
                total <= 0x10_0000 * 0x101 + 0x101 * 0x100,
                steps == self.final_gradient_steps,
                delay == self.wipe_delay,
                k <= total,
                frames@.len() == k,
                forall|q: int| 0 <= q < k ==> #[trigger] frames@[q]@ == picture(
                    w,
                    h,
                    wipe_sprites(chars@, final_colors@, groups, steps, hold as int, delay as int, q, n as nat),
                ),
            decreases total - k,
        {
            let f = self.wipe_frame(canvas, chars, &starts, &palettes, hold, k, Ghost(groups), Ghost(final_colors@));
            let ghost earlier = frames@;
            frames.push(f);
            proof {
                assert forall|q: int| 0 <= q < k + 1 implies #[trigger] frames@[q]@ == picture(
                    w,
                    h,
                    wipe_sprites(chars@, final_colors@, groups, steps, hold as int, delay as int, q, n as nat),
                ) by {
                    if q < k {
                        assert(frames@[q] == earlier[q]);
                    }
                }
            }
            k = k + 1;
        }
        frames
    }

    fn wipe_frame(
        &self,
        canvas: &mut Canvas,
        chars: &[PlacedCharacter],
        starts: &Vec<Option<u64>>,
        palettes: &Vec<Vec<Color>>,
        hold: usize,
        k: u64,
        Ghost(groups): Ghost<Seq<Seq<u32>>>,
        Ghost(finals): Ghost<Seq<Color>>,
    ) -> (f: String)
        requires
            old(canvas).wf(),
            old(canvas).width < 0x4000_0000,
            old(canvas).height < 0x4000_0000,
            finals.len() == chars@.len(),
            starts@.len() == chars@.len(),
            palettes@.len() == chars@.len(),
            self.final_gradient_steps < 0x100,
            1 <= hold < 0x100,
            forall|i: int| 0 <= i < chars@.len() ==> #[trigger] palettes@[i]@ == fade_palette(finals[i], self.final_gradient_steps),
            forall|c: int| 0 <= c < chars@.len() ==> #[trigger] as_int(starts@[c]) == start_of(groups, c, groups.len(), self.wipe_delay as int),
            k < 0x1_0000_0000,
        ensures
            final(canvas).wf(),
            final(canvas).width == old(canvas).width,
            final(canvas).height == old(canvas).height,
            f@ == picture(
                old(canvas).width as nat,
                old(canvas).height as nat,
                wipe_sprites(chars@, finals, groups, self.final_gradient_steps, hold as int, self.wipe_delay as int, k as int, chars@.len()),
            ),
    {
        let mut sprites: Vec<(Coord, CharacterVisual)> = Vec::new();
        let mut c: usize = 0;
        while c < chars.len()
            invariant
                c <= chars@.len(),
                finals.len() == chars@.len(),
                starts@.len() == chars@.len(),
                palettes@.len() == chars@.len(),
                self.final_gradient_steps < 0x100,
                1 <= hold < 0x100,
                forall|i: int| 0 <= i < chars@.len() ==> #[trigger] palettes@[i]@ == fade_palette(finals[i], self.final_gradient_steps),
                forall|c: int| 0 <= c < chars@.len() ==> #[trigger] as_int(starts@[c]) == start_of(groups, c, groups.len(), self.wipe_delay as int),
                sprite_texts(sprites@) == wipe_sprites(
                    chars@,
                    finals,
                    groups,
                    self.final_gradient_steps,
                    hold as int,
                    self.wipe_delay as int,
                    k as int,
                    c as nat,
                ),
            decreases chars@.len() - c,
        {
            let ghost before_all = sprites@;
            proof {
                assert(as_int(starts@[c as int]) == start_of(groups, c as int, groups.len(), self.wipe_delay as int));
            }
            match starts[c] {
                Some(st) => {
                    if st <= k {
                        let palette = &palettes[c];
                        proof {
                            lemma_fade_len(finals[c as int], self.final_gradient_steps);
                        }
                        let q: u64 = (k - st) / (hold as u64);
                        let last = palette.len() - 1;
                        let idx: usize = if q < last as u64 { q as usize } else { last };
                        let color = palette[idx];
                        let visual = CharacterVisual::new(chars[c].symbol.as_str(), Some(ColorPair::fg(color)));
                        proof {
                            lemma_fg_text(visual, color);
                            assert(color == fade_color(fade_palette(finals[c as int], self.final_gradient_steps), k - st, hold as int));
                        }
                        let ghost before = sprites@;
                        sprites.push((chars[c].coord, visual));
                        proof {
                            assert(sprite_texts(sprites@) =~= sprite_texts(before).push((chars@[c as int].coord, formatted(visual))));
                        }
                    }
                },
                None => {},
            }
            proof {
                let spec_next = wipe_sprites(
                    chars@,
                    finals,
                    groups,
                    self.final_gradient_steps,
                    hold as int,
                    self.wipe_delay as int,
                    k as int,
                    (c + 1) as nat,
                );
                assert(sprite_texts(sprites@) == spec_next);
            }
            c = c + 1;
        }
        draw_frame(canvas, sprites.as_slice())
    }
}

proof fn lemma_extent(v: Seq<i32>, m: nat)
    requires
        1 <= m <= v.len(),
    ensures
        exists|i: int| 0 <= i < m && v[i] == least(v, m),
        exists|i: int| 0 <= i < m && v[i] == greatest(v, m),
        least(v, m) <= greatest(v, m),
    decreases m,
{
    if m > 1 {
        lemma_extent(v, (m - 1) as nat);
        let a = choose|i: int| 0 <= i < m - 1 && v[i] == least(v, (m - 1) as nat);
        let b = choose|i: int| 0 <= i < m - 1 && v[i] == greatest(v, (m - 1) as nat);
        if v[m - 1] < least(v, (m - 1) as nat) {
            assert(v[m - 1] == least(v, m));
        } else {
            assert(v[a] == least(v, m));
        }
        if v[m - 1] > greatest(v, (m - 1) as nat) {
            assert(v[m - 1] == greatest(v, m));
        } else {
            assert(v[b] == greatest(v, m));
        }
    } else {
        assert(v[0] == least(v, m));
        assert(v[0] == greatest(v, m));
    }
}

proof fn lemma_bucket_count(chars: Seq<PlacedCharacter>, direction: WipeDirection)
    requires
        chars.len() >= 1,
    ensures
        wipe_groups(chars, direction).len() <= chars.len(),
{
    let n = chars.len();
    let cols = chars.map_values(|p: PlacedCharacter| p.coord.column);
    let rows = chars.map_values(|p: PlacedCharacter| p.coord.row);
    let (left, right) = (least(cols, n), greatest(cols, n));
    let (bottom, top) = (least(rows, n), greatest(rows, n));
    let cc = left + (right - left) / 2;
    let cr = bottom + (top - bottom) / 2;
    lemma_bucket_len(Seq::new(n, |i: int| wipe_key(chars[i].coord, direction, cc, cr) as i64), Seq::new(n, |i: int| i as u32));
}

} // verus!
