//! Highlight: a beam sweeps across the text and leaves the characters lit.
use vstd::prelude::*;

use crate::animation::CharacterVisual;
use crate::canvas::{picture, sprite_texts, Canvas};
use crate::geometry::Coord;
use crate::graphics::{Color, ColorPair};
use crate::sorting::{group_views, key_order, runs, sorted_keys, split_runs, SortKey};
use crate::terminal::{draw_frame, tinted, tinted_sprites, PlacedCharacter};

verus! {

/// The highlight effect.
#[derive(Clone, Copy, Debug, PartialEq, Eq, Structural)]
pub struct Highlight;

impl Highlight {
    pub fn new() -> (e: Self)
        ensures
            e == Highlight,
    {
        Highlight
    }

    pub fn name(&self) -> (n: &'static str)
        ensures
            n@ == "highlight"@,
    {
        "highlight"
    }
}

impl Default for Highlight {
    fn default() -> (e: Self)
        ensures
            e == Highlight,
    {
        Highlight::new()
    }
}

/// The sort keys `(column, -row, id)`: columns left to right, each top to bottom.
pub open spec fn sweep_keys(columns: Seq<i32>, rows: Seq<i32>, ids: Seq<u32>) -> Seq<SortKey> {
    Seq::new(ids.len(), |i: int| (columns[i] as i64, (0 - rows[i]) as i64, ids[i]))
}

/// The columns the beam lights in turn: left to right, each listing its characters from
/// the top down.
pub fn column_groups(columns: &[i32], rows: &[i32], ids: &[u32]) -> (groups: Vec<Vec<u32>>)
    requires
        columns@.len() == ids@.len(),
        rows@.len() == ids@.len(),
    ensures
        group_views(groups@) == runs(sweep_keys(columns@, rows@, ids@).sort_by(key_order())),
{
    let mut keys: Vec<SortKey> = Vec::new();
    let mut i: usize = 0;
    while i < ids.len()
        invariant
            i <= ids@.len(),
            columns@.len() == ids@.len(),
            rows@.len() == ids@.len(),
            keys@ == sweep_keys(columns@, rows@, ids@).take(i as int),
        decreases ids.len() - i,
    {
        keys.push((columns[i] as i64, 0 - rows[i] as i64, ids[i]));
        proof {
            assert(keys@ =~= sweep_keys(columns@, rows@, ids@).take(i + 1));
        }
        i = i + 1;
    }
    proof {
        assert(keys@ =~= sweep_keys(columns@, rows@, ids@));
    }
    let sorted = sorted_keys(keys.as_slice());
    split_runs(sorted.as_slice())
}

/// The column of the last character of a group, looked up by identifier.
pub fn last_column_of(group: &[u32], columns_by_id: &[i32]) -> (c: Option<i32>)
    ensures
        c == (if group@.len() > 0 && (group@.last() as int) < columns_by_id@.len() {
            Some(columns_by_id@[group@.last() as int])
        } else {
            None
        }),
{
    if group.len() == 0 {
        return None;
    }
    let id = group[group.len() - 1] as usize;
    if id < columns_by_id.len() {
        Some(columns_by_id[id])
    } else {
        None
    }
}

/// Frames each character stays on the highlight color.
pub const HIGHLIGHT_FRAMES: usize = 5;

/// Character `k` is listed in `group`.
pub open spec fn in_group(group: Seq<u32>, k: int) -> bool {
    exists|j: int| 0 <= j < group.len() && group[j] as int == k
}

/// Starts the highlight of a group: each of its characters gets the full highlight time.
pub fn activate_group(remaining: &mut Vec<Option<usize>>, group: &[u32])
    ensures
        final(remaining)@.len() == old(remaining)@.len(),
        forall|k: int|
            0 <= k < old(remaining)@.len() ==> #[trigger] final(remaining)@[k] == (if in_group(group@, k) {
                Some(HIGHLIGHT_FRAMES)
            } else {
                old(remaining)@[k]
            }),
{
    let mut i: usize = 0;
    while i < group.len()
        invariant
            i <= group@.len(),
            remaining@.len() == old(remaining)@.len(),
            forall|k: int|
                0 <= k < old(remaining)@.len() ==> #[trigger] remaining@[k] == (if in_group(group@.take(i as int), k) {
                    Some(HIGHLIGHT_FRAMES)
                } else {
                    old(remaining)@[k]
                }),
        decreases group.len() - i,
    {
        let id = group[i] as usize;
        if id < remaining.len() {
            remaining.set(id, Some(HIGHLIGHT_FRAMES));
        }
        proof {
            let next = group@.take(i + 1);
            let prev = group@.take(i as int);
            assert forall|k: int| 0 <= k < old(remaining)@.len() implies #[trigger] remaining@[k] == (if in_group(
                next,
                k,
            ) {
                Some(HIGHLIGHT_FRAMES)
            } else {
                old(remaining)@[k]
            }) by {
                if in_group(prev, k) {
                    let w = choose|w: int| 0 <= w < prev.len() && prev[w] as int == k;
                    assert(next[w] as int == k);
                }
                if in_group(next, k) && !in_group(prev, k) {
                    let w = choose|w: int| 0 <= w < next.len() && next[w] as int == k;
                    if w < i {
                        assert(prev[w] as int == k);
                    }
                    assert(group@[i as int] as int == k);
                }
                if k == id as int {
                    assert(next[i as int] as int == k);
                }
            }
        }
        i = i + 1;
    }
    proof {
        assert(group@.take(group@.len() as int) =~= group@);
    }
}

/// A character still on the highlight color.
pub open spec fn is_lit(o: Option<usize>) -> bool {
    match o {
        Some(left) => left > 0,
        None => false,
    }
}

/// Whether any character is still on the highlight color.
pub fn beam_live(remaining: &Vec<Option<usize>>) -> (b: bool)
    ensures
        b == (exists|k: int| 0 <= k < remaining@.len() && is_lit(#[trigger] remaining@[k])),
{
    let mut i: usize = 0;
    while i < remaining.len()
        invariant
            i <= remaining@.len(),
            forall|k: int| 0 <= k < i ==> !is_lit(#[trigger] remaining@[k]),
        decreases remaining.len() - i,
    {
        match remaining[i] {
            Some(left) => {
                if left > 0 {
                    return true;
                }
            },
            None => {},
        }
        i = i + 1;
    }
    false
}

/// One frame of highlight time passes for every lit character.
pub fn tick(remaining: &mut Vec<Option<usize>>)
    ensures
        final(remaining)@.len() == old(remaining)@.len(),
        forall|k: int|
            0 <= k < old(remaining)@.len() ==> #[trigger] final(remaining)@[k] == (match old(remaining)@[k] {
                Some(left) => Some(if left > 0 { (left - 1) as usize } else { 0 }),
                None => None,
            }),
{
    let mut i: usize = 0;
    while i < remaining.len()
        invariant
            i <= remaining@.len(),
            remaining@.len() == old(remaining)@.len(),
            forall|k: int|
                0 <= k < i ==> #[trigger] remaining@[k] == (match old(remaining)@[k] {
                    Some(left) => Some(if left > 0 { (left - 1) as usize } else { 0 }),
                    None => None,
                }),
            forall|k: int| i <= k < remaining@.len() ==> #[trigger] remaining@[k] == old(remaining)@[k],
        decreases remaining.len() - i,
    {
        match remaining[i] {
            Some(left) => {
                if left > 0 {
                    remaining.set(i, Some(left - 1));
                }
            },
            None => {},
        }
        i = i + 1;
    }
}

/// The beam's color.
pub open spec fn highlight_color() -> Color {
    Color { r: 0xff, g: 0xcb, b: 0x6b }
}

/// The color of characters the beam has passed.
pub open spec fn match_color() -> Color {
    Color { r: 0x89, g: 0xdd, b: 0xff }
}

/// The muted color of characters the beam has not reached.
pub open spec fn unread_color() -> Color {
    Color { r: 0x6c, g: 0x70, b: 0x86 }
}

/// The color a character's highlight state shows.
pub open spec fn lit_color(o: Option<usize>) -> Color {
    match o {
        Some(left) => if left > 0 { highlight_color() } else { match_color() },
        None => unread_color(),
    }
}

fn lit_color_exec(o: Option<usize>) -> (c: Color)
    ensures
        c == lit_color(o),
{
    match o {
        Some(left) => if left > 0 { Color::rgb(0xff, 0xcb, 0x6b) } else { Color::rgb(0x89, 0xdd, 0xff) },
        None => Color::rgb(0x6c, 0x70, 0x86),
    }
}

/// The states after the characters of `group` start their highlight.
pub open spec fn activated(rem: Seq<Option<usize>>, group: Seq<u32>) -> Seq<Option<usize>> {
    Seq::new(rem.len(), |k: int| if in_group(group, k) { Some(HIGHLIGHT_FRAMES) } else { rem[k] })
}

/// The states one frame later.
pub open spec fn ticked(rem: Seq<Option<usize>>) -> Seq<Option<usize>> {
    Seq::new(rem.len(), |k: int| match rem[k] {
        Some(left) => Some(if left > 0 { (left - 1) as usize } else { 0usize }),
        None => None,
    })
}

/// The states shown in sweep step `j`: the `j`-th column starts its highlight, if there
/// is one.
pub open spec fn shown_at(groups: Seq<Seq<u32>>, rem: Seq<Option<usize>>, j: int) -> Seq<Option<usize>> {
    if j < groups.len() { activated(rem, groups[j]) } else { rem }
}

/// The states of `n` characters before sweep step `j`.
pub open spec fn lit_before(groups: Seq<Seq<u32>>, n: nat, j: nat) -> Seq<Option<usize>>
    decreases j,
{
    if j == 0 {
        Seq::new(n, |k: int| None)
    } else {
        ticked(shown_at(groups, lit_before(groups, n, (j - 1) as nat), j - 1))
    }
}

/// Whether any character is still on the highlight color.
pub open spec fn any_lit(rem: Seq<Option<usize>>) -> bool {
    exists|k: int| 0 <= k < rem.len() && is_lit(#[trigger] rem[k])
}

/// The sweep goes on at step `j`: a column is left to light or a character still glows.
pub open spec fn sweeping(groups: Seq<Seq<u32>>, n: nat, j: nat) -> bool {
    j < groups.len() || any_lit(lit_before(groups, n, j))
}

/// The colors of the characters' states.
pub open spec fn lit_colors(rem: Seq<Option<usize>>) -> Seq<Color> {
    Seq::new(rem.len(), |k: int| lit_color(rem[k]))
}

/// Each character in the color of its state.
pub open spec fn lit_sprites(chars: Seq<PlacedCharacter>, rem: Seq<Option<usize>>) -> Seq<(Coord, Seq<char>)> {
    tinted(chars, lit_colors(rem))
}

/// The final states: every character the beam reached settled.
pub open spec fn settled(rem: Seq<Option<usize>>) -> Seq<Option<usize>> {
    Seq::new(rem.len(), |k: int| match rem[k] {
        Some(_) => Some(0usize),
        None => None,
    })
}

/// The largest time left on the highlight color.
pub open spec fn max_left(rem: Seq<Option<usize>>) -> nat
    decreases rem.len(),
{
    if rem.len() == 0 {
        0
    } else {
        let m = max_left(rem.drop_last());
        let v: nat = match rem.last() {
            Some(left) => left as nat,
            None => 0,
        };
        if v > m { v } else { m }
    }
}

proof fn lemma_lit_before_len(groups: Seq<Seq<u32>>, n: nat, j: nat)
    ensures
        lit_before(groups, n, j).len() == n,
    decreases j,
{
    if j > 0 {
        lemma_lit_before_len(groups, n, (j - 1) as nat);
    }
}

proof fn lemma_max_left(rem: Seq<Option<usize>>)
    requires
        forall|k: int| 0 <= k < rem.len() ==> (#[trigger] rem[k] matches Some(left) ==> left <= HIGHLIGHT_FRAMES),
    ensures
        max_left(rem) <= HIGHLIGHT_FRAMES,
        any_lit(rem) <==> max_left(rem) > 0,
        max_left(ticked(rem)) == (if max_left(rem) > 0 { max_left(rem) - 1 } else { 0 }),
    decreases rem.len(),
{
    if rem.len() > 0 {
        let r = rem.drop_last();
        assert forall|k: int| 0 <= k < r.len() implies (#[trigger] r[k] matches Some(left) ==> left <= HIGHLIGHT_FRAMES) by {
            assert(r[k] == rem[k]);
        }
        lemma_max_left(r);
        assert(ticked(rem).drop_last() =~= ticked(r));
        let last = rem.len() - 1;
        if any_lit(rem) {
            let k = choose|k: int| 0 <= k < rem.len() && is_lit(#[trigger] rem[k]);
            if k < last {
                assert(r[k] == rem[k]);
                assert(any_lit(r));
            }
        }
        if any_lit(r) {
            let k = choose|k: int| 0 <= k < r.len() && is_lit(#[trigger] r[k]);
            assert(rem[k] == r[k]);
        }
        if is_lit(rem[last]) {
            assert(is_lit(rem[last]));
        }
    } else {
        assert(ticked(rem) =~= rem);
    }
}

fn paint_states(chars: &[PlacedCharacter], rem: &Vec<Option<usize>>) -> (sprites: Vec<(Coord, CharacterVisual)>)
    requires
        rem@.len() == chars@.len(),
    ensures
        sprite_texts(sprites@) == lit_sprites(chars@, rem@),
{
    let mut colors: Vec<Color> = Vec::new();
    let mut k: usize = 0;
    while k < rem.len()
        invariant
            k <= rem@.len(),
            colors@ == lit_colors(rem@).take(k as int),
        decreases rem.len() - k,
    {
        colors.push(lit_color_exec(rem[k]));
        proof {
            assert(colors@ =~= lit_colors(rem@).take(k + 1));
        }
        k = k + 1;
    }
    proof {
        assert(colors@ =~= lit_colors(rem@));
    }
    tinted_sprites(chars, colors.as_slice())
}

/// The columns of the characters' layout, in sweep order.
pub open spec fn sweep_groups(chars: Seq<PlacedCharacter>) -> Seq<Seq<u32>> {
    runs(
        sweep_keys(
            chars.map_values(|c: PlacedCharacter| c.coord.column),
            chars.map_values(|c: PlacedCharacter| c.coord.row),
            chars.map_values(|c: PlacedCharacter| c.id.0),
        ).sort_by(key_order()),
    )
}

impl Highlight {
    /// The frames of the effect for characters laid out on `canvas` (character `k` with
    /// identifier `k`): first all muted; then one frame per sweep step, the beam lighting
    /// the next column (left to right) each step and every lit character fading to the
    /// match color after `HIGHLIGHT_FRAMES` frames, until every column has been lit and
    /// nothing glows; then all settled. A single blank frame without characters.
    pub fn frames(&self, canvas: &mut Canvas, chars: &[PlacedCharacter]) -> (frames: Vec<String>)
        requires
            old(canvas).wf(),
            old(canvas).width < 0x4000_0000,
            old(canvas).height < 0x4000_0000,
            chars@.len() < 0x1000_0000,
            forall|k: int| 0 <= k < chars@.len() ==> (#[trigger] chars@[k]).id.0 == k,
        ensures
            final(canvas).wf(),
            final(canvas).width == old(canvas).width,
            final(canvas).height == old(canvas).height,
            ({
                let w = old(canvas).width as nat;
                let h = old(canvas).height as nat;
                let n = chars@.len();
                let g = sweep_groups(chars@);
                let t = (frames@.len() - 2) as nat;
                if n == 0 {
                    frames@.len() == 1 && frames@[0]@ == picture(w, h, Seq::empty())
                } else {
                    &&& frames@.len() >= 2
                    &&& frames@[0]@ == picture(w, h, lit_sprites(chars@, lit_before(g, n, 0)))
                    &&& forall|j: nat| j < t ==> #[trigger] sweeping(g, n, j)
                    &&& forall|j: int| 0 <= j < t ==> #[trigger] frames@[j + 1]@ == picture(
                        w,
                        h,
                        lit_sprites(chars@, shown_at(g, lit_before(g, n, j as nat), j)),
                    )
                    &&& !sweeping(g, n, t)
                    &&& frames@[t as int + 1]@ == picture(w, h, lit_sprites(chars@, settled(lit_before(g, n, t))))
                }
            }),
    {
        let ghost w = canvas.width as nat;
        let ghost h = canvas.height as nat;
        let mut frames: Vec<String> = Vec::new();
        if chars.len() == 0 {
            let none: Vec<(Coord, CharacterVisual)> = Vec::new();
            let f = draw_frame(canvas, none.as_slice());
            proof {
                assert(sprite_texts(none@) =~= Seq::empty());
            }
            frames.push(f);
            return frames;
        }
        let n = chars.len();
        let mut columns: Vec<i32> = Vec::new();
        let mut rows: Vec<i32> = Vec::new();
        let mut ids: Vec<u32> = Vec::new();
        let mut i: usize = 0;
        while i < n
            invariant
                n == chars@.len(),
                i <= n,
                columns@ == chars@.map_values(|c: PlacedCharacter| c.coord.column).take(i as int),
                rows@ == chars@.map_values(|c: PlacedCharacter| c.coord.row).take(i as int),
                ids@ == chars@.map_values(|c: PlacedCharacter| c.id.0).take(i as int),
            decreases n - i,
        {
            columns.push(chars[i].coord.column);
            rows.push(chars[i].coord.row);
            ids.push(chars[i].id.0);
            proof {
                assert(columns@ =~= chars@.map_values(|c: PlacedCharacter| c.coord.column).take(i + 1));
                assert(rows@ =~= chars@.map_values(|c: PlacedCharacter| c.coord.row).take(i + 1));
                assert(ids@ =~= chars@.map_values(|c: PlacedCharacter| c.id.0).take(i + 1));
            }
            i = i + 1;
        }
        proof {
            assert(columns@ =~= chars@.map_values(|c: PlacedCharacter| c.coord.column));
            assert(rows@ =~= chars@.map_values(|c: PlacedCharacter| c.coord.row));
            assert(ids@ =~= chars@.map_values(|c: PlacedCharacter| c.id.0));
        }
        let groups = column_groups(&columns, &rows, &ids);
        let ghost g = sweep_groups(chars@);
        proof {
            assert(group_views(groups@) == g);
        }
        let mut remaining: Vec<Option<usize>> = Vec::new();
        while remaining.len() < n
            invariant
                n == chars@.len(),
                remaining@.len() <= n,
                forall|k: int| 0 <= k < remaining@.len() ==> remaining@[k] is None,
            decreases n - remaining.len(),
        {
            remaining.push(None);
        }
        proof {
            assert(remaining@ =~= lit_before(g, n as nat, 0));
        }
        let first = paint_states(chars, &remaining);
        frames.push(draw_frame(canvas, first.as_slice()));
        let mut gi: usize = 0;
        let ghost mut j: nat = 0;
        loop
            invariant
                canvas.wf(),
                canvas.width == w,
                canvas.height == h,
                canvas.width < 0x4000_0000,
                canvas.height < 0x4000_0000,
                n == chars@.len(),
                n > 0,
                group_views(groups@) == g,
                remaining@ == lit_before(g, n as nat, j),
                gi == (if j < g.len() { j } else { g.len() as nat }),
                remaining@.len() == n,
                forall|k: int| 0 <= k < remaining@.len() ==> (#[trigger] remaining@[k] matches Some(left) ==> left <= HIGHLIGHT_FRAMES),
                frames@.len() == j + 1,
                frames@[0]@ == picture(w, h, lit_sprites(chars@, lit_before(g, n as nat, 0))),
                forall|q: nat| q < j ==> #[trigger] sweeping(g, n as nat, q),
                forall|q: int| 0 <= q < j ==> #[trigger] frames@[q + 1]@ == picture(
                    w,
                    h,
                    lit_sprites(chars@, shown_at(g, lit_before(g, n as nat, q as nat), q)),
                ),
            ensures
                !sweeping(g, n as nat, j),
            decreases (g.len() - gi) * 6 + max_left(remaining@),
        {
            let activating = gi < groups.len();
            let live = beam_live(&remaining);
            proof {
                lemma_max_left(remaining@);
                assert(groups@.len() == g.len());
            }
            if !activating && !live {
                proof {
                    assert(!any_lit(remaining@));
                }
                break;
            }
            let ghost before = remaining@;
            if activating {
                activate_group(&mut remaining, groups[gi].as_slice());
                proof {
                    assert(groups@[gi as int]@ == g[gi as int]);
                    assert(remaining@ =~= activated(before, g[j as int]));
                }
                gi = gi + 1;
            }
            proof {
                assert(remaining@ == shown_at(g, before, j as int));
                assert forall|k: int| 0 <= k < remaining@.len() implies (#[trigger] remaining@[k] matches Some(left) ==> left <= HIGHLIGHT_FRAMES) by {
                    if activating {
                        assert(remaining@[k] == activated(before, g[j as int])[k]);
                    }
                }
            }
            let sprites = paint_states(chars, &remaining);
            let ghost earlier = frames@;
            let f = draw_frame(canvas, sprites.as_slice());
            frames.push(f);
            let ghost shown = remaining@;
            proof {
                assert(f@ == picture(w, h, lit_sprites(chars@, shown_at(g, lit_before(g, n as nat, j), j as int))));
            }
            tick(&mut remaining);
            proof {
                assert(remaining@ =~= ticked(shown));
                lemma_max_left(shown);
                assert(sweeping(g, n as nat, j));
                assert forall|k: int| 0 <= k < remaining@.len() implies (#[trigger] remaining@[k] matches Some(left) ==> left <= HIGHLIGHT_FRAMES) by {
                    assert(remaining@[k] == ticked(shown)[k]);
                    assert(shown[k] matches Some(l) ==> l <= HIGHLIGHT_FRAMES);
                }
                let jo = j;
                j = j + 1;
                assert(remaining@ == lit_before(g, n as nat, j));
                lemma_lit_before_len(g, n as nat, j);
                assert forall|q: nat| q < j implies #[trigger] sweeping(g, n as nat, q) by {
                    if q < jo {
                        assert(sweeping(g, n as nat, q));
                    }
                }
                assert forall|q: int| 0 <= q < j implies #[trigger] frames@[q + 1]@ == picture(
                    w,
                    h,
                    lit_sprites(chars@, shown_at(g, lit_before(g, n as nat, q as nat), q)),
                ) by {
                    if q < jo {
                        assert(frames@[q + 1] == earlier[q + 1]);
                    } else {
                        assert(frames@[q + 1] == f);
                    }
                }
                lemma_max_left(remaining@);
            }
        }
        let ghost t = j;
        let mut settled_states: Vec<Option<usize>> = Vec::new();
        let mut k: usize = 0;
        while k < n
            invariant
                n == chars@.len(),
                remaining@.len() == n,
                k <= n,
                settled_states@ == settled(remaining@).take(k as int),
            decreases n - k,
        {
            let s = match remaining[k] {
                Some(_) => Some(0usize),
                None => None,
            };
            settled_states.push(s);
            proof {
                assert(settled_states@ =~= settled(remaining@).take(k + 1));
            }
            k = k + 1;
        }
        proof {
            assert(settled_states@ =~= settled(remaining@));
        }
        let last = paint_states(chars, &settled_states);
        let ghost sweep = frames@;
        frames.push(draw_frame(canvas, last.as_slice()));
        proof {
            assert forall|q: int| 0 <= q < t implies #[trigger] frames@[q + 1]@ == picture(
                w,
                h,
                lit_sprites(chars@, shown_at(g, lit_before(g, n as nat, q as nat), q)),
            ) by {
                assert(frames@[q + 1] == sweep[q + 1]);
            }
            assert(frames@[0] == sweep[0]);
        }
        frames
    }
}

} // verus!
