//! Burn: characters ignite column by column from the bottom, burn through a
//! fire palette and cool into the final gradient.
use vstd::prelude::*;

use crate::graphics::{from_hex_splits_char, gradient_spectrum, hex_or_white, Color, Gradient};
use crate::canvas::{picture, sprite_texts, Canvas};
use crate::sorting::{key_order, sorted_keys, value_range, SortKey};
use crate::terminal::{draw_frame, tinted, tinted_sprites, PlacedCharacter};

verus! {

/// The burn effect.
#[derive(Clone, Copy, Debug, PartialEq, Eq, Structural)]
pub struct Burn;

impl Burn {
    pub fn new() -> (e: Self)
        ensures
            e == Burn,
    {
        Burn
    }

    pub fn name(&self) -> (n: &'static str)
        ensures
            n@ == "burn"@,
    {
        "burn"
    }
}

impl Default for Burn {
    fn default() -> (e: Self)
        ensures
            e == Burn,
    {
        Burn::new()
    }
}

/// The color `value` names, white when it names none.
pub fn hex(value: &str) -> (c: Color)
    requires
        !from_hex_splits_char(value@),
    ensures
        c == hex_or_white(value@),
{
    match Color::from_hex(value) {
        Some(c) => c,
        None => Color::rgb(255, 255, 255),
    }
}

/// Lowest and highest row of the text, `(0, 0)` when there is none.
pub fn text_row_bounds(rows: &[i32]) -> (r: (i32, i32))
    ensures
        rows@.len() == 0 ==> r == (0i32, 0i32),
        rows@.len() > 0 ==> {
            &&& exists|i: int| 0 <= i < rows@.len() && rows@[i] == r.0
            &&& exists|i: int| 0 <= i < rows@.len() && rows@[i] == r.1
            &&& forall|i: int| 0 <= i < rows@.len() ==> r.0 <= #[trigger] rows@[i] <= r.1
        },
{
    match value_range(rows) {
        Some(r) => r,
        None => (0, 0),
    }
}

/// The sort keys `(column, row, position)` of the characters.
pub open spec fn column_keys(columns: Seq<i32>, rows: Seq<i32>) -> Seq<SortKey> {
    Seq::new(columns.len(), |i: int| (columns[i] as i64, rows[i] as i64, i as u32))
}

/// The order in which characters ignite: columns left to right, each from its
/// lowest row up (ties in input order), as positions in the character list.
pub fn column_pending(columns: &[i32], rows: &[i32]) -> (order: Vec<usize>)
    requires
        columns@.len() == rows@.len(),
        columns@.len() <= u32::MAX,
    ensures
        order@ == column_keys(columns@, rows@).sort_by(key_order()).map_values(|k: SortKey| k.2 as usize),
{
    let mut keys: Vec<SortKey> = Vec::new();
    let mut i: usize = 0;
    while i < columns.len()
        invariant
            i <= columns@.len(),
            columns@.len() == rows@.len(),
            columns@.len() <= u32::MAX,
            keys@ == column_keys(columns@, rows@).take(i as int),
        decreases columns.len() - i,
    {
        keys.push((columns[i] as i64, rows[i] as i64, i as u32));
        proof {
            assert(keys@ =~= column_keys(columns@, rows@).take(i + 1));
        }
        i = i + 1;
    }
    proof {
        assert(keys@ =~= column_keys(columns@, rows@));
    }
    let sorted = sorted_keys(keys.as_slice());
    let mut order: Vec<usize> = Vec::new();
    let mut k: usize = 0;
    while k < sorted.len()
        invariant
            k <= sorted@.len(),
            order@ == sorted@.take(k as int).map_values(|x: SortKey| x.2 as usize),
        decreases sorted.len() - k,
    {
        order.push(sorted[k].2 as usize);
        proof {
            assert(sorted@.take(k + 1) =~= sorted@.take(k as int).push(sorted@[k as int]));
            assert(order@ =~= sorted@.take(k + 1).map_values(|x: SortKey| x.2 as usize));
        }
        k = k + 1;
    }
    proof {
        assert(sorted@.take(sorted@.len() as int) =~= sorted@);
    }
    order
}

/// The colors of a burn and how long each is held: the fire palette backwards at 20
/// frames each, forwards at 5, then the 8-step fade from the last fire color to the
/// final color at 12 (just the final color when there is no fire).
pub open spec fn timeline(fire: Seq<Color>, final_color: Color) -> Seq<(Color, u32)> {
    if fire.len() == 0 {
        seq![(final_color, 12u32)]
    } else {
        fire.reverse().map_values(|c: Color| (c, 20u32)) + fire.map_values(|c: Color| (c, 5u32))
            + gradient_spectrum(seq![fire.last(), final_color], 8).map_values(|c: Color| (c, 12u32))
    }
}

fn push_held(out: &mut Vec<(Color, u32)>, colors: &[Color], hold: u32)
    ensures
        final(out)@ == old(out)@ + colors@.map_values(|c: Color| (c, hold)),
{
    let mut i: usize = 0;
    while i < colors.len()
        invariant
            i <= colors@.len(),
            out@ == old(out)@ + colors@.take(i as int).map_values(|c: Color| (c, hold)),
        decreases colors.len() - i,
    {
        out.push((colors[i], hold));
        proof {
            assert(colors@.take(i + 1) =~= colors@.take(i as int).push(colors@[i as int]));
            assert(out@ =~= old(out)@ + colors@.take(i + 1).map_values(|c: Color| (c, hold)));
        }
        i = i + 1;
    }
    proof {
        assert(colors@.take(colors@.len() as int) =~= colors@);
    }
}

/// The color schedule of one burning character.
pub fn burn_timeline(fire: &[Color], final_color: Color) -> (t: Vec<(Color, u32)>)
    ensures
        t@ == timeline(fire@, final_color),
{
    let mut t: Vec<(Color, u32)> = Vec::new();
    if fire.len() == 0 {
        t.push((final_color, 12));
        proof {
            assert(t@ =~= seq![(final_color, 12u32)]);
        }
        return t;
    }
    let mut i: usize = fire.len();
    while i > 0
        invariant
            i <= fire@.len(),
            t@ == fire@.skip(i as int).reverse().map_values(|c: Color| (c, 20u32)),
        decreases i,
    {
        i = i - 1;
        t.push((fire[i], 20));
        proof {
            assert(fire@.skip(i as int).reverse() =~= fire@.skip(i + 1).reverse().push(fire@[i as int]));
            assert(t@ =~= fire@.skip(i as int).reverse().map_values(|c: Color| (c, 20u32)));
        }
    }
    proof {
        assert(fire@.skip(0) =~= fire@);
    }
    push_held(&mut t, fire, 5);
    let last_fire = fire[fire.len() - 1];
    let pair = vec![last_fire, final_color];
    proof {
        assert(pair@ =~= seq![fire@.last(), final_color]);
    }
    let fade = Gradient::new(pair.as_slice(), 8);
    if fade.is_empty() {
        t.push((final_color, 12));
        proof {
            assert(false);
        }
    } else {
        push_held(&mut t, fade.spectrum(), 12);
    }
    t
}


/// Frames a stage held for `hold` frames stays on screen: at least one.
pub open spec fn stage_frames(hold: u32) -> nat {
    if hold == 0 {
        1
    } else {
        hold as nat
    }
}

/// Frames a whole color schedule lasts.
pub open spec fn timeline_frames(tl: Seq<(Color, u32)>) -> nat
    decreases tl.len(),
{
    if tl.len() == 0 {
        0
    } else {
        stage_frames(tl[0].1) + timeline_frames(tl.drop_first())
    }
}

/// The stage on screen `e` frames into a schedule, and the frames of its hold still to
/// run (counting this one).
pub open spec fn stage_of(tl: Seq<(Color, u32)>, e: nat) -> (nat, nat)
    decreases tl.len(),
{
    if tl.len() == 0 {
        (0, 0)
    } else if e < stage_frames(tl[0].1) {
        (0, (tl[0].1 - e) as nat)
    } else {
        let (j, r) = stage_of(tl.drop_first(), (e - stage_frames(tl[0].1)) as nat);
        (j + 1, r)
    }
}

/// The color a burning character shows `e` frames after it ignites: that of the stage on
/// screen, the schedule's last color once it has run out.
pub open spec fn color_after(tl: Seq<(Color, u32)>, e: nat) -> Color {
    if e < timeline_frames(tl) {
        tl[stage_of(tl, e).0 as int].0
    } else {
        tl.last().0
    }
}

proof fn lemma_stage_bounds(tl: Seq<(Color, u32)>, e: nat)
    ensures
        tl.len() > 0 ==> timeline_frames(tl) >= 1,
        e < timeline_frames(tl) ==> {
            let (j, r) = stage_of(tl, e);
            &&& j < tl.len()
            &&& r <= tl[j as int].1
            &&& (r >= 1 || tl[j as int].1 == 0)
        },
    decreases tl.len(),
{
    if tl.len() > 0 {
        let f = stage_frames(tl[0].1);
        if e >= f {
            lemma_stage_bounds(tl.drop_first(), (e - f) as nat);
        }
    }
}

proof fn lemma_stage_step(tl: Seq<(Color, u32)>, e: nat)
    requires
        e < timeline_frames(tl),
    ensures
        ({
            let (j, r) = stage_of(tl, e);
            if r > 1 {
                e + 1 < timeline_frames(tl) && stage_of(tl, e + 1) == (j, (r - 1) as nat)
            } else if j + 1 < tl.len() {
                e + 1 < timeline_frames(tl) && stage_of(tl, e + 1) == (j + 1, tl[j + 1 as int].1 as nat)
            } else {
                e + 1 == timeline_frames(tl)
            }
        }),
    decreases tl.len(),
{
    let f = stage_frames(tl[0].1);
    let rest = tl.drop_first();
    lemma_stage_bounds(rest, 0);
    if e < f {
        if e + 1 >= f && rest.len() > 0 {
            assert(stage_of(rest, 0) == (0nat, rest[0].1 as nat));
            assert(rest[0] == tl[1]);
        }
    } else {
        lemma_stage_step(rest, (e - f) as nat);
        let (j, r) = stage_of(rest, (e - f) as nat);
        if j + 1 < rest.len() {
            assert(rest[j + 1 as int] == tl[j + 2 as int]);
        }
    }
}

/// A burn schedule has a stage, and its length does not depend on the final color.
proof fn lemma_timeline_shape(fire: Seq<Color>, a: Color, b: Color)
    ensures
        timeline(fire, a).len() >= 1,
        timeline_frames(timeline(fire, a)) == timeline_frames(timeline(fire, b)),
{
    let ta = timeline(fire, a);
    let tb = timeline(fire, b);
    if fire.len() > 0 {
        crate::graphics::lemma_gradient_stops(seq![fire.last(), a], 8, 0);
        crate::graphics::lemma_gradient_stops(seq![fire.last(), b], 8, 0);
    }
    assert(ta.len() == tb.len());
    assert forall|i: int| 0 <= i < ta.len() implies #[trigger] ta[i].1 == tb[i].1 by {}
    lemma_same_holds(ta, tb);
}

proof fn lemma_same_holds(a: Seq<(Color, u32)>, b: Seq<(Color, u32)>)
    requires
        a.len() == b.len(),
        forall|i: int| 0 <= i < a.len() ==> #[trigger] a[i].1 == b[i].1,
    ensures
        timeline_frames(a) == timeline_frames(b),
    decreases a.len(),
{
    if a.len() > 0 {
        assert(a[0].1 == b[0].1);
        assert forall|i: int| 0 <= i < a.len() - 1 implies #[trigger] a.drop_first()[i].1 == b.drop_first()[i].1 by {
            assert(a[i + 1].1 == b[i + 1].1);
        }
        lemma_same_holds(a.drop_first(), b.drop_first());
    }
}


/// Character `c` is listed in `order`.
pub open spec fn listed(order: Seq<usize>, c: int) -> bool {
    exists|s: int| 0 <= s < order.len() && order[s] as int == c
}

/// The ignition order lists every character exactly once.
proof fn lemma_order_permutes(columns: Seq<i32>, rows: Seq<i32>)
    requires
        columns.len() == rows.len(),
        columns.len() <= u32::MAX,
    ensures
        ({
            let order = column_keys(columns, rows).sort_by(key_order()).map_values(|k: SortKey| k.2 as usize);
            &&& order.len() == columns.len()
            &&& forall|s: int| 0 <= s < order.len() ==> #[trigger] order[s] < columns.len()
            &&& order.no_duplicates()
            &&& forall|c: int| 0 <= c < columns.len() ==> #[trigger] listed(order, c)
        }),
{
    broadcast use vstd::seq_lib::group_to_multiset_ensures;

    let keys = column_keys(columns, rows);
    let sorted = keys.sort_by(key_order());
    let order = sorted.map_values(|k: SortKey| k.2 as usize);
    crate::sorting::lemma_key_order_total();
    keys.lemma_sort_by_ensures(key_order());
    assert(keys.no_duplicates()) by {
        assert forall|i: int, j: int| 0 <= i < keys.len() && 0 <= j < keys.len() && i != j implies keys[i] != keys[j] by {
            assert(keys[i].2 == i as u32);
            assert(keys[j].2 == j as u32);
        }
    }
    keys.lemma_multiset_has_no_duplicates();
    assert(sorted.len() == keys.len()) by {
        assert(sorted.to_multiset().len() == keys.to_multiset().len());
    }
    assert forall|s: int| 0 <= s < sorted.len() implies #[trigger] sorted[s] == keys[sorted[s].2 as int] && (
    sorted[s].2 as int) < keys.len() by {
        assert(sorted.contains(sorted[s]));
        assert(sorted.to_multiset().count(sorted[s]) > 0);
        assert(keys.to_multiset().count(sorted[s]) > 0);
        assert(keys.contains(sorted[s]));
        let i = choose|i: int| 0 <= i < keys.len() && keys[i] == sorted[s];
        assert(keys[i].2 == i as u32);
    }
    assert forall|x: SortKey| sorted.to_multiset().contains(x) implies sorted.to_multiset().count(x) == 1 by {
        assert(keys.to_multiset().contains(x));
    }
    sorted.lemma_multiset_has_no_duplicates_conv();
    assert forall|s: int| 0 <= s < order.len() implies #[trigger] order[s] < columns.len() by {
        assert(sorted[s] == keys[sorted[s].2 as int]);
    }
    assert forall|a: int, b: int| 0 <= a < order.len() && 0 <= b < order.len() && a != b implies order[a] != order[b] by {
        assert(sorted[a] == keys[sorted[a].2 as int]);
        assert(sorted[b] == keys[sorted[b].2 as int]);
    }
    assert forall|c: int| 0 <= c < columns.len() implies #[trigger] listed(order, c) by {
        assert(keys.contains(keys[c]));
        assert(keys.to_multiset().count(keys[c]) > 0);
        assert(sorted.to_multiset().count(keys[c]) > 0);
        assert(sorted.contains(keys[c]));
        let s = choose|s: int| 0 <= s < sorted.len() && sorted[s] == keys[c];
        assert(keys[c].2 == c as u32);
        assert(order[s] == c);
    }
}


/// The color every character starts the burn in.
pub open spec fn ember_color() -> Color {
    Color { r: 0x83, g: 0x73, b: 0x73 }
}

/// The stops of the fire palette.
pub open spec fn fire_stops() -> Seq<Color> {
    seq![
        Color { r: 0xff, g: 0xff, b: 0xff },
        Color { r: 0xff, g: 0xf7, b: 0x5d },
        Color { r: 0xfe, g: 0x65, b: 0x0d },
        Color { r: 0x8a, g: 0x00, b: 0x3c },
        Color { r: 0x51, g: 0x01, b: 0x00 },
    ]
}

/// The fire palette: ten steps between each pair of its stops.
pub open spec fn fire_palette() -> Seq<Color> {
    gradient_spectrum(fire_stops(), 10)
}

/// The order in which the characters ignite, as positions in `chars`.
pub open spec fn ignition_order(chars: Seq<PlacedCharacter>) -> Seq<usize> {
    column_keys(
        chars.map_values(|c: PlacedCharacter| c.coord.column),
        chars.map_values(|c: PlacedCharacter| c.coord.row),
    ).sort_by(key_order()).map_values(|k: SortKey| k.2 as usize)
}

/// The color of character `c` at frame `k` once the first `lit` entries of `order` have
/// ignited: its schedule's color for the time since it ignited, the ember color before.
pub open spec fn burn_color(order: Seq<usize>, tl: Seq<(Color, u32)>, c: int, lit: int, k: int) -> Color {
    if exists|s: int| 0 <= s < lit && s < order.len() && order[s] as int == c {
        let s = choose|s: int| 0 <= s < lit && s < order.len() && order[s] as int == c;
        color_after(tl, (k - s) as nat)
    } else {
        ember_color()
    }
}

/// Every character's color at frame `k` with the first `lit` entries of `order` ignited,
/// character `c` burning toward `finals[c]`.
pub open spec fn burn_colors(order: Seq<usize>, finals: Seq<Color>, lit: int, k: int) -> Seq<Color> {
    Seq::new(finals.len(), |c: int| burn_color(order, timeline(fire_palette(), finals[c]), c, lit, k))
}

proof fn lemma_burn_color(order: Seq<usize>, tl: Seq<(Color, u32)>, c: int, lit: int, k: int, s: int)
    requires
        order.no_duplicates(),
        0 <= s < order.len(),
        order[s] as int == c,
    ensures
        burn_color(order, tl, c, lit, k) == (if s < lit {
            color_after(tl, (k - s) as nat)
        } else {
            ember_color()
        }),
{
    if exists|t: int| 0 <= t < lit && t < order.len() && order[t] as int == c {
        let t = choose|t: int| 0 <= t < lit && t < order.len() && order[t] as int == c;
        assert(t == s);
    }
    if s < lit {
        assert(0 <= s < lit && s < order.len() && order[s] as int == c);
    }
}

/// First position of `order` still burning at the start of frame `k`.
spec fn first_burning(k: int, d: int) -> int {
    if k - d + 1 > 0 {
        k - d + 1
    } else {
        0
    }
}

/// Positions of `order` ignited before frame `k`.
spec fn ignited_count(k: int, n: int) -> int {
    if k < n {
        k
    } else {
        n
    }
}

/// The burning characters at the start of frame `k`: positions `lo..hi` of `order`, each
/// with its stage and the frames left of that stage's hold.
spec fn burners(order: Seq<usize>, tls: Seq<Seq<(Color, u32)>>, lo: int, hi: int, k: int) -> Seq<(usize, usize, u32)> {
    Seq::new(
        (hi - lo) as nat,
        |i: int|
            {
                let c = order[lo + i];
                let st = stage_of(tls[c as int], (k - (lo + i)) as nat);
                (c, st.0 as usize, st.1 as u32)
            },
    )
}

impl Burn {
    /// The frames of the effect for the characters laid out on `canvas`, character `c`
    /// cooling to `final_colors[c]`. All start in the ember color; in frame `k` the `k`-th
    /// character of the ignition order catches fire, and each burning character runs
    /// through its color schedule, keeping the last color. The frames go on until the
    /// last character to ignite has run through its schedule. A single blank frame
    /// without characters.
    pub fn frames(&self, canvas: &mut Canvas, chars: &[PlacedCharacter], final_colors: &[Color]) -> (frames: Vec<String>)
        requires
            old(canvas).wf(),
            old(canvas).width < 0x4000_0000,
            old(canvas).height < 0x4000_0000,
            final_colors@.len() == chars@.len(),
            chars@.len() < 0x1000_0000,
        ensures
            final(canvas).wf(),
            final(canvas).width == old(canvas).width,
            final(canvas).height == old(canvas).height,
            ({
                let w = old(canvas).width as nat;
                let h = old(canvas).height as nat;
                let n = chars@.len();
                let d = timeline_frames(timeline(fire_palette(), ember_color()));
                if n == 0 {
                    frames@.len() == 1 && frames@[0]@ == picture(w, h, Seq::empty())
                } else {
                    &&& frames@.len() == n + d - 1
                    &&& forall|k: int| 0 <= k < frames@.len() ==> #[trigger] frames@[k]@ == picture(
                        w,
                        h,
                        tinted(chars@, burn_colors(ignition_order(chars@), final_colors@, k + 1, k)),
                    )
                }
            }),
    {
        let ghost w = canvas.width as nat;
        let ghost h = canvas.height as nat;
        let mut frames: Vec<String> = Vec::new();
        let n = chars.len();
        if n == 0 {
            let none: Vec<(crate::geometry::Coord, crate::animation::CharacterVisual)> = Vec::new();
            let f = draw_frame(canvas, none.as_slice());
            proof {
                assert(sprite_texts(none@) =~= Seq::empty());
            }
            frames.push(f);
            return frames;
        }
        let stops = vec![
            Color::rgb(0xff, 0xff, 0xff),
            Color::rgb(0xff, 0xf7, 0x5d),
            Color::rgb(0xfe, 0x65, 0x0d),
            Color::rgb(0x8a, 0x00, 0x3c),
            Color::rgb(0x51, 0x01, 0x00),
        ];
        proof {
            assert(stops@ =~= fire_stops());
        }
        let palette = Gradient::new(stops.as_slice(), 10);
        let fire = palette.spectrum();
        let ghost tls = Seq::new(n as nat, |c: int| timeline(fire_palette(), final_colors@[c]));
        let ghost d: int = timeline_frames(timeline(fire_palette(), ember_color())) as int;
        let mut timelines: Vec<Vec<(Color, u32)>> = Vec::new();
        let mut columns: Vec<i32> = Vec::new();
        let mut rows: Vec<i32> = Vec::new();
        let mut colors: Vec<Color> = Vec::new();
        let mut i: usize = 0;
        while i < n
            invariant
                n == chars@.len(),
                n == final_colors@.len(),
                fire@ == fire_palette(),
                i <= n,
                tls == Seq::new(n as nat, |c: int| timeline(fire_palette(), final_colors@[c])),
                timelines@.len() == i,
                forall|c: int| 0 <= c < i ==> (#[trigger] timelines@[c])@ == tls[c],
                columns@ == chars@.map_values(|c: PlacedCharacter| c.coord.column).take(i as int),
                rows@ == chars@.map_values(|c: PlacedCharacter| c.coord.row).take(i as int),
                colors@ == Seq::new(i as nat, |c: int| ember_color()),
            decreases n - i,
        {
            timelines.push(burn_timeline(fire, final_colors[i]));
            columns.push(chars[i].coord.column);
            rows.push(chars[i].coord.row);
            colors.push(Color::rgb(0x83, 0x73, 0x73));
            proof {
                assert(columns@ =~= chars@.map_values(|c: PlacedCharacter| c.coord.column).take(i + 1));
                assert(rows@ =~= chars@.map_values(|c: PlacedCharacter| c.coord.row).take(i + 1));
                assert(colors@ =~= Seq::new((i + 1) as nat, |c: int| ember_color()));
            }
            i = i + 1;
        }
        proof {
            assert(columns@ =~= chars@.map_values(|c: PlacedCharacter| c.coord.column));
            assert(rows@ =~= chars@.map_values(|c: PlacedCharacter| c.coord.row));
        }
        let order = column_pending(columns.as_slice(), rows.as_slice());
        let ghost pos: Seq<int> = Seq::new(n as nat, |c: int| choose|s: int| 0 <= s < n && order@[s] as int == c);
        proof {
            lemma_order_permutes(columns@, rows@);
            assert(order@ == ignition_order(chars@));
            assert forall|c: int| 0 <= c < n implies 0 <= #[trigger] pos[c] < n && order@[pos[c]] as int == c by {
                assert(listed(order@, c));
            }
            assert forall|c: int| 0 <= c < n implies #[trigger] timeline_frames(tls[c]) == d && tls[c].len() >= 1 by {
                lemma_timeline_shape(fire_palette(), final_colors@[c], ember_color());
            }
            lemma_timeline_shape(fire_palette(), ember_color(), ember_color());
            lemma_stage_bounds(timeline(fire_palette(), ember_color()), 0);
            assert forall|c: int| 0 <= c < n implies #[trigger] colors@[c] == burn_colors(order@, final_colors@, 0, 0)[c] by {
                lemma_burn_color(order@, tls[c], c, 0, 0, pos[c]);
            }
            assert(colors@ =~= burn_colors(order@, final_colors@, 0, 0));
            assert(burners(order@, tls, 0, 0, 0) =~= Seq::empty());
        }
        let mut next: usize = 0;
        let mut active: Vec<(usize, usize, u32)> = Vec::new();
        let ghost mut k: int = 0;
        loop
            invariant_except_break
                k < n + d - 1,
            invariant
                canvas.wf(),
                canvas.width == w,
                canvas.height == h,
                canvas.width < 0x4000_0000,
                canvas.height < 0x4000_0000,
                n == chars@.len(),
                n == final_colors@.len(),
                0 < n < 0x1000_0000,
                d >= 1,
                order@ == ignition_order(chars@),
                order@.len() == n,
                order@.no_duplicates(),
                forall|s: int| 0 <= s < n ==> #[trigger] order@[s] < n,
                forall|c: int| 0 <= c < n ==> 0 <= #[trigger] pos[c] < n && order@[pos[c]] as int == c,
                tls == Seq::new(n as nat, |c: int| timeline(fire_palette(), final_colors@[c])),
                forall|c: int| 0 <= c < n ==> #[trigger] timeline_frames(tls[c]) == d && tls[c].len() >= 1,
                timelines@.len() == n,
                forall|c: int| 0 <= c < n ==> (#[trigger] timelines@[c])@ == tls[c],
                0 <= k <= n + d - 1,
                next as int == ignited_count(k, n as int),
                frames@.len() == k,
                forall|q: int| 0 <= q < k ==> #[trigger] frames@[q]@ == picture(
                    w,
                    h,
                    tinted(chars@, burn_colors(order@, final_colors@, q + 1, q)),
                ),
                colors@ == burn_colors(order@, final_colors@, k, k),
                active@ == burners(order@, tls, first_burning(k, d), ignited_count(k, n as int), k),
            ensures
                k == n + d - 1,
            decreases n + d - 1 - k,
        {
            let ghost lo = first_burning(k, d);
            let ghost hi = ignited_count(k + 1, n as int);
            if next < n {
                let idx = order[next];
                proof {
                    assert(order@[k] == idx);
                    lemma_stage_bounds(tls[idx as int], 0);
                }
                next = next + 1;
                let (c0, h0) = timelines[idx][0];
                colors.set(idx, c0);
                active.push((idx, 0, h0));
                proof {
                    assert(active@ =~= burners(order@, tls, lo, hi, k));
                }
            }
            proof {
                assert forall|c: int| 0 <= c < n implies #[trigger] colors@[c] == burn_colors(order@, final_colors@, k + 1, k)[c] by {
                    lemma_burn_color(order@, tls[c], c, k, k, pos[c]);
                    lemma_burn_color(order@, tls[c], c, k + 1, k, pos[c]);
                }
                assert(colors@ =~= burn_colors(order@, final_colors@, k + 1, k));
                assert(active@ == burners(order@, tls, lo, hi, k));
            }
            let sprites = tinted_sprites(chars, colors.as_slice());
            let f = draw_frame(canvas, sprites.as_slice());
            let ghost earlier = frames@;
            frames.push(f);
            proof {
                assert forall|q: int| 0 <= q < k + 1 implies #[trigger] frames@[q]@ == picture(
                    w,
                    h,
                    tinted(chars@, burn_colors(order@, final_colors@, q + 1, q)),
                ) by {
                    if q < k {
                        assert(frames@[q] == earlier[q]);
                    }
                }
            }
            let ghost lo1 = first_burning(k + 1, d);
            let mut still: Vec<(usize, usize, u32)> = Vec::new();
            let mut i: usize = 0;
            while i < active.len()
                invariant
                    n == chars@.len(),
                    n == final_colors@.len(),
                    d >= 1,
                    order@.len() == n,
                    order@.no_duplicates(),
                    forall|s: int| 0 <= s < n ==> #[trigger] order@[s] < n,
                    forall|c: int| 0 <= c < n ==> 0 <= #[trigger] pos[c] < n && order@[pos[c]] as int == c,
                    tls == Seq::new(n as nat, |c: int| timeline(fire_palette(), final_colors@[c])),
                    forall|c: int| 0 <= c < n ==> #[trigger] timeline_frames(tls[c]) == d && tls[c].len() >= 1,
                    timelines@.len() == n,
                    forall|c: int| 0 <= c < n ==> (#[trigger] timelines@[c])@ == tls[c],
                    0 <= k < n + d - 1,
                    lo == first_burning(k, d),
                    lo1 == first_burning(k + 1, d),
                    hi == ignited_count(k + 1, n as int),
                    lo <= lo1 <= hi,
                    active@ == burners(order@, tls, lo, hi, k),
                    0 <= i <= active@.len(),
                    still@ == burners(order@, tls, lo1, if lo + i > lo1 { lo + i } else { lo1 }, k + 1),
                    colors@.len() == n,
                    forall|c: int|
                        0 <= c < n ==> #[trigger] colors@[c] == (if lo + i <= pos[c] < hi {
                            burn_color(order@, tls[c], c, k + 1, k)
                        } else {
                            burn_color(order@, tls[c], c, k + 1, k + 1)
                        }),
                decreases active.len() - i,
            {
                let (idx, stage, rem) = active[i];
                let ghost s = lo + i;
                let ghost tl = tls[idx as int];
                let ghost e = (k - s) as nat;
                proof {
                    assert(order@[s] == idx);
                    assert(pos[idx as int] == s);
                    lemma_stage_bounds(tl, e);
                    lemma_stage_step(tl, e);
                    lemma_burn_color(order@, tl, idx as int, k + 1, k, s);
                    lemma_burn_color(order@, tl, idx as int, k + 1, k + 1, s);
                }
                let ghost before = still@;
                let r2 = if rem > 0 { rem - 1 } else { 0 };
                if r2 == 0 {
                    let st = stage + 1;
                    if st < timelines[idx].len() {
                        let (cc, hh) = timelines[idx][st];
                        colors.set(idx, cc);
                        still.push((idx, st, hh));
                    }
                } else {
                    still.push((idx, stage, r2));
                }
                proof {
                    assert(still@ =~= burners(order@, tls, lo1, if lo + i + 1 > lo1 { lo + i + 1 } else { lo1 }, k + 1));
                    assert forall|c: int|
                        0 <= c < n implies #[trigger] colors@[c] == (if lo + i + 1 <= pos[c] < hi {
                            burn_color(order@, tls[c], c, k + 1, k)
                        } else {
                            burn_color(order@, tls[c], c, k + 1, k + 1)
                        }) by {
                        if c != idx as int {
                            assert(pos[c] != s);
                        }
                    }
                }
                i = i + 1;
            }
            proof {
                assert forall|c: int| 0 <= c < n implies #[trigger] colors@[c] == burn_colors(order@, final_colors@, k + 1, k + 1)[c] by {
                    if !(lo <= pos[c] < hi) {
                        lemma_burn_color(order@, tls[c], c, k + 1, k, pos[c]);
                        lemma_burn_color(order@, tls[c], c, k + 1, k + 1, pos[c]);
                    }
                }
                assert(colors@ =~= burn_colors(order@, final_colors@, k + 1, k + 1));
            }
            active = still;
            proof {
                k = k + 1;
                assert(active@ =~= burners(order@, tls, first_burning(k, d), ignited_count(k, n as int), k));
            }
            if next >= n && active.len() == 0 {
                break;
            }
        }
        frames
    }
}

} // verus!
