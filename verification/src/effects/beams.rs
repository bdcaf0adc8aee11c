//! Beams: row and column groups sweep across the text, lighting each
//! character with a short glyph gradient; a diagonal wipe then brightens
//! every character into the final gradient.
use vstd::prelude::*;

use crate::effects::random::{
    high32, lemma_xorshift_shuffled_multiset, swap_items, xorshift64, xorshift_iter, xorshift_shuffle,
    xorshift_shuffled,
};
use crate::graphics::{gradient_spectrum, Color, Gradient};
use crate::sorting::{bucket_ids, buckets, group_views, lemma_bucket_sizes, value_range};

verus! {

/// The beams effect.
#[derive(Clone, Copy, Debug, PartialEq, Eq, Structural)]
pub struct Beams;

impl Beams {
    pub fn new() -> (e: Self)
        ensures
            e == Beams,
    {
        Beams
    }

    pub fn name(&self) -> (n: &'static str)
        ensures
            n@ == "beams"@,
    {
        "beams"
    }
}

impl Default for Beams {
    fn default() -> (e: Self)
        ensures
            e == Beams,
    {
        Beams::new()
    }
}

/// The effect's xorshift64 generator; its state is never zero once seeded.
pub struct Rng(pub u64);

impl Rng {
    /// Seeds the generator; the low bit is set so the state is never zero.
    pub fn new(seed: u64) -> (r: Self)
        ensures
            r.0 == seed | 1,
    {
        Rng(seed | 1)
    }

    pub fn next_u32(&mut self) -> (v: u32)
        ensures
            final(self).0 == xorshift64(old(self).0),
            v == high32(final(self).0),
    {
        let mut x = self.0;
        x = x ^ (x << 13u64);
        x = x ^ (x >> 7u64);
        x = x ^ (x << 17u64);
        self.0 = x;
        (x >> 32u64) as u32
    }

    /// A draw in `lo..=hi`.
    pub fn randint(&mut self, lo: i32, hi: i32) -> (v: i32)
        requires
            lo <= hi,
            hi - lo < i32::MAX,
        ensures
            final(self).0 == xorshift64(old(self).0),
            v == lo + (high32(final(self).0) as int) % (hi - lo + 1),
            lo <= v <= hi,
    {
        let span = (hi - lo + 1) as u32;
        let r = self.next_u32();
        lo + (r % span) as i32
    }

    /// Shuffles `items` in place (Fisher–Yates, last position first).
    pub fn shuffle<T: Copy>(&mut self, items: &mut Vec<T>)
        ensures
            (final(items)@, final(self).0) == xorshift_shuffle(old(items)@, old(self).0),
            final(items)@.to_multiset() == old(items)@.to_multiset(),
    {
        let n = items.len();
        if n <= 1 {
            return;
        }
        proof {
            lemma_xorshift_shuffled_multiset(items@, self.0, (n - 1) as nat);
        }
        let mut i: usize = n - 1;
        while i > 0
            invariant
                i < n,
                items@.len() == n,
                xorshift_shuffled(items@, self.0, i as nat) == xorshift_shuffle(old(items)@, old(self).0),
            decreases i,
        {
            let j = (self.next_u32() as usize) % (i + 1);
            swap_items(items, i, j);
            i = i - 1;
        }
    }
}

/// How many colors the pair of stops starting at `i` is blended over: `steps[i]`,
/// else the last entry, else one; never fewer than one.
pub open spec fn pair_steps(steps: Seq<usize>, i: int) -> usize {
    let n = if 0 <= i < steps.len() {
        steps[i]
    } else if steps.len() > 0 {
        steps.last()
    } else {
        1
    };
    if n == 0 {
        1
    } else {
        n
    }
}

/// The joined gradients of the first `k` pairs of stops, each later piece without its
/// first color (the shared joint).
pub open spec fn paired_prefix(stops: Seq<Color>, steps: Seq<usize>, k: nat) -> Seq<Color>
    decreases k,
{
    if k == 0 {
        Seq::empty()
    } else {
        let out = paired_prefix(stops, steps, (k - 1) as nat);
        let piece = gradient_spectrum(seq![stops[k - 1], stops[k as int]], pair_steps(steps, k - 1));
        if out.len() == 0 {
            piece
        } else if piece.len() > 1 {
            out + piece.drop_first()
        } else {
            out
        }
    }
}

/// A spectrum through `stops` with its own step count per pair.
pub open spec fn paired_spectrum_of(stops: Seq<Color>, steps: Seq<usize>) -> Seq<Color> {
    if stops.len() <= 1 {
        stops
    } else {
        paired_prefix(stops, steps, (stops.len() - 1) as nat)
    }
}

fn append_colors(out: &mut Vec<Color>, colors: &[Color], from: usize)
    requires
        from <= colors@.len(),
    ensures
        final(out)@ == old(out)@ + colors@.skip(from as int),
{
    let mut i = from;
    while i < colors.len()
        invariant
            from <= i <= colors@.len(),
            out@ == old(out)@ + colors@.subrange(from as int, i as int),
        decreases colors.len() - i,
    {
        out.push(colors[i]);
        proof {
            assert(colors@.subrange(from as int, i + 1) =~= colors@.subrange(from as int, i as int).push(colors@[i as int]));
        }
        i = i + 1;
    }
    proof {
        assert(colors@.subrange(from as int, colors@.len() as int) =~= colors@.skip(from as int));
    }
}

/// Joins one gradient per pair of stops, pair `i` blended over `steps[i]` colors.
pub fn paired_spectrum(stops: &[Color], steps: &[usize]) -> (out: Vec<Color>)
    ensures
        out@ == paired_spectrum_of(stops@, steps@),
{
    let mut out: Vec<Color> = Vec::new();
    if stops.len() <= 1 {
        append_colors(&mut out, stops, 0);
        proof {
            assert(out@ =~= stops@);
        }
        return out;
    }
    let mut i: usize = 0;
    while i + 1 < stops.len()
        invariant
            stops@.len() >= 2,
            i + 1 <= stops@.len(),
            out@ == paired_prefix(stops@, steps@, i as nat),
        decreases stops.len() - i,
    {
        let raw = if i < steps.len() {
            steps[i]
        } else if steps.len() > 0 {
            steps[steps.len() - 1]
        } else {
            1
        };
        let n = if raw == 0 {
            1
        } else {
            raw
        };
        let pair = vec![stops[i], stops[i + 1]];
        proof {
            assert(pair@ =~= seq![stops@[i as int], stops@[i + 1]]);
        }
        let piece = Gradient::new(pair.as_slice(), n);
        let spec = piece.spectrum();
        if out.len() == 0 {
            append_colors(&mut out, spec, 0);
            proof {
                assert(spec@.skip(0) =~= spec@);
            }
        } else if spec.len() > 1 {
            append_colors(&mut out, spec, 1);
            proof {
                assert(spec@.skip(1) =~= spec@.drop_first());
            }
        }
        i = i + 1;
        proof {
            assert(out@ == paired_prefix(stops@, steps@, i as nat));
        }
    }
    out
}

/// Every symbol paired with every color, symbols outermost.
pub open spec fn beam_frames(symbols: Seq<Seq<char>>, colors: Seq<Color>) -> Seq<(Seq<char>, Color)>
    decreases symbols.len(),
{
    if symbols.len() == 0 {
        Seq::empty()
    } else {
        beam_frames(symbols.drop_last(), colors) + in_colors(symbols.last(), colors)
    }
}

/// One symbol through every color.
pub open spec fn in_colors(symbol: Seq<char>, colors: Seq<Color>) -> Seq<(Seq<char>, Color)> {
    colors.map_values(|c: Color| (symbol, c))
}

/// The views of a list of symbols.
pub open spec fn symbol_views(symbols: Seq<&str>) -> Seq<Seq<char>> {
    symbols.map_values(|s: &str| s@)
}

/// The views of a list of glyph frames.
pub open spec fn frame_views(frames: Seq<(String, Color)>) -> Seq<(Seq<char>, Color)> {
    frames.map_values(|f: (String, Color)| (f.0@, f.1))
}

/// The glyph-and-color frames of a beam: each symbol through every color.
pub fn beam_sequence(symbols: &[&str], colors: &[Color]) -> (frames: Vec<(String, Color)>)
    ensures
        frame_views(frames@) == beam_frames(symbol_views(symbols@), colors@),
{
    let mut frames: Vec<(String, Color)> = Vec::new();
    let ghost views = symbol_views(symbols@);
    let mut i: usize = 0;
    while i < symbols.len()
        invariant
            i <= symbols@.len(),
            views == symbol_views(symbols@),
            frame_views(frames@) == beam_frames(views.take(i as int), colors@),
        decreases symbols.len() - i,
    {
        let ghost before = frame_views(frames@);
        let mut j: usize = 0;
        while j < colors.len()
            invariant
                i < symbols@.len(),
                j <= colors@.len(),
                views == symbol_views(symbols@),
                frame_views(frames@) == before + in_colors(views[i as int], colors@.take(j as int)),
            decreases colors.len() - j,
        {
            let ghost prev = frames@;
            let sym = String::from_str(symbols[i]);
            frames.push((sym, colors[j]));
            proof {
                let nv = (views[i as int], colors@[j as int]);
                assert(views[i as int] == symbols@[i as int]@);
                assert(sym@ == views[i as int]);
                assert(frame_views(frames@) =~= frame_views(prev).push(nv));
                assert(colors@.take(j + 1) =~= colors@.take(j as int).push(colors@[j as int]));
                assert(in_colors(views[i as int], colors@.take(j + 1)) =~= in_colors(views[i as int], colors@.take(j as int)).push(nv));
                assert(frame_views(frames@) =~= before + in_colors(views[i as int], colors@.take(j + 1)));
            }
            j = j + 1;
        }
        proof {
            assert(colors@.take(colors@.len() as int) =~= colors@);
            assert(views.take(i + 1).drop_last() =~= views.take(i as int));
            assert(views.take(i + 1).last() == views[i as int]);
        }
        i = i + 1;
    }
    proof {
        assert(views.take(symbols@.len() as int) =~= views);
    }
    frames
}

/// Lowest and highest row of the text, `(0, 0)` when there is none.
pub fn row_extents(rows: &[i32]) -> (r: (i32, i32))
    ensures
        rows@.len() == 0 ==> r == (0i32, 0i32),
        rows@.len() > 0 ==> {
            &&& exists|i: int| 0 <= i < rows@.len() && rows@[i] == r.0
            &&& exists|i: int| 0 <= i < rows@.len() && rows@[i] == r.1
            &&& forall|i: int| 0 <= i < rows@.len() ==> r.0 <= #[trigger] rows@[i] <= r.1
        },
{
    match value_range(rows) {
        Some(r) => r,
        None => (0, 0),
    }
}

/// A beam group before it is swept: its characters in sweep order, whether it is a
/// column, its speed in tenths of a character per frame, and the frames it lingers.
pub struct GroupPlan {
    pub chars: Vec<u32>,
    pub is_column: bool,
    pub speed_tenths: i32,
    pub hold_time: i32,
}

impl View for GroupPlan {
    type V = (Seq<u32>, bool, i32, i32);

    open spec fn view(&self) -> (Seq<u32>, bool, i32, i32) {
        (self.chars@, self.is_column, self.speed_tenths, self.hold_time)
    }
}

/// The views of a list of group plans.
pub open spec fn plan_views(v: Seq<GroupPlan>) -> Seq<(Seq<u32>, bool, i32, i32)> {
    v.map_values(|p: GroupPlan| p@)
}

/// The plans before shuffling: one per row (ascending, characters right to left,
/// speed 10..=40 tenths, lingering a tenth of its length), then one per column
/// (ascending, speed 6..=10 tenths, lingering a twentieth), each drawing its speed
/// from the generator in turn.
pub open spec fn unshuffled_plans(rows: Seq<Seq<u32>>, columns: Seq<Seq<u32>>, state: u64) -> Seq<
    (Seq<u32>, bool, i32, i32),
> {
    Seq::new(
        rows.len() + columns.len(),
        |k: int|
            if k < rows.len() {
                (
                    rows[k].reverse(),
                    false,
                    (10 + (high32(xorshift_iter(state, (k + 1) as nat)) as int) % 31) as i32,
                    (rows[k].len() / 10) as i32,
                )
            } else {
                (
                    columns[k - rows.len()],
                    true,
                    (6 + (high32(xorshift_iter(state, (k + 1) as nat)) as int) % 5) as i32,
                    (columns[k - rows.len()].len() / 20) as i32,
                )
            },
    )
}

/// The beam groups of the text: row and column plans, shuffled.
pub open spec fn group_plans(rows: Seq<i32>, columns: Seq<i32>, ids: Seq<u32>, state: u64) -> (Seq<
    (Seq<u32>, bool, i32, i32),
>, u64) {
    let rb = buckets(rows.map_values(|r: i32| r as i64), ids);
    let cb = buckets(columns.map_values(|c: i32| c as i64), ids);
    let plans = unshuffled_plans(rb, cb, state);
    let n = plans.len();
    let order = xorshift_shuffle(Seq::new(n, |i: int| i as usize), xorshift_iter(state, n));
    (Seq::new(n, |m: int| plans[order.0[m] as int]), order.1)
}

fn widen(values: &[i32]) -> (out: Vec<i64>)
    ensures
        out@ == values@.map_values(|v: i32| v as i64),
{
    let mut out: Vec<i64> = Vec::new();
    let mut i: usize = 0;
    while i < values.len()
        invariant
            i <= values@.len(),
            out@ == values@.take(i as int).map_values(|v: i32| v as i64),
        decreases values.len() - i,
    {
        out.push(values[i] as i64);
        proof {
            assert(values@.take(i + 1) =~= values@.take(i as int).push(values@[i as int]));
            assert(out@ =~= values@.take(i + 1).map_values(|v: i32| v as i64));
        }
        i = i + 1;
    }
    proof {
        assert(values@.take(values@.len() as int) =~= values@);
    }
    out
}

fn copy_ids(v: &Vec<u32>) -> (out: Vec<u32>)
    ensures
        out@ == v@,
{
    let mut out: Vec<u32> = Vec::new();
    let mut i: usize = 0;
    while i < v.len()
        invariant
            i <= v@.len(),
            out@ == v@.take(i as int),
        decreases v.len() - i,
    {
        out.push(v[i]);
        proof {
            assert(out@ =~= v@.take(i + 1));
        }
        i = i + 1;
    }
    proof {
        assert(v@.take(v@.len() as int) =~= v@);
    }
    out
}

fn reversed_ids(v: &Vec<u32>) -> (out: Vec<u32>)
    ensures
        out@ == v@.reverse(),
{
    let mut out: Vec<u32> = Vec::new();
    let mut i: usize = v.len();
    while i > 0
        invariant
            i <= v@.len(),
            out@ == v@.skip(i as int).reverse(),
        decreases i,
    {
        i = i - 1;
        out.push(v[i]);
        proof {
            assert(out@ =~= v@.skip(i as int).reverse());
        }
    }
    proof {
        assert(v@.skip(0) =~= v@);
    }
    out
}

/// The row and column groups of the text, in the order they are swept.
pub fn build_groups(rows: &[i32], columns: &[i32], ids: &[u32], rng: &mut Rng) -> (groups: Vec<GroupPlan>)
    requires
        rows@.len() == ids@.len(),
        columns@.len() == ids@.len(),
        ids@.len() <= i32::MAX,
    ensures
        (plan_views(groups@), final(rng).0) == group_plans(rows@, columns@, ids@, old(rng).0),
{
    let row_keys = widen(rows);
    let column_keys = widen(columns);
    let row_buckets = bucket_ids(row_keys.as_slice(), ids);
    let column_buckets = bucket_ids(column_keys.as_slice(), ids);
    let ghost rb = group_views(row_buckets@);
    let ghost cb = group_views(column_buckets@);
    proof {
        lemma_bucket_sizes(row_keys@, ids@);
        lemma_bucket_sizes(column_keys@, ids@);
    }
    let ghost state = rng.0;
    let mut plans: Vec<GroupPlan> = Vec::new();
    let mut k: usize = 0;
    while k < row_buckets.len()
        invariant
            k <= row_buckets@.len(),
            rb == group_views(row_buckets@),
            cb == group_views(column_buckets@),
            forall|g: int| 0 <= g < rb.len() ==> #[trigger] rb[g].len() <= ids@.len(),
            ids@.len() <= i32::MAX,
            rng.0 == xorshift_iter(state, k as nat),
            plan_views(plans@) == unshuffled_plans(rb, cb, state).take(k as int),
        decreases row_buckets.len() - k,
    {
        proof {
            assert(rb[k as int] == row_buckets@[k as int]@);
            assert(rb[k as int].len() <= ids@.len());
        }
        let chars = reversed_ids(&row_buckets[k]);
        let len = row_buckets[k].len();
        let speed = rng.randint(10, 40);
        let ghost prev = plans@;
        let plan = GroupPlan { chars, is_column: false, speed_tenths: speed, hold_time: len as i32 / 10 };
        plans.push(plan);
        proof {
            assert(xorshift_iter(state, (k + 1) as nat) == xorshift64(xorshift_iter(state, k as nat)));
            let all = unshuffled_plans(rb, cb, state);
            assert(plan@ == all[k as int]);
            assert(plan_views(plans@) =~= plan_views(prev).push(plan@));
            assert(all.take(k + 1) =~= all.take(k as int).push(all[k as int]));
            assert(plan_views(plans@) =~= unshuffled_plans(rb, cb, state).take(k + 1));
        }
        k = k + 1;
    }
    let mut c: usize = 0;
    while c < column_buckets.len()
        invariant
            c <= column_buckets@.len(),
            k == row_buckets@.len(),
            rb == group_views(row_buckets@),
            cb == group_views(column_buckets@),
            forall|g: int| 0 <= g < cb.len() ==> #[trigger] cb[g].len() <= ids@.len(),
            ids@.len() <= i32::MAX,
            rng.0 == xorshift_iter(state, (k + c) as nat),
            plan_views(plans@) == unshuffled_plans(rb, cb, state).take((k + c) as int),
        decreases column_buckets.len() - c,
    {
        proof {
            assert(cb[c as int] == column_buckets@[c as int]@);
            assert(cb[c as int].len() <= ids@.len());
        }
        let chars = copy_ids(&column_buckets[c]);
        let len = column_buckets[c].len();
        let speed = rng.randint(6, 10);
        let ghost prev = plans@;
        let plan = GroupPlan { chars, is_column: true, speed_tenths: speed, hold_time: len as i32 / 20 };
        plans.push(plan);
        proof {
            assert(xorshift_iter(state, (k + c + 1) as nat) == xorshift64(xorshift_iter(state, (k + c) as nat)));
            let all = unshuffled_plans(rb, cb, state);
            assert(plan@ == all[(k + c) as int]);
            assert(plan_views(plans@) =~= plan_views(prev).push(plan@));
            assert(all.take(k + c + 1) =~= all.take((k + c) as int).push(all[(k + c) as int]));
            assert(plan_views(plans@) =~= unshuffled_plans(rb, cb, state).take(k + c + 1));
        }
        c = c + 1;
    }
    let ghost all = unshuffled_plans(rb, cb, state);
    proof {
        assert(plan_views(plans@) =~= all);
    }
    let n = plans.len();
    let mut order: Vec<usize> = Vec::new();
    let mut i: usize = 0;
    while i < n
        invariant
            i <= n,
            order@ == Seq::new(i as nat, |x: int| x as usize),
        decreases n - i,
    {
        order.push(i);
        proof {
            assert(order@ =~= Seq::new((i + 1) as nat, |x: int| x as usize));
        }
        i = i + 1;
    }
    let ghost before_shuffle = rng.0;
    rng.shuffle(&mut order);
    proof {
        let s0 = Seq::new(n as nat, |x: int| x as usize);
        if n > 1 {
            lemma_xorshift_shuffled_multiset(s0, before_shuffle, (n - 1) as nat);
        }
        assert forall|m: int| 0 <= m < n implies (order@[m] as int) < n by {
            assert(order@.to_multiset().count(order@[m]) > 0) by {
                vstd::seq_lib::to_multiset_contains(order@, order@[m]);
                assert(order@.contains(order@[m]));
            }
            assert(s0.to_multiset().count(order@[m]) > 0);
            vstd::seq_lib::to_multiset_contains(s0, order@[m]);
            let w = choose|x: int| 0 <= x < s0.len() && s0[x] == order@[m];
        }
    }
    let mut groups: Vec<GroupPlan> = Vec::new();
    let mut m: usize = 0;
    while m < n
        invariant
            m <= n,
            n == plans@.len(),
            order@.len() == n,
            forall|x: int| 0 <= x < n ==> (#[trigger] order@[x] as int) < n,
            plan_views(plans@) == all,
            plan_views(groups@) == Seq::new(m as nat, |x: int| all[order@[x] as int]),
        decreases n - m,
    {
        let ghost o = order@[m as int] as int;
        proof {
            assert(plan_views(plans@)[o] == plans@[o]@);
        }
        let p = &plans[order[m]];
        let chars = copy_ids(&p.chars);
        let ghost prev = groups@;
        let plan = GroupPlan { chars, is_column: p.is_column, speed_tenths: p.speed_tenths, hold_time: p.hold_time };
        groups.push(plan);
        proof {
            assert(plan@ == plans@[o]@);
            assert(plan_views(groups@) =~= plan_views(prev).push(plan@));
            assert(all[order@[m as int] as int] == plans@[order@[m as int] as int]@);
            assert(plan_views(groups@) =~= Seq::new((m + 1) as nat, |x: int| all[order@[x] as int]));
        }
        m = m + 1;
    }
    proof {
        assert(rows@.map_values(|r: i32| r as i64) == row_keys@);
        assert(columns@.map_values(|r: i32| r as i64) == column_keys@);
    }
    groups
}

/// The characters bucketed by diagonal (`column - row`), lowest first, for the final wipe.
pub fn diagonal_groups(rows: &[i32], columns: &[i32], ids: &[u32]) -> (groups: Vec<Vec<u32>>)
    requires
        rows@.len() == ids@.len(),
        columns@.len() == ids@.len(),
        ids@.len() <= u32::MAX,
    ensures
        group_views(groups@) == buckets(
            Seq::new(ids@.len(), |i: int| (columns@[i] - rows@[i]) as i64),
            ids@,
        ),
{
    let mut keys: Vec<i64> = Vec::new();
    let mut i: usize = 0;
    while i < ids.len()
        invariant
            i <= ids@.len(),
            rows@.len() == ids@.len(),
            columns@.len() == ids@.len(),
            keys@ == Seq::new(i as nat, |x: int| (columns@[x] - rows@[x]) as i64),
        decreases ids.len() - i,
    {
        keys.push(columns[i] as i64 - rows[i] as i64);
        proof {
            assert(keys@ =~= Seq::new((i + 1) as nat, |x: int| (columns@[x] - rows@[x]) as i64));
        }
        i = i + 1;
    }
    bucket_ids(keys.as_slice(), ids)
}

} // verus!
