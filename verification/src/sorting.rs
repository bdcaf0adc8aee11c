//! Ordering and bucketing of characters by integer keys.
//!
//! Effects order characters by row, column or diagonal and then walk the
//! resulting groups.  Items are tagged with a `SortKey`: two ordering
//! components and the character's identifier.
use vstd::prelude::*;
use vstd::relations::{sorted_by, total_ordering};
use vstd::seq_lib::{lemma_sorted_unique, to_multiset_build, to_multiset_insert, to_multiset_len};

verus! {

/// Two ordering components followed by the identifier of the item.
pub type SortKey = (i64, i64, u32);

/// Lexicographic order on sort keys.
pub open spec fn key_le(a: SortKey, b: SortKey) -> bool {
    a.0 < b.0 || (a.0 == b.0 && (a.1 < b.1 || (a.1 == b.1 && a.2 <= b.2)))
}

/// `key_le` as a relation value, the form vstd's `sort_by` takes.
pub open spec fn key_order() -> spec_fn(SortKey, SortKey) -> bool {
    |a: SortKey, b: SortKey| key_le(a, b)
}

/// Lexicographic order on sort keys is a total order.
pub proof fn lemma_key_order_total()
    ensures
        total_ordering(key_order()),
{
}

fn key_before(a: SortKey, b: SortKey) -> (r: bool)
    ensures
        r == (key_le(a, b) && a != b),
{
    a.0 < b.0 || (a.0 == b.0 && (a.1 < b.1 || (a.1 == b.1 && a.2 < b.2)))
}

/// The keys in ascending lexicographic order.
pub fn sorted_keys(items: &[SortKey]) -> (out: Vec<SortKey>)
    ensures
        out@ == items@.sort_by(key_order()),
{
    let mut out: Vec<SortKey> = Vec::new();
    let mut i: usize = 0;
    proof {
        lemma_key_order_total();
        assert(out@ =~= items@.take(0));
    }
    while i < items.len()
        invariant
            i <= items.len(),
            total_ordering(key_order()),
            sorted_by(out@, key_order()),
            out@.to_multiset() == items@.take(i as int).to_multiset(),
        decreases items.len() - i,
    {
        let x = items[i];
        let mut pos: usize = 0;
        while pos < out.len() && !key_before(x, out[pos])
            invariant
                pos <= out.len(),
                forall|k: int| 0 <= k < pos ==> key_le(#[trigger] out@[k], x),
            decreases out.len() - pos,
        {
            pos = pos + 1;
        }
        let ghost before = out@;
        out.insert(pos, x);
        proof {
            assert forall|a: int, b: int| 0 <= a < b < out@.len() implies #[trigger] key_order()(
                out@[a],
                out@[b],
            ) by {
                if b < pos {
                    assert(out@[a] == before[a] && out@[b] == before[b]);
                } else if b == pos {
                    assert(out@[a] == before[a]);
                } else if a < pos {
                    assert(out@[a] == before[a] && out@[b] == before[b - 1]);
                    assert(key_le(before[a], x));
                    assert(key_le(x, before[pos as int]));
                    if pos < b - 1 {
                        assert(key_order()(before[pos as int], before[b - 1]));
                    }
                } else if a == pos {
                    assert(out@[b] == before[b - 1]);
                    assert(key_le(x, before[pos as int]));
                    if pos < b - 1 {
                        assert(key_order()(before[pos as int], before[b - 1]));
                    }
                } else {
                    assert(out@[a] == before[a - 1] && out@[b] == before[b - 1]);
                    assert(key_order()(before[a - 1], before[b - 1]));
                }
            }
            to_multiset_insert(before, pos as int, x);
            assert(items@.take(i + 1) =~= items@.take(i as int).push(x));
            to_multiset_build(items@.take(i as int), x);
        }
        i = i + 1;
    }
    proof {
        assert(items@.take(items.len() as int) =~= items@);
        items@.lemma_sort_by_ensures(key_order());
        lemma_sorted_unique(out@, items@.sort_by(key_order()), key_order());
    }
    out
}

/// The identifiers of `keys`, split into maximal runs of equal first component.
pub open spec fn runs(keys: Seq<SortKey>) -> Seq<Seq<u32>>
    decreases keys.len(),
{
    if keys.len() == 0 {
        Seq::empty()
    } else {
        let r = runs(keys.drop_last());
        let k = keys.last();
        if keys.len() >= 2 && keys[keys.len() - 2].0 == k.0 {
            r.update(r.len() - 1, r.last().push(k.2))
        } else {
            r.push(seq![k.2])
        }
    }
}

/// The views of a vector of id groups.
pub open spec fn group_views(v: Seq<Vec<u32>>) -> Seq<Seq<u32>> {
    v.map_values(|g: Vec<u32>| g@)
}

pub proof fn lemma_runs_nonempty(keys: Seq<SortKey>)
    requires
        keys.len() > 0,
    ensures
        runs(keys).len() > 0,
    decreases keys.len(),
{
    if keys.len() >= 2 {
        lemma_runs_nonempty(keys.drop_last());
    }
}

/// Splits sorted keys into the identifiers of each run of equal first component.
pub fn split_runs(keys: &[SortKey]) -> (out: Vec<Vec<u32>>)
    ensures
        group_views(out@) == runs(keys@),
{
    let mut out: Vec<Vec<u32>> = Vec::new();
    let mut i: usize = 0;
    while i < keys.len()
        invariant
            i <= keys.len(),
            group_views(out@) == runs(keys@.take(i as int)),
        decreases keys.len() - i,
    {
        let k = keys[i];
        let ghost prefix = keys@.take(i as int + 1);
        proof {
            assert(prefix.drop_last() =~= keys@.take(i as int));
            assert(prefix.last() == k);
        }
        if i > 0 && keys[i - 1].0 == k.0 {
            proof {
                assert(prefix[prefix.len() - 2] == keys@[i - 1]);
                lemma_runs_nonempty(keys@.take(i as int));
            }
            let mut last = out.pop().unwrap();
            last.push(k.2);
            out.push(last);
            proof {
                assert(group_views(out@) =~= runs(prefix));
            }
        } else {
            let mut g: Vec<u32> = Vec::new();
            g.push(k.2);
            out.push(g);
            proof {
                assert(g@ =~= seq![k.2]);
                assert(group_views(out@) =~= runs(prefix));
            }
        }
        i = i + 1;
    }
    proof {
        assert(keys@.take(keys.len() as int) =~= keys@);
    }
    out
}

/// The sort keys `(key, position, id)` of a list of keyed identifiers.
pub open spec fn tagged(keys: Seq<i64>, ids: Seq<u32>) -> Seq<SortKey> {
    Seq::new(keys.len(), |i: int| (keys[i], i as i64, ids[i]))
}

/// The identifiers bucketed by key: buckets in ascending key order, each
/// holding its identifiers in input order.
pub open spec fn buckets(keys: Seq<i64>, ids: Seq<u32>) -> Seq<Seq<u32>> {
    runs(tagged(keys, ids).sort_by(key_order()))
}

/// Buckets identifiers by key, in ascending key order, keeping input order
/// inside each bucket.
pub fn bucket_ids(keys: &[i64], ids: &[u32]) -> (out: Vec<Vec<u32>>)
    requires
        keys.len() == ids.len(),
        keys.len() <= i64::MAX,
    ensures
        group_views(out@) == buckets(keys@, ids@),
{
    let mut items: Vec<SortKey> = Vec::new();
    let mut i: usize = 0;
    while i < keys.len()
        invariant
            i <= keys.len(),
            keys.len() == ids.len(),
            keys.len() <= i64::MAX,
            items@ == tagged(keys@, ids@).take(i as int),
        decreases keys.len() - i,
    {
        items.push((keys[i], i as i64, ids[i]));
        proof {
            assert(items@ =~= tagged(keys@, ids@).take(i as int + 1));
        }
        i = i + 1;
    }
    proof {
        assert(items@ =~= tagged(keys@, ids@));
    }
    let sorted = sorted_keys(items.as_slice());
    split_runs(sorted.as_slice())
}

proof fn lemma_runs_sizes(keys: Seq<SortKey>)
    ensures
        forall|g: int| 0 <= g < runs(keys).len() ==> #[trigger] runs(keys)[g].len() <= keys.len(),
    decreases keys.len(),
{
    if keys.len() > 0 {
        let r = runs(keys.drop_last());
        lemma_runs_sizes(keys.drop_last());
        if keys.len() >= 2 {
            lemma_runs_nonempty(keys.drop_last());
        }
        let all = runs(keys);
        assert forall|g: int| 0 <= g < all.len() implies #[trigger] all[g].len() <= keys.len() by {
            if g < r.len() {
                assert(r[g].len() <= keys.len() - 1);
            }
        }
    }
}

/// No bucket holds more identifiers than were bucketed.
pub proof fn lemma_bucket_sizes(keys: Seq<i64>, ids: Seq<u32>)
    requires
        keys.len() == ids.len(),
    ensures
        forall|g: int|
            0 <= g < buckets(keys, ids).len() ==> #[trigger] buckets(keys, ids)[g].len() <= ids.len(),
{
    let t = tagged(keys, ids);
    lemma_key_order_total();
    t.lemma_sort_by_ensures(key_order());
    to_multiset_len(t);
    to_multiset_len(t.sort_by(key_order()));
    lemma_runs_sizes(t.sort_by(key_order()));
}

/// The least and greatest value, `None` when there are none.
pub fn value_range(values: &[i32]) -> (r: Option<(i32, i32)>)
    ensures
        values@.len() == 0 <==> r is None,
        r matches Some((lo, hi)) ==> {
            &&& exists|i: int| 0 <= i < values@.len() && values@[i] == lo
            &&& exists|i: int| 0 <= i < values@.len() && values@[i] == hi
            &&& forall|i: int| 0 <= i < values@.len() ==> lo <= #[trigger] values@[i] <= hi
        },
{
    if values.len() == 0 {
        return None;
    }
    let mut lo = values[0];
    let mut hi = values[0];
    let mut i: usize = 1;
    while i < values.len()
        invariant
            1 <= i <= values@.len(),
            exists|k: int| 0 <= k < values@.len() && values@[k] == lo,
            exists|k: int| 0 <= k < values@.len() && values@[k] == hi,
            forall|k: int| 0 <= k < i ==> lo <= #[trigger] values@[k] <= hi,
        decreases values.len() - i,
    {
        if values[i] < lo {
            lo = values[i];
        }
        if values[i] > hi {
            hi = values[i];
        }
        i = i + 1;
    }
    Some((lo, hi))
}

proof fn lemma_runs_flatten(keys: Seq<SortKey>)
    ensures
        runs(keys).flatten_alt() == keys.map_values(|k: SortKey| k.2),
        forall|g: int| 0 <= g < runs(keys).len() ==> #[trigger] runs(keys)[g].len() > 0,
    decreases keys.len(),
{
    if keys.len() > 0 {
        let rest = keys.drop_last();
        let r = runs(rest);
        let k = keys.last();
        lemma_runs_flatten(rest);
        assert(keys.map_values(|k: SortKey| k.2) =~= rest.map_values(|k: SortKey| k.2).push(k.2));
        if keys.len() >= 2 && keys[keys.len() - 2].0 == k.0 {
            lemma_runs_nonempty(rest);
            let u = r.update(r.len() - 1, r.last().push(k.2));
            assert(u.drop_last() =~= r.drop_last());
            assert(r.flatten_alt() == r.drop_last().flatten_alt() + r.last());
            assert(u.flatten_alt() =~= r.flatten_alt().push(k.2));
        } else {
            let u = r.push(seq![k.2]);
            assert(u.drop_last() =~= r);
            assert(u.flatten_alt() =~= r.flatten_alt().push(k.2));
        }
    }
}

/// Law: bucketing loses and invents nothing: no bucket is empty, and the buckets, read
/// one after the other, list the identifiers in ascending `(key, position)` order, a
/// reordering of the input.
pub proof fn lemma_buckets_concat(keys: Seq<i64>, ids: Seq<u32>)
    requires
        keys.len() == ids.len(),
    ensures
        forall|g: int| 0 <= g < buckets(keys, ids).len() ==> #[trigger] buckets(keys, ids)[g].len() > 0,
        buckets(keys, ids).flatten_alt() == tagged(keys, ids).sort_by(key_order()).map_values(|k: SortKey| k.2),
        tagged(keys, ids).sort_by(key_order()).to_multiset() == tagged(keys, ids).to_multiset(),
        tagged(keys, ids).map_values(|k: SortKey| k.2) == ids,
{
    let t = tagged(keys, ids);
    lemma_key_order_total();
    t.lemma_sort_by_ensures(key_order());
    lemma_runs_flatten(t.sort_by(key_order()));
    assert(t.map_values(|k: SortKey| k.2) =~= ids);
}

proof fn lemma_nonempty_count(ss: Seq<Seq<u32>>)
    requires
        forall|g: int| 0 <= g < ss.len() ==> #[trigger] ss[g].len() > 0,
    ensures
        ss.len() <= ss.flatten_alt().len(),
    decreases ss.len(),
{
    if ss.len() > 0 {
        lemma_nonempty_count(ss.drop_last());
    }
}

/// There are no more buckets than identifiers bucketed.
pub proof fn lemma_bucket_len(keys: Seq<i64>, ids: Seq<u32>)
    requires
        keys.len() == ids.len(),
    ensures
        buckets(keys, ids).len() <= ids.len(),
{
    lemma_buckets_concat(keys, ids);
    lemma_nonempty_count(buckets(keys, ids));
    let t = tagged(keys, ids);
    t.sort_by(key_order()).to_multiset_ensures();
    t.to_multiset_ensures();
}

} // verus!
