//! Print: a print head types the text row by row, feeding each finished row up.
use vstd::prelude::*;

use crate::graphics::Color;
use crate::sorting::{group_views, key_order, lemma_runs_nonempty, runs, sorted_keys, split_runs, SortKey};
use crate::text::{hex_byte, push_hex_u8};

verus! {

/// The print effect.
#[derive(Clone, Copy, Debug, PartialEq, Eq, Structural)]
pub struct Print;

impl Print {
    pub fn new() -> (e: Self)
        ensures
            e == Print,
    {
        Print
    }

    pub fn name(&self) -> (n: &'static str)
        ensures
            n@ == "print"@,
    {
        "print"
    }
}

impl Default for Print {
    fn default() -> (e: Self)
        ensures
            e == Print,
    {
        Print::new()
    }
}

/// A row being printed: the characters still to type, and those typed, in order.
pub struct RowState {
    pub untyped: Vec<u32>,
    pub typed: Vec<u32>,
}

/// The sort keys `(-row, column, position)` of the characters.
pub open spec fn print_keys(rows: Seq<i32>, columns: Seq<i32>) -> Seq<SortKey> {
    Seq::new(rows.len(), |i: int| ((0 - rows[i]) as i64, columns[i] as i64, i as u32))
}

/// The rows in printing order: top row first, each with its characters left to right,
/// as positions in the character list.
pub open spec fn printed_rows(rows: Seq<i32>, columns: Seq<i32>) -> Seq<Seq<u32>> {
    runs(print_keys(rows, columns).sort_by(key_order()))
}

/// The rows to print, top first, each listing its characters' identifiers left to
/// right, none typed yet.
pub fn group_rows(rows: &[i32], columns: &[i32], ids: &[u32]) -> (out: Vec<RowState>)
    requires
        rows@.len() == ids@.len(),
        columns@.len() == ids@.len(),
        ids@.len() <= u32::MAX,
    ensures
        out@.len() == printed_rows(rows@, columns@).len(),
        forall|r: int|
            0 <= r < out@.len() ==> (#[trigger] out@[r]).typed@.len() == 0 && out@[r].untyped@ == printed_rows(
                rows@,
                columns@,
            )[r].map_values(|p: u32| ids@[p as int]),
{
    let mut keys: Vec<SortKey> = Vec::new();
    let mut i: usize = 0;
    while i < rows.len()
        invariant
            i <= rows@.len(),
            rows@.len() == ids@.len(),
            columns@.len() == ids@.len(),
            ids@.len() <= u32::MAX,
            keys@ == print_keys(rows@, columns@).take(i as int),
        decreases rows.len() - i,
    {
        keys.push((0 - rows[i] as i64, columns[i] as i64, i as u32));
        proof {
            assert(keys@ =~= print_keys(rows@, columns@).take(i + 1));
        }
        i = i + 1;
    }
    proof {
        assert(keys@ =~= print_keys(rows@, columns@));
    }
    let sorted = sorted_keys(keys.as_slice());
    let groups = split_runs(sorted.as_slice());
    let ghost g = group_views(groups@);
    proof {
        lemma_positions_in_range(keys@, sorted@);
        lemma_run_members(sorted@);
        assert forall|a: int, b: int| 0 <= a < g.len() && 0 <= b < g[a].len() implies (#[trigger] g[a][b] as int)
            < ids@.len() by {
            let i = choose|i: int| 0 <= i < sorted@.len() && sorted@[i].2 == runs(sorted@)[a][b];
        }
    }
    let mut out: Vec<RowState> = Vec::new();
    let mut r: usize = 0;
    while r < groups.len()
        invariant
            r <= groups@.len(),
            g == group_views(groups@),
            g == printed_rows(rows@, columns@),
            forall|a: int, b: int| 0 <= a < g.len() && 0 <= b < g[a].len() ==> (#[trigger] g[a][b] as int) < ids@.len(),
            out@.len() == r,
            forall|x: int|
                0 <= x < r ==> (#[trigger] out@[x]).typed@.len() == 0 && out@[x].untyped@ == g[x].map_values(
                    |p: u32| ids@[p as int],
                ),
        decreases groups.len() - r,
    {
        let positions = &groups[r];
        proof {
            assert(positions@ == g[r as int]);
        }
        let mut untyped: Vec<u32> = Vec::new();
        let mut k: usize = 0;
        while k < positions.len()
            invariant
                k <= positions@.len(),
                positions@ == g[r as int],
                forall|b: int| 0 <= b < positions@.len() ==> (#[trigger] positions@[b] as int) < ids@.len(),
                untyped@ == positions@.take(k as int).map_values(|p: u32| ids@[p as int]),
            decreases positions.len() - k,
        {
            untyped.push(ids[positions[k] as usize]);
            proof {
                assert(positions@.take(k + 1) =~= positions@.take(k as int).push(positions@[k as int]));
                assert(untyped@ =~= positions@.take(k + 1).map_values(|p: u32| ids@[p as int]));
            }
            k = k + 1;
        }
        proof {
            assert(positions@.take(positions@.len() as int) =~= positions@);
        }
        out.push(RowState { untyped, typed: Vec::new() });
        r = r + 1;
    }
    out
}

proof fn lemma_positions_in_range(keys: Seq<SortKey>, sorted: Seq<SortKey>)
    requires
        forall|i: int| 0 <= i < keys.len() ==> (#[trigger] keys[i].2 as int) < keys.len(),
        sorted == keys.sort_by(key_order()),
    ensures
        sorted.len() == keys.len(),
        forall|i: int| 0 <= i < sorted.len() ==> (#[trigger] sorted[i].2 as int) < sorted.len(),
{
    crate::sorting::lemma_key_order_total();
    keys.lemma_sort_by_ensures(key_order());
    vstd::seq_lib::to_multiset_len(keys);
    vstd::seq_lib::to_multiset_len(sorted);
    assert forall|i: int| 0 <= i < sorted.len() implies (#[trigger] sorted[i].2 as int) < sorted.len() by {
        assert(sorted.contains(sorted[i]));
        let j = choose|j: int| 0 <= j < keys.len() && keys[j] == sorted[i];
    }
}

proof fn lemma_run_members(keys: Seq<SortKey>)
    ensures
        forall|a: int, b: int|
            0 <= a < runs(keys).len() && 0 <= b < runs(keys)[a].len() ==> exists|i: int|
                0 <= i < keys.len() && keys[i].2 == #[trigger] runs(keys)[a][b],
    decreases keys.len(),
{
    if keys.len() > 0 {
        let rest = keys.drop_last();
        lemma_run_members(rest);
        let r = runs(rest);
        let all = runs(keys);
        if keys.len() >= 2 {
            lemma_runs_nonempty(rest);
        }
        assert forall|a: int, b: int| 0 <= a < all.len() && 0 <= b < all[a].len() implies exists|i: int|
            0 <= i < keys.len() && keys[i].2 == #[trigger] all[a][b] by {
            if a < r.len() && b < r[a].len() {
                assert(all[a][b] == r[a][b]);
                let i = choose|i: int| 0 <= i < rest.len() && rest[i].2 == r[a][b];
                assert(keys[i] == rest[i]);
            } else {
                assert(all[a][b] == keys.last().2);
                assert(keys[keys.len() - 1] == keys.last());
            }
        }
    }
}

/// Takes the next row to print, if any.
pub fn take_row(pending: &mut Vec<RowState>) -> (row: Option<RowState>)
    ensures
        old(pending)@.len() == 0 ==> row is None && final(pending)@ == old(pending)@,
        old(pending)@.len() > 0 ==> row == Some(old(pending)@[0]) && final(pending)@ == old(pending)@.drop_first(),
{
    if pending.len() == 0 {
        None
    } else {
        Some(pending.remove(0))
    }
}

/// Eight lowercase hex digits of `v`, most significant first.
pub open spec fn hex32(v: u32) -> Seq<char> {
    hex_byte((v >> 24u32) as u8) + hex_byte((v >> 16u32) as u8) + hex_byte((v >> 8u32) as u8) + hex_byte(v as u8)
}

fn hex8(v: u32) -> (s: String)
    ensures
        s@ == hex32(v),
{
    let mut s = String::new();
    push_hex_u8(&mut s, (v >> 24u32) as u8);
    push_hex_u8(&mut s, (v >> 16u32) as u8);
    push_hex_u8(&mut s, (v >> 8u32) as u8);
    push_hex_u8(&mut s, v as u8);
    proof {
        assert(s@ =~= hex32(v));
    }
    s
}

/// What a character shows as it is typed: three scrambled hex codes of its identifier
/// without color, five `*` in its color, then its own symbol in its color.
pub open spec fn typing_sequence(id: u32, symbol: Seq<char>, color: Color) -> Seq<(Seq<char>, Option<Color>)> {
    seq![
        (hex32(id.wrapping_mul(0x9E37_79B1u32)), None),
        (hex32(id.wrapping_mul(0x85EB_CA6Bu32)), None),
        (hex32(id.wrapping_mul(0xC2B2_AE3Du32)), None),
        (seq!['*'], Some(color)),
        (seq!['*'], Some(color)),
        (seq!['*'], Some(color)),
        (seq!['*'], Some(color)),
        (seq!['*'], Some(color)),
        (symbol, Some(color)),
    ]
}

/// The frames a character passes through as it is typed.
pub fn color_code_sequence(id: u32, symbol: &str, color: Color) -> (seq: Vec<(String, Option<Color>)>)
    ensures
        seq@.map_values(|f: (String, Option<Color>)| (f.0@, f.1)) == typing_sequence(id, symbol@, color),
{
    let mut seq: Vec<(String, Option<Color>)> = Vec::new();
    proof {
        reveal_strlit("*");
    }
    seq.push((hex8(id.wrapping_mul(0x9E37_79B1)), None));
    seq.push((hex8(id.wrapping_mul(0x85EB_CA6B)), None));
    seq.push((hex8(id.wrapping_mul(0xC2B2_AE3D)), None));
    seq.push((String::from_str("*"), Some(color)));
    seq.push((String::from_str("*"), Some(color)));
    seq.push((String::from_str("*"), Some(color)));
    seq.push((String::from_str("*"), Some(color)));
    seq.push((String::from_str("*"), Some(color)));
    seq.push((String::from_str(symbol), Some(color)));
    proof {
        let v = seq@.map_values(|f: (String, Option<Color>)| (f.0@, f.1));
        let t = typing_sequence(id, symbol@, color);
        assert(v.len() == 9);
        assert forall|i: int| 0 <= i < 9 implies #[trigger] v[i] == t[i] by {
            assert("*"@ =~= seq!['*']);
        }
        assert(v =~= t);
    }
    seq
}

} // verus!
