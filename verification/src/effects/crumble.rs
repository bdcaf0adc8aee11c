//! Crumble: unsupported characters weaken and fall to the bottom as dust,
//! are swept to the top, and return to their places.
use vstd::prelude::*;

use crate::geometry::Coord;
use crate::sorting::{key_order, sorted_keys, SortKey};

verus! {

/// The crumble effect.
#[derive(Clone, Copy, Debug, PartialEq, Eq, Structural)]
pub struct Crumble;

impl Crumble {
    pub fn new() -> (e: Self)
        ensures
            e == Crumble,
    {
        Crumble
    }

    pub fn name(&self) -> (n: &'static str)
        ensures
            n@ == "crumble"@,
    {
        "crumble"
    }
}

/// Where a character is in its crumble, with the frames spent in a timed stage.
#[derive(Clone, Copy, Debug, PartialEq, Eq, Structural)]
pub enum Phase {
    Idle,
    Flash { frame: u32 },
    Weaken { frame: u32 },
    Fall { frame: u32 },
    Fallen,
    Fly { frame: u32 },
    Flown,
    Return { frame: u32 },
    Done,
}

/// What the crumble needs of a character: its identifier, home and the character
/// resting on it.
#[derive(Clone, Copy, Debug, PartialEq, Eq, Structural)]
pub struct CharInfo {
    pub id: u32,
    pub input: Coord,
    pub above: Option<u32>,
}

/// Frames of the highlight flash.
pub const FLASH_FRAMES: u32 = 12;

/// Frames of the weakening toward dust.
pub const WEAKEN_FRAMES: u32 = 16;

/// Characters set crumbling per frame.
pub const ACTIVATE_PER_FRAME: usize = 3;

/// `|from_row - bottom|`, at least 1, times `factor` (saturating), clamped to `lo..=hi`.
pub open spec fn scaled_duration(from_row: i32, bottom: i32, factor: int, lo: int, hi: int) -> u32 {
    let d = from_row - bottom;
    let a = if d < 0 { -d } else { d };
    let m = if a > 1 { a } else { 1 };
    let p = if m * factor > u32::MAX { u32::MAX as int } else { m * factor };
    (if p < lo { lo } else if p > hi { hi } else { p }) as u32
}

fn distance_times(from_row: i32, bottom: i32, factor: u32) -> (p: u32)
    requires
        1 <= factor <= 3,
    ensures
        p == ({
            let d = from_row - bottom;
            let a = if d < 0 { -d } else { d };
            let m = if a > 1 { a } else { 1 };
            if m * factor > u32::MAX { u32::MAX as int } else { m * factor }
        }),
{
    let d = from_row as i64 - bottom as i64;
    let a: u64 = if d < 0 { (0 - d) as u64 } else { d as u64 };
    let m: u64 = if a > 1 { a } else { 1 };
    assert(m <= 0x1_0000_0000);
    assert(m * factor <= 3 * 0x1_0000_0000) by (nonlinear_arith)
        requires m <= 0x1_0000_0000, factor <= 3;
    let p = m * factor as u64;
    if p > u32::MAX as u64 {
        u32::MAX
    } else {
        p as u32
    }
}

/// Frames a character takes to fall from `from_row` to `bottom`.
pub fn fall_duration(from_row: i32, bottom: i32) -> (n: u32)
    ensures
        n == scaled_duration(from_row, bottom, 3, 18, 48),
{
    let p = distance_times(from_row, bottom, 3);
    if p < 18 {
        18
    } else if p > 48 {
        48
    } else {
        p
    }
}

/// Frames a character takes to be swept from the bottom to the top.
pub fn fly_duration(from_row: i32, bottom: i32) -> (n: u32)
    ensures
        n == scaled_duration(from_row, bottom, 2, 16, 36),
{
    let p = distance_times(from_row, bottom, 2);
    if p < 16 {
        16
    } else if p > 36 {
        36
    } else {
        p
    }
}

/// Frames a character takes to return from the top to its home.
pub fn return_duration(from_row: i32, bottom: i32) -> (n: u32)
    ensures
        n == scaled_duration(from_row, bottom, 2, 18, 40),
{
    let p = distance_times(from_row, bottom, 2);
    if p < 18 {
        18
    } else if p > 40 {
        40
    } else {
        p
    }
}

/// A phase in which the character has left its support: falling or later.
pub open spec fn has_left(p: Phase) -> bool {
    match p {
        Phase::Fall { .. } | Phase::Fallen | Phase::Fly { .. } | Phase::Flown | Phase::Return { .. } | Phase::Done => true,
        _ => false,
    }
}

/// The phase of character `id`, if it has one.
pub open spec fn phase_of(phases: Seq<Phase>, id: u32) -> Option<Phase> {
    if (id as int) < phases.len() {
        Some(phases[id as int])
    } else {
        None
    }
}

/// An idle character whose support has left (or that never had one).
pub open spec fn unsupported(phases: Seq<Phase>, info: CharInfo) -> bool {
    &&& phase_of(phases, info.id) == Some(Phase::Idle)
    &&& match info.above {
        None => true,
        Some(above) => match phase_of(phases, above) {
            Some(p) => has_left(p),
            None => false,
        },
    }
}

/// The sort keys `(-row, column, id)` of the unsupported characters, in input order.
pub open spec fn candidates(infos: Seq<CharInfo>, phases: Seq<Phase>) -> Seq<SortKey>
    decreases infos.len(),
{
    if infos.len() == 0 {
        Seq::empty()
    } else {
        let rest = candidates(infos.drop_last(), phases);
        let info = infos.last();
        if unsupported(phases, info) {
            rest.push(((0 - info.input.row) as i64, info.input.column as i64, info.id))
        } else {
            rest
        }
    }
}

/// The characters set flashing this frame: the first three candidates, highest row
/// first, then leftmost, then by identifier.
pub open spec fn activated(infos: Seq<CharInfo>, phases: Seq<Phase>) -> Seq<SortKey> {
    let sorted = candidates(infos, phases).sort_by(key_order());
    if sorted.len() > 3 {
        sorted.take(3)
    } else {
        sorted
    }
}

fn phase_at(phases: &Vec<Phase>, id: u32) -> (p: Option<Phase>)
    ensures
        p == phase_of(phases@, id),
{
    if (id as usize) < phases.len() {
        Some(phases[id as usize])
    } else {
        None
    }
}

fn is_unsupported(phases: &Vec<Phase>, info: CharInfo) -> (b: bool)
    ensures
        b == unsupported(phases@, info),
{
    match phase_at(phases, info.id) {
        Some(Phase::Idle) => {},
        _ => {
            return false;
        },
    }
    match info.above {
        None => true,
        Some(above) => match phase_at(phases, above) {
            Some(p) => match p {
                Phase::Fall { .. } | Phase::Fallen | Phase::Fly { .. } | Phase::Flown | Phase::Return { .. } | Phase::Done => true,
                _ => false,
            },
            None => false,
        },
    }
}

/// Sets flashing the characters whose support has gone, at most three a frame,
/// highest first.
pub fn activate_unsupported(infos: &[CharInfo], phases: &mut Vec<Phase>)
    requires
        forall|i: int| 0 <= i < infos@.len() ==> (#[trigger] infos@[i].id as int) < old(phases)@.len(),
    ensures
        final(phases)@.len() == old(phases)@.len(),
        forall|k: int|
            0 <= k < old(phases)@.len() ==> #[trigger] final(phases)@[k] == (if exists|j: int|
                0 <= j < activated(infos@, old(phases)@).len() && activated(infos@, old(phases)@)[j].2 == k {
                Phase::Flash { frame: 0 }
            } else {
                old(phases)@[k]
            }),
{
    let ghost start = phases@;
    let mut keys: Vec<SortKey> = Vec::new();
    let mut i: usize = 0;
    while i < infos.len()
        invariant
            i <= infos@.len(),
            phases@ == start,
            keys@ == candidates(infos@.take(i as int), start),
        decreases infos.len() - i,
    {
        let info = infos[i];
        proof {
            assert(infos@.take(i + 1).drop_last() =~= infos@.take(i as int));
            assert(infos@.take(i + 1).last() == info);
        }
        if is_unsupported(phases, info) {
            keys.push((0 - info.input.row as i64, info.input.column as i64, info.id));
        }
        i = i + 1;
    }
    proof {
        assert(infos@.take(infos@.len() as int) =~= infos@);
    }
    let sorted = sorted_keys(keys.as_slice());
    let count = if sorted.len() > ACTIVATE_PER_FRAME {
        ACTIVATE_PER_FRAME
    } else {
        sorted.len()
    };
    let ghost chosen = activated(infos@, start);
    proof {
        assert(chosen =~= sorted@.take(count as int));
        assert forall|j: int| 0 <= j < chosen.len() implies (#[trigger] chosen[j].2 as int) < start.len() by {
            lemma_candidate_ids(infos@, start);
            start_sorted_member(keys@, chosen, j);
            let idx = choose|idx: int| 0 <= idx < keys@.len() && keys@[idx] == chosen[j];
            assert(keys@[idx] == candidates(infos@, start)[idx]);
        }
    }
    let mut k: usize = 0;
    while k < count
        invariant
            k <= count,
            count <= sorted@.len(),
            count == chosen.len(),
            chosen == sorted@.take(count as int),
            forall|j: int| 0 <= j < chosen.len() ==> (#[trigger] chosen[j].2 as int) < start.len(),
            phases@.len() == start.len(),
            forall|x: int|
                0 <= x < start.len() ==> #[trigger] phases@[x] == (if exists|j: int| 0 <= j < k && chosen[j].2 == x {
                    Phase::Flash { frame: 0 }
                } else {
                    start[x]
                }),
        decreases count - k,
    {
        let id = sorted[k].2;
        proof {
            assert(chosen[k as int] == sorted@[k as int]);
            assert(chosen[k as int].2 == id);
            assert((id as int) < start.len());
        }
        phases.set(id as usize, Phase::Flash { frame: 0 });
        proof {
            assert forall|x: int| 0 <= x < start.len() implies #[trigger] phases@[x] == (if exists|j: int|
                0 <= j < k + 1 && chosen[j].2 == x {
                Phase::Flash { frame: 0 }
            } else {
                start[x]
            }) by {
                if x == id as int {
                    assert(chosen[k as int].2 == x);
                } else {
                    if exists|j: int| 0 <= j < k + 1 && chosen[j].2 == x {
                        let j = choose|j: int| 0 <= j < k + 1 && chosen[j].2 == x;
                        assert(j < k);
                    }
                }
            }
        }
        k = k + 1;
    }
}

proof fn lemma_candidate_ids(infos: Seq<CharInfo>, phases: Seq<Phase>)
    ensures
        forall|j: int|
            0 <= j < candidates(infos, phases).len() ==> (#[trigger] candidates(infos, phases)[j].2 as int)
                < phases.len(),
    decreases infos.len(),
{
    if infos.len() > 0 {
        let rest = candidates(infos.drop_last(), phases);
        lemma_candidate_ids(infos.drop_last(), phases);
        let all = candidates(infos, phases);
        assert forall|j: int| 0 <= j < all.len() implies (#[trigger] all[j].2 as int) < phases.len() by {
            if j < rest.len() {
                assert(all[j] == rest[j]);
            } else {
                assert(unsupported(phases, infos.last()));
                assert(phase_of(phases, infos.last().id) is Some);
            }
        }
    }
}

proof fn start_sorted_member(keys: Seq<SortKey>, chosen: Seq<SortKey>, j: int)
    requires
        0 <= j < chosen.len(),
        chosen.len() <= keys.sort_by(key_order()).len(),
        chosen == keys.sort_by(key_order()).take(chosen.len() as int),
    ensures
        keys.contains(chosen[j]),
{
    crate::sorting::lemma_key_order_total();
    keys.lemma_sort_by_ensures(key_order());
    assert(keys.sort_by(key_order()).contains(chosen[j])) by {
        assert(keys.sort_by(key_order())[j] == chosen[j]);
    }
}

/// One frame of a character's crumble: timed stages count up and move on when
/// their time is up; resting stages stay.
pub open spec fn step_phase(p: Phase, row: i32, bottom: i32) -> Phase {
    match p {
        Phase::Flash { frame } => if (frame + 1 >= FLASH_FRAMES) {
            Phase::Weaken { frame: 0 }
        } else {
            Phase::Flash { frame: (frame + 1) as u32 }
        },
        Phase::Weaken { frame } => if (frame + 1 >= WEAKEN_FRAMES) {
            Phase::Fall { frame: 0 }
        } else {
            Phase::Weaken { frame: (frame + 1) as u32 }
        },
        Phase::Fall { frame } => if (frame + 1 >= scaled_duration(row, bottom, 3, 18, 48)) {
            Phase::Fallen
        } else {
            Phase::Fall { frame: (frame + 1) as u32 }
        },
        Phase::Fly { frame } => if (frame + 1 >= scaled_duration(row, bottom, 2, 16, 36)) {
            Phase::Flown
        } else {
            Phase::Fly { frame: (frame + 1) as u32 }
        },
        Phase::Return { frame } => if (frame + 1 >= scaled_duration(row, bottom, 2, 18, 40)) {
            Phase::Done
        } else {
            Phase::Return { frame: (frame + 1) as u32 }
        },
        _ => p,
    }
}

/// The phases after stepping each listed character once, in list order.
pub open spec fn stepped(phases: Seq<Phase>, infos: Seq<CharInfo>, bottom: i32) -> Seq<Phase>
    decreases infos.len(),
{
    if infos.len() == 0 {
        phases
    } else {
        let before = stepped(phases, infos.drop_last(), bottom);
        let info = infos.last();
        if (info.id as int) < before.len() {
            before.update(info.id as int, step_phase(before[info.id as int], info.input.row, bottom))
        } else {
            before
        }
    }
}

fn next_phase(p: Phase, row: i32, bottom: i32) -> (q: Phase)
    requires
        match p {
            Phase::Flash { frame } | Phase::Weaken { frame } | Phase::Fall { frame } | Phase::Fly { frame } | Phase::Return { frame } => frame < 48,
            _ => true,
        },
    ensures
        q == step_phase(p, row, bottom),
{
    match p {
        Phase::Flash { frame } => if (frame + 1 >= FLASH_FRAMES) {
            Phase::Weaken { frame: 0 }
        } else {
            Phase::Flash { frame: frame + 1 }
        },
        Phase::Weaken { frame } => if (frame + 1 >= WEAKEN_FRAMES) {
            Phase::Fall { frame: 0 }
        } else {
            Phase::Weaken { frame: frame + 1 }
        },
        Phase::Fall { frame } => if (frame + 1 >= fall_duration(row, bottom)) {
            Phase::Fallen
        } else {
            Phase::Fall { frame: frame + 1 }
        },
        Phase::Fly { frame } => if (frame + 1 >= fly_duration(row, bottom)) {
            Phase::Flown
        } else {
            Phase::Fly { frame: frame + 1 }
        },
        Phase::Return { frame } => if (frame + 1 >= return_duration(row, bottom)) {
            Phase::Done
        } else {
            Phase::Return { frame: frame + 1 }
        },
        _ => p,
    }
}

/// Every timed stage is within its duration, as stepping keeps it.
pub open spec fn phase_in_time(p: Phase) -> bool {
    match p {
        Phase::Flash { frame } | Phase::Weaken { frame } | Phase::Fall { frame } | Phase::Fly { frame } | Phase::Return { frame } => frame < 48,
        _ => true,
    }
}

/// Advances every listed character by one frame.
pub fn step_all(infos: &[CharInfo], phases: &mut Vec<Phase>, bottom: i32)
    requires
        forall|k: int| 0 <= k < old(phases)@.len() ==> phase_in_time(#[trigger] old(phases)@[k]),
    ensures
        final(phases)@ == stepped(old(phases)@, infos@, bottom),
        forall|k: int| 0 <= k < final(phases)@.len() ==> phase_in_time(#[trigger] final(phases)@[k]),
{
    let mut i: usize = 0;
    while i < infos.len()
        invariant
            i <= infos@.len(),
            phases@ == stepped(old(phases)@, infos@.take(i as int), bottom),
            phases@.len() == old(phases)@.len(),
            forall|k: int| 0 <= k < phases@.len() ==> phase_in_time(#[trigger] phases@[k]),
        decreases infos.len() - i,
    {
        let info = infos[i];
        proof {
            assert(infos@.take(i + 1).drop_last() =~= infos@.take(i as int));
            assert(infos@.take(i + 1).last() == info);
        }
        if (info.id as usize) < phases.len() {
            let p = phases[info.id as usize];
            let q = next_phase(p, info.input.row, bottom);
            phases.set(info.id as usize, q);
        }
        i = i + 1;
    }
    proof {
        assert(infos@.take(infos@.len() as int) =~= infos@);
    }
}

/// Whether every character is in phase `target`.
pub fn all_in_phase(phases: &Vec<Phase>, target: Phase) -> (b: bool)
    ensures
        b == (forall|k: int| 0 <= k < phases@.len() ==> #[trigger] phases@[k] == target),
{
    let mut i: usize = 0;
    while i < phases.len()
        invariant
            i <= phases@.len(),
            forall|k: int| 0 <= k < i ==> #[trigger] phases@[k] == target,
        decreases phases.len() - i,
    {
        if phases[i] != target {
            return false;
        }
        i = i + 1;
    }
    true
}

} // verus!
