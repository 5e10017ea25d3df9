//! Packing of persisted account images into the free spans below them.
//!
//! One pass reads the free spans and the live images, plans moves of tail images into
//! free spans that existed at the start of the pass, and finds the free suffix that
//! the moves leave behind. Sizes and positions are counted in storage units.

use std::ops::Range;

use vstd::prelude::*;

verus! {

/// Smallest useful destination remainder, in storage units.
pub const MIN_REMAINDER: u32 = 33;

/// Position in the mapped storage, counted in storage units.
pub type Offset = u32;

/// Result of one committed packing pass.
#[derive(Clone, Copy, PartialEq, Eq, Structural, Debug)]
pub struct Defragged {
    /// Images that were moved.
    pub moved: usize,
    /// Storage units cut off the end of the file.
    pub reclaimed: u32,
}

impl Defragged {
    /// Whether the pass moved an image or shortened the file.
    pub fn changed(&self) -> (changed: bool)
        ensures
            changed == (self.moved > 0 || self.reclaimed > 0),
    {
        self.moved > 0 || self.reclaimed > 0
    }
}

/// Free span in the persisted image file.
#[derive(Clone, Copy, PartialEq, Eq, PartialOrd, Ord, Structural, Debug)]
pub struct Hole {
    /// First unit.
    pub offset: Offset,
    /// Number of units.
    pub units: u32,
}

impl Hole {
    /// First position past the span.
    pub open spec fn upper(self) -> int {
        self.offset + self.units
    }

    /// Whether unit `u` lies in the span.
    pub open spec fn covers(self, u: int) -> bool {
        self.offset <= u < self.upper()
    }

    /// The span of a freelist entry, which names the size before the position.
    pub fn new(entry: (u32, Offset)) -> (hole: Hole)
        ensures
            hole.units == entry.0,
            hole.offset == entry.1,
    {
        Hole { offset: entry.1, units: entry.0 }
    }

    /// First position past the span.
    pub fn end(self) -> (end: Offset)
        requires
            self.upper() <= u32::MAX,
        ensures
            end == self.upper(),
    {
        self.offset + self.units
    }
}

/// Adjacent entry-time holes treated as one packing destination.
pub struct Run {
    /// The holes that make up the run, as positions in the sorted list of holes.
    pub parts: Range<usize>,
    /// What is still free of the run.
    pub free: Hole,
}

impl Run {
    /// The run after `units` units were taken from its front.
    pub open spec fn taken(self, units: u32) -> Run {
        Run {
            parts: self.parts,
            free: Hole {
                offset: (self.free.offset + units) as u32,
                units: (self.free.units - units) as u32,
            },
        }
    }

    /// Takes `units` units from the front of the free part and returns where they start.
    pub fn take(&mut self, units: u32) -> (dst: Offset)
        requires
            units <= old(self).free.units,
            old(self).free.upper() <= u32::MAX,
        ensures
            dst == old(self).free.offset,
            *final(self) == old(self).taken(units),
    {
        let dst: u32 = self.free.offset;
        self.free = Hole { offset: self.free.offset + units, units: self.free.units - units };
        dst
    }
}

/// One image relocation planned against entry-time free space.
#[derive(Clone, Copy, PartialEq, Eq, Structural, Debug)]
pub struct Move {
    /// Where the image lies.
    pub src: Offset,
    /// Where it will lie.
    pub dst: Offset,
    /// Size of the image.
    pub units: u32,
}

impl Move {
    /// The span that the image leaves.
    pub open spec fn vacated(self) -> Hole {
        Hole { offset: self.src, units: self.units }
    }

    /// The span that the image leaves.
    pub fn source(self) -> (hole: Hole)
        ensures
            hole == self.vacated(),
    {
        Hole { offset: self.src, units: self.units }
    }
}

/// `holes` are non-empty, ascending, disjoint, and end at or before `tail`.
pub open spec fn holes_ok(holes: Seq<Hole>, tail: int) -> bool {
    &&& forall|i: int| 0 <= i < holes.len() ==> (#[trigger] holes[i]).units > 0 && holes[i].upper() <= tail
    &&& forall|i: int, j: int|
        0 <= i < j < holes.len() ==> (#[trigger] holes[i]).upper() <= (#[trigger] holes[j]).offset
}

/// `live` lists `(offset, units)` of images: non-empty, descending, disjoint, and
/// ending at or before `tail`.
pub open spec fn live_ok(live: Seq<(u32, u32)>, tail: int) -> bool {
    &&& forall|i: int| 0 <= i < live.len() ==> (#[trigger] live[i]).1 > 0 && live[i].0 + live[i].1 <= tail
    &&& forall|i: int, j: int|
        0 <= i < j < live.len() ==> (#[trigger] live[j]).0 + live[j].1 <= (#[trigger] live[i]).0
}

/// No image shares a unit with a hole.
pub open spec fn apart(holes: Seq<Hole>, live: Seq<(u32, u32)>) -> bool {
    forall|i: int, j: int|
        0 <= i < holes.len() && 0 <= j < live.len() ==> {
            ||| (#[trigger] holes[i]).upper() <= (#[trigger] live[j]).0
            ||| live[j].0 + live[j].1 <= holes[i].offset
        }
}

/// `run` is the union of the adjacent holes that its parts name.
pub open spec fn run_joins(holes: Seq<Hole>, run: Run) -> bool {
    &&& run.parts.start < run.parts.end <= holes.len()
    &&& run.free.offset == holes[run.parts.start as int].offset
    &&& run.free.upper() == holes[run.parts.end - 1].upper()
    &&& forall|i: int, j: int|
        run.parts.start <= i && j == i + 1 && j < run.parts.end ==> (#[trigger] holes[j]).offset == (
        #[trigger] holes[i]).upper()
}

/// `runs` are the maximal groups of adjacent holes, in order.
pub open spec fn runs_of(holes: Seq<Hole>, runs: Seq<Run>) -> bool {
    &&& runs.len() == 0 <==> holes.len() == 0
    &&& runs.len() > 0 ==> runs[0].parts.start == 0 && runs.last().parts.end == holes.len()
    &&& forall|r: int| 0 <= r < runs.len() ==> run_joins(holes, #[trigger] runs[r])
    &&& forall|r: int, q: int|
        0 <= r && q == r + 1 && q < runs.len() ==> (#[trigger] runs[q]).parts.start == (
        #[trigger] runs[r]).parts.end && runs[r].free.upper() < runs[q].free.offset
}

/// Runs ascend without sharing a unit, and end at or before `tail`.
pub open spec fn runs_ordered(runs: Seq<Run>, tail: int) -> bool {
    &&& forall|r: int| 0 <= r < runs.len() ==> (#[trigger] runs[r]).free.upper() <= tail
    &&& forall|r: int, s: int|
        0 <= r < s < runs.len() ==> (#[trigger] runs[r]).free.upper() < (#[trigger] runs[s]).free.offset
}

/// The free part of `run` is not used up and lies wholly before `src`.
pub open spec fn eligible(run: Run, src: u32) -> bool {
    run.free.units > 0 && run.free.upper() <= src
}

/// Run `i` lies before `src` and is exactly `units` long.
pub open spec fn exact(runs: Seq<Run>, src: u32, units: u32, i: int) -> bool {
    0 <= i < runs.len() && eligible(runs[i], src) && runs[i].free.units == units
}

/// Run `i` may take an image of `units` units that lies at `src`: it fits exactly, or
/// no run does and it keeps a useful remainder.
pub open spec fn candidate(runs: Seq<Run>, src: u32, units: u32, i: int) -> bool {
    &&& 0 <= i < runs.len()
    &&& eligible(runs[i], src)
    &&& runs[i].free.units == units || {
        &&& forall|j: int| !#[trigger] exact(runs, src, units, j)
        &&& runs[i].free.units >= units + MIN_REMAINDER
    }
}

/// The smaller span comes first, and of two equally large ones the lower.
pub open spec fn ranks_before(a: Hole, b: Hole) -> bool {
    a.units < b.units || (a.units == b.units && a.offset <= b.offset)
}

/// Run `i` is the best destination for an image of `units` units that lies at `src`.
pub open spec fn is_best(runs: Seq<Run>, src: u32, units: u32, i: int) -> bool {
    &&& candidate(runs, src, units, i)
    &&& forall|j: int| #[trigger]
        candidate(runs, src, units, j) ==> ranks_before(runs[i].free, runs[j].free)
}

/// The destination for an image of `units` units that lies at `src`, if there is one.
pub open spec fn best_fit(runs: Seq<Run>, src: u32, units: u32) -> Option<int> {
    if exists|i: int| is_best(runs, src, units, i) {
        Some(choose|i: int| is_best(runs, src, units, i))
    } else {
        None
    }
}

/// Runs and moves after the first `k` images, taken in the order of `live`, each went
/// to its best destination.
pub open spec fn packed(runs: Seq<Run>, live: Seq<(u32, u32)>, k: nat) -> (Seq<Run>, Seq<Move>)
    decreases k,
{
    if k == 0 {
        (runs, Seq::empty())
    } else {
        let (now, moves) = packed(runs, live, (k - 1) as nat);
        let (src, units) = live[k - 1];
        match best_fit(now, src, units) {
            None => (now, moves),
            Some(i) => (
                now.update(i, now[i].taken(units)),
                moves.push(Move { src, dst: now[i].free.offset, units }),
            ),
        }
    }
}

/// Unit `u` is free once the plan is carried out: it lies in what is left of a run, or
/// in a span that an image leaves.
pub open spec fn free_at(runs: Seq<Run>, moves: Seq<Move>, u: int) -> bool {
    ||| exists|r: int| 0 <= r < runs.len() && (#[trigger] runs[r]).free.covers(u)
    ||| exists|m: int| 0 <= m < moves.len() && (#[trigger] moves[m]).vacated().covers(u)
}

/// What a plan guarantees of the runs it leaves: each keeps its parts and its end, has
/// lost only units at its front, and what remains of a run that was used is nothing or
/// a useful remainder.
pub open spec fn leaves(entry: Seq<Run>, now: Seq<Run>) -> bool {
    &&& now.len() == entry.len()
    &&& forall|r: int|
        #![trigger now[r]]
        0 <= r < now.len() ==> {
            &&& now[r].parts == entry[r].parts
            &&& now[r].free.upper() == entry[r].free.upper()
            &&& entry[r].free.offset <= now[r].free.offset
            &&& now[r].free == entry[r].free || now[r].free.units == 0 || now[r].free.units
                >= MIN_REMAINDER
        }
}

/// A move carries an image that is listed in `live` into space that run `r` had at entry
/// and has given up since, wholly before the image.
pub open spec fn move_fits(entry: Run, now: Run, mv: Move) -> bool {
    &&& entry.free.offset <= mv.dst
    &&& mv.dst + mv.units <= now.free.offset
    &&& entry.free.upper() <= mv.src
}

/// Some run took the image that `mv` carries.
pub open spec fn placed(entry: Seq<Run>, now: Seq<Run>, mv: Move) -> bool {
    exists|r: int| 0 <= r < now.len() && move_fits(entry[r], #[trigger] now[r], mv)
}

/// `mv` carries one of the first `k` images of `live`.
pub open spec fn carries(live: Seq<(u32, u32)>, k: int, mv: Move) -> bool {
    exists|a: int| 0 <= a < k && #[trigger] live[a] == (mv.src, mv.units)
}

/// Two moves have destinations that share no unit.
pub open spec fn dst_apart(a: Move, b: Move) -> bool {
    a.dst + a.units <= b.dst || b.dst + b.units <= a.dst
}

/// What a plan guarantees of its moves.
pub open spec fn moves_ok(
    entry: Seq<Run>,
    now: Seq<Run>,
    live: Seq<(u32, u32)>,
    k: int,
    moves: Seq<Move>,
) -> bool {
    &&& forall|m: int|
        0 <= m < moves.len() ==> {
            &&& carries(live, k, #[trigger] moves[m])
            &&& placed(entry, now, moves[m])
            &&& moves[m].units > 0
        }
    &&& forall|m: int, n: int|
        0 <= m < n < moves.len() ==> {
            &&& (#[trigger] moves[n]).src + moves[n].units <= (#[trigger] moves[m]).src
            &&& dst_apart(moves[m], moves[n])
        }
}

/// The order of the maximal groups follows from the order of the holes.
pub proof fn runs_are_ordered(holes: Seq<Hole>, runs: Seq<Run>, tail: int)
    requires
        holes_ok(holes, tail),
        runs_of(holes, runs),
    ensures
        runs_ordered(runs, tail),
        forall|r: int| 0 <= r < runs.len() ==> (#[trigger] runs[r]).free.units > 0,
{
    assert forall|r: int| 0 <= r < runs.len() implies (#[trigger] runs[r]).free.upper() <= tail
        && runs[r].free.units > 0 by {
        assert(run_joins(holes, runs[r]));
        let first = runs[r].parts.start as int;
        let last = runs[r].parts.end - 1;
        assert(holes[first].units > 0);
        assert(holes[last].upper() <= tail);
        if first < last {
            assert(holes[first].upper() <= holes[last].offset);
        }
    }
    assert forall|r: int, s: int| 0 <= r < s < runs.len() implies (#[trigger] runs[r]).free.upper()
        < (#[trigger] runs[s]).free.offset by {
        runs_ascend(holes, runs, tail, r, s);
    }
}

proof fn runs_ascend(holes: Seq<Hole>, runs: Seq<Run>, tail: int, r: int, s: int)
    requires
        holes_ok(holes, tail),
        runs_of(holes, runs),
        0 <= r < s < runs.len(),
    ensures
        runs[r].free.upper() < runs[s].free.offset,
    decreases s - r,
{
    assert(runs[s - 1].free.upper() < runs[s].free.offset);
    if r < s - 1 {
        runs_ascend(holes, runs, tail, r, s - 1);
        assert(run_joins(holes, runs[s - 1]));
        let first = runs[s - 1].parts.start as int;
        let last = runs[s - 1].parts.end - 1;
        if first < last {
            assert(holes[first].upper() <= holes[last].offset);
        }
    }
}

/// There is at most one best destination.
pub proof fn best_is_unique(runs: Seq<Run>, tail: int, src: u32, units: u32, i: int)
    requires
        runs_ordered(runs, tail),
        is_best(runs, src, units, i),
    ensures
        best_fit(runs, src, units) == Some(i),
{
    let k = choose|k: int| is_best(runs, src, units, k);
    assert(is_best(runs, src, units, k));
    assert(candidate(runs, src, units, k));
    assert(candidate(runs, src, units, i));
    if i < k {
        assert(runs[i].free.upper() < runs[k].free.offset);
    } else if k < i {
        assert(runs[k].free.upper() < runs[i].free.offset);
    }
}

/// A run that has only lost units at its front keeps the order of the runs.
pub proof fn leaves_keeps_order(entry: Seq<Run>, now: Seq<Run>, tail: int)
    requires
        runs_ordered(entry, tail),
        leaves(entry, now),
    ensures
        runs_ordered(now, tail),
{
    assert forall|r: int| 0 <= r < now.len() implies (#[trigger] now[r]).free.upper() <= tail by {
        assert(entry[r].free.upper() <= tail);
    }
    assert forall|r: int, s: int| 0 <= r < s < now.len() implies (#[trigger] now[r]).free.upper()
        < (#[trigger] now[s]).free.offset by {
        assert(entry[r].free.upper() < entry[s].free.offset);
    }
}

/// Every plan is safe: images move only towards the front, into space that was free
/// when the pass began, and no two images claim the same unit.
pub proof fn plan_is_safe(runs: Seq<Run>, live: Seq<(u32, u32)>, tail: int, k: nat)
    requires
        runs_ordered(runs, tail),
        live_ok(live, tail),
        tail <= u32::MAX,
        k <= live.len(),
    ensures
        leaves(runs, packed(runs, live, k).0),
        moves_ok(runs, packed(runs, live, k).0, live, k as int, packed(runs, live, k).1),
        packed(runs, live, k).1.len() <= k,
    decreases k,
{
    if k > 0 {
        plan_is_safe(runs, live, tail, (k - 1) as nat);
        let (now, moves) = packed(runs, live, (k - 1) as nat);
        let (src, units) = live[k - 1];
        let (next, all) = packed(runs, live, k);
        match best_fit(now, src, units) {
            None => {
                assert forall|m: int| 0 <= m < all.len() implies carries(
                    live,
                    k as int,
                    #[trigger] all[m],
                ) by {
                    let a = choose|a: int| 0 <= a < k - 1 && #[trigger] live[a] == (all[m].src, all[m].units);
                    assert(live[a] == (all[m].src, all[m].units));
                }
            },
            Some(i) => {
                assert(is_best(now, src, units, i));
                assert(candidate(now, src, units, i));
                let mv = Move { src, dst: now[i].free.offset, units };
                assert(now[i].free.upper() == runs[i].free.upper());
                assert(leaves(runs, next)) by {
                    assert(next[i] == now[i].taken(units));
                    assert(runs[i].free.offset <= now[i].free.offset);
                }
                assert(all == moves.push(mv));
                assert forall|m: int| 0 <= m < all.len() implies carries(
                    live,
                    k as int,
                    #[trigger] all[m],
                ) && placed(runs, next, all[m]) && all[m].units > 0 by {
                    if m < moves.len() {
                        assert(all[m] == moves[m]);
                        assert(carries(live, k - 1, moves[m]));
                        let a = choose|a: int|
                            0 <= a < k - 1 && #[trigger] live[a] == (all[m].src, all[m].units);
                        assert(live[a] == (all[m].src, all[m].units));
                        assert(placed(runs, now, moves[m]));
                        let r = choose|r: int|
                            0 <= r < now.len() && move_fits(runs[r], #[trigger] now[r], moves[m]);
                        assert(move_fits(runs[r], next[r], all[m]));
                    } else {
                        assert(all[m] == mv);
                        assert(live[k - 1] == (mv.src, mv.units));
                        assert(move_fits(runs[i], next[i], mv));
                    }
                }
                assert forall|m: int, n: int| 0 <= m < n < all.len() implies {
                    &&& (#[trigger] all[n]).src + all[n].units <= (#[trigger] all[m]).src
                    &&& dst_apart(all[m], all[n])
                } by {
                    if n < moves.len() {
                        assert(all[m] == moves[m]);
                        assert(all[n] == moves[n]);
                    } else {
                        assert(all[m] == moves[m]);
                        assert(carries(live, k - 1, moves[m]));
                        let a = choose|a: int|
                            0 <= a < k - 1 && #[trigger] live[a] == (all[m].src, all[m].units);
                        assert(live[k - 1].0 + live[k - 1].1 <= live[a].0);
                        assert(placed(runs, now, moves[m]));
                        let r = choose|r: int|
                            0 <= r < now.len() && move_fits(runs[r], #[trigger] now[r], moves[m]);
                        if r < i {
                            assert(runs[r].free.upper() < runs[i].free.offset);
                        } else if i < r {
                            assert(runs[i].free.upper() < runs[r].free.offset);
                        }
                    }
                }
            },
        }
    }
}

/// Groups physically adjacent holes without changing their freelist shape.
pub fn runs(holes: &Vec<Hole>, tail: Offset) -> (runs: Vec<Run>)
    requires
        holes_ok(holes@, tail as int),
    ensures
        runs_of(holes@, runs@),
{
    let mut runs: Vec<Run> = Vec::new();
    let mut i: usize = 0;
    while i < holes.len()
        invariant
            i <= holes.len(),
            holes_ok(holes@, tail as int),
            runs@.len() == 0 <==> i == 0,
            runs@.len() > 0 ==> runs@[0].parts.start == 0 && runs@.last().parts.end == i,
            forall|r: int| 0 <= r < runs@.len() ==> run_joins(holes@, #[trigger] runs@[r]),
            forall|r: int, q: int|
                0 <= r && q == r + 1 && q < runs@.len() ==> (#[trigger] runs@[q]).parts.start == (
                #[trigger] runs@[r]).parts.end && runs@[r].free.upper() < runs@[q].free.offset,
            0 < i < holes.len() ==> holes@[i - 1].upper() < holes@[i as int].offset,
        decreases holes.len() - i,
    {
        let ghost before = runs@;
        let first: usize = i;
        let offset: u32 = holes[i].offset;
        assert(holes@[i as int].upper() <= tail);
        let mut end: u32 = holes[i].end();
        i += 1;
        while i < holes.len() && holes[i].offset == end
            invariant
                holes_ok(holes@, tail as int),
                first < i <= holes.len(),
                offset == holes@[first as int].offset,
                end == holes@[i - 1].upper(),
                offset < end,
                forall|a: int, b: int|
                    first <= a && b == a + 1 && b < i ==> (#[trigger] holes@[b]).offset == (
                    #[trigger] holes@[a]).upper(),
            decreases holes.len() - i,
        {
            assert(holes@[i as int].upper() <= tail);
            end = holes[i].end();
            i += 1;
        }
        if i < holes.len() {
            assert(holes@[i - 1].upper() <= holes@[i as int].offset);
        }
        let run = Run { parts: first..i, free: Hole { offset, units: end - offset } };
        runs.push(run);
        proof {
            assert(run_joins(holes@, run));
            assert forall|r: int, q: int| 0 <= r && q == r + 1 && q < runs@.len() implies (
            #[trigger] runs@[q]).parts.start == (#[trigger] runs@[r]).parts.end
                && runs@[r].free.upper() < runs@[q].free.offset by {
                assert(runs@[r] == before[r]);
                if q < before.len() {
                    assert(runs@[q] == before[q]);
                } else {
                    assert(runs@[q] == run);
                    assert(run_joins(holes@, before.last()));
                }
            }
        }
    }
    runs
}

/// Selects the best exact fit, or else the best fit with a useful remainder, among the
/// first `count` runs.
pub fn fit(runs: &Vec<Run>, count: usize, units: u32, src: Offset) -> (best: Option<usize>)
    requires
        count <= runs.len(),
        forall|r: int| 0 <= r < runs.len() ==> (r < count <==> (#[trigger] runs@[r]).free.upper() <= src),
    ensures
        best matches Some(i) ==> is_best(runs@, src, units, i as int),
        best is None ==> forall|i: int| !#[trigger] candidate(runs@, src, units, i),
{
    let mut found: Option<usize> = None;
    let mut i: usize = 0;
    while i < count
        invariant
            i <= count <= runs.len(),
            forall|r: int|
                0 <= r < runs.len() ==> (r < count <==> (#[trigger] runs@[r]).free.upper() <= src),
            found matches Some(f) ==> f < i && exact(runs@, src, units, f as int) && forall|j: int|
                #![trigger exact(runs@, src, units, j)]
                0 <= j < i && exact(runs@, src, units, j) ==> runs@[f as int].free.offset
                    <= runs@[j].free.offset,
            found is None ==> forall|j: int|
                0 <= j < i ==> !#[trigger] exact(runs@, src, units, j),
        decreases count - i,
    {
        let free = runs[i].free;
        if free.units > 0 && free.units == units {
            assert(exact(runs@, src, units, i as int));
            match found {
                None => {
                    found = Some(i);
                },
                Some(f) => {
                    if free.offset < runs[f].free.offset {
                        found = Some(i);
                    }
                },
            }
        }
        i += 1;
    }
    if found.is_some() {
        proof {
            let f = found->0 as int;
            assert(candidate(runs@, src, units, f));
            assert forall|j: int| #[trigger] candidate(runs@, src, units, j) implies ranks_before(
                runs@[f].free,
                runs@[j].free,
            ) by {
                assert(exact(runs@, src, units, f));
                assert(exact(runs@, src, units, j));
            }
        }
        return found;
    }
    assert(forall|j: int| !#[trigger] exact(runs@, src, units, j));
    let minimum: u32 = match units.checked_add(MIN_REMAINDER) {
        Some(minimum) => minimum,
        None => {
            assert forall|j: int| !#[trigger] candidate(runs@, src, units, j) by {
                assert(!exact(runs@, src, units, j));
            }
            return None;
        },
    };
    let mut best: Option<usize> = None;
    let mut i: usize = 0;
    while i < count
        invariant
            i <= count <= runs.len(),
            minimum == units + MIN_REMAINDER,
            forall|j: int| !#[trigger] exact(runs@, src, units, j),
            forall|r: int|
                0 <= r < runs.len() ==> (r < count <==> (#[trigger] runs@[r]).free.upper() <= src),
            best matches Some(b) ==> b < i && candidate(runs@, src, units, b as int) && forall|j: int|
                #![trigger candidate(runs@, src, units, j)]
                0 <= j < i && candidate(runs@, src, units, j) ==> ranks_before(
                    runs@[b as int].free,
                    runs@[j].free,
                ),
            best is None ==> forall|j: int|
                0 <= j < i ==> !#[trigger] candidate(runs@, src, units, j),
        decreases count - i,
    {
        let free = runs[i].free;
        assert(!exact(runs@, src, units, i as int));
        if free.units >= minimum {
            match best {
                None => {
                    best = Some(i);
                },
                Some(b) => {
                    let kept = runs[b].free;
                    if free.units < kept.units || (free.units == kept.units && free.offset
                        < kept.offset) {
                        best = Some(i);
                    }
                },
            }
        }
        i += 1;
    }
    best
}

/// Packs `live`, which lists images in descending order, into `runs`.
pub fn pack(runs: &mut Vec<Run>, live: &Vec<(u32, u32)>, tail: Offset) -> (moves: Vec<Move>)
    requires
        runs_ordered(old(runs)@, tail as int),
        live_ok(live@, tail as int),
    ensures
        (final(runs)@, moves@) == packed(old(runs)@, live@, live@.len()),
{
    let ghost entry = runs@;
    let mut moves: Vec<Move> = Vec::new();
    let mut count: usize = runs.len();
    let mut k: usize = 0;
    while k < live.len()
        invariant_except_break
            k <= live.len(),
            count <= runs.len(),
            runs_ordered(entry, tail as int),
            live_ok(live@, tail as int),
            (runs@, moves@) == packed(entry, live@, k as nat),
            forall|r: int|
                count <= r < runs@.len() ==> k > 0 && (#[trigger] runs@[r]).free.upper() > live@[k - 1].0,
        ensures
            (runs@, moves@) == packed(entry, live@, live@.len()),
        decreases live.len() - k,
    {
        proof {
            plan_is_safe(entry, live@, tail as int, k as nat);
            leaves_keeps_order(entry, runs@, tail as int);
        }
        let (src, units) = live[k];
        assert forall|r: int| count <= r < runs.len() implies (#[trigger] runs@[r]).free.upper() > src by {
            assert(runs@[r].free.upper() > live@[k - 1].0);
            assert(live@[k as int].0 + live@[k as int].1 <= live@[k - 1].0);
        }
        while count > 0 && runs[count - 1].free.end() > src
            invariant
                count <= runs.len(),
                runs_ordered(runs@, tail as int),
                forall|r: int|
                    count <= r < runs.len() ==> (#[trigger] runs@[r]).free.upper() > src,
            decreases count,
        {
            count -= 1;
        }
        assert forall|r: int| 0 <= r < runs.len() implies (r < count <==> (#[trigger] runs@[r]).free.upper()
            <= src) by {
            if r < count - 1 {
                assert(runs@[r].free.upper() < runs@[count - 1].free.offset);
            }
        }
        if !any_left(runs, count) {
            proof {
                assert(forall|r: int| 0 <= r < runs.len() ==> !eligible(#[trigger] runs@[r], src));
                nothing_more(entry, live@, tail as int, k as nat, live@.len());
            }
            break;
        }
        match fit(runs, count, units, src) {
            Some(i) => {
                proof {
                    best_is_unique(runs@, tail as int, src, units, i as int);
                    assert(candidate(runs@, src, units, i as int));
                }
                let ghost before = runs@;
                let dst: u32 = runs[i].take(units);
                moves.push(Move { src, dst, units });
                proof {
                    assert(runs@ =~= before.update(i as int, before[i as int].taken(units)));
                    let now = packed(entry, live@, (k + 1) as nat);
                    assert(now.0 =~= runs@);
                    assert(now.1 =~= moves@);
                    assert forall|r: int| count <= r < runs.len() implies (
                    #[trigger] runs@[r]).free.upper() > src by {
                        assert(before[r].free.upper() > src);
                    }
                }
            },
            None => {
                assert(best_fit(runs@, src, units) is None) by {
                    if exists|i: int| is_best(runs@, src, units, i) {
                        let i = choose|i: int| is_best(runs@, src, units, i);
                        assert(candidate(runs@, src, units, i));
                    }
                }
            },
        }
        k += 1;
    }
    moves
}

/// Whether one of the first `count` runs has free units.
fn any_left(runs: &Vec<Run>, count: usize) -> (left: bool)
    requires
        count <= runs.len(),
    ensures
        left == exists|r: int| 0 <= r < count && (#[trigger] runs@[r]).free.units > 0,
{
    let mut i: usize = 0;
    while i < count
        invariant
            i <= count <= runs.len(),
            forall|r: int| 0 <= r < i ==> (#[trigger] runs@[r]).free.units == 0,
        decreases count - i,
    {
        if runs[i].free.units > 0 {
            return true;
        }
        i += 1;
    }
    false
}

/// Once no run before the next image has room, no later image finds a destination.
proof fn nothing_more(entry: Seq<Run>, live: Seq<(u32, u32)>, tail: int, k: nat, n: nat)
    requires
        live_ok(live, tail),
        k <= n <= live.len(),
        k < live.len(),
        forall|r: int|
            0 <= r < packed(entry, live, k).0.len() ==> !eligible(
                #[trigger] packed(entry, live, k).0[r],
                live[k as int].0,
            ),
    ensures
        packed(entry, live, n) == packed(entry, live, k),
    decreases n,
{
    if n > k {
        nothing_more(entry, live, tail, k, (n - 1) as nat);
        let now = packed(entry, live, k).0;
        let (src, units) = live[n - 1];
        assert(src <= live[k as int].0) by {
            if n - 1 > k {
                assert(live[n - 1].0 + live[n - 1].1 <= live[k as int].0);
            }
        }
        if exists|i: int| is_best(now, src, units, i) {
            let i = choose|i: int| is_best(now, src, units, i);
            assert(candidate(now, src, units, i));
            assert(!eligible(now[i], live[k as int].0));
        }
        assert(packed(entry, live, n) == packed(entry, live, (n - 1) as nat));
    }
}

/// The spans that images leave are non-empty, descending, disjoint, and end at or before
/// `tail`.
pub open spec fn sources_ok(moves: Seq<Move>, tail: int) -> bool {
    &&& forall|m: int|
        0 <= m < moves.len() ==> (#[trigger] moves[m]).units > 0 && moves[m].vacated().upper() <= tail
    &&& forall|m: int, n: int|
        0 <= m < n < moves.len() ==> (#[trigger] moves[n]).vacated().upper() <= (
        #[trigger] moves[m]).src
}

/// No run shares a unit with a span that an image leaves.
pub open spec fn sources_clear(runs: Seq<Run>, moves: Seq<Move>) -> bool {
    forall|r: int, m: int|
        0 <= r < runs.len() && 0 <= m < moves.len() ==> {
            ||| (#[trigger] runs[r]).free.upper() <= (#[trigger] moves[m]).src
            ||| moves[m].vacated().upper() <= runs[r].free.offset
        }
}

/// The moves of a plan leave disjoint spans, clear of the runs.
pub proof fn sources_of_plan(
    holes: Seq<Hole>,
    entry: Seq<Run>,
    now: Seq<Run>,
    live: Seq<(u32, u32)>,
    moves: Seq<Move>,
    tail: int,
)
    requires
        holes_ok(holes, tail),
        runs_of(holes, entry),
        live_ok(live, tail),
        apart(holes, live),
        leaves(entry, now),
        moves_ok(entry, now, live, live.len() as int, moves),
    ensures
        sources_ok(moves, tail),
        sources_clear(now, moves),
{
    assert forall|m: int| 0 <= m < moves.len() implies (#[trigger] moves[m]).vacated().upper()
        <= tail by {
        assert(carries(live, live.len() as int, moves[m]));
    }
    assert forall|r: int, m: int| 0 <= r < now.len() && 0 <= m < moves.len() implies {
        ||| (#[trigger] now[r]).free.upper() <= (#[trigger] moves[m]).src
        ||| moves[m].vacated().upper() <= now[r].free.offset
    } by {
        assert(carries(live, live.len() as int, moves[m]));
        let a = choose|a: int|
            0 <= a < live.len() && #[trigger] live[a] == (moves[m].src, moves[m].units);
        run_is_apart(holes, entry, live, tail, r, a);
    }
}

/// A run shares no unit with an image.
pub proof fn run_is_apart(
    holes: Seq<Hole>,
    runs: Seq<Run>,
    live: Seq<(u32, u32)>,
    tail: int,
    r: int,
    a: int,
)
    requires
        holes_ok(holes, tail),
        runs_of(holes, runs),
        live_ok(live, tail),
        apart(holes, live),
        0 <= r < runs.len(),
        0 <= a < live.len(),
    ensures
        runs[r].free.upper() <= live[a].0 || live[a].0 + live[a].1 <= runs[r].free.offset,
{
    assert(run_joins(holes, runs[r]));
    part_is_apart(holes, runs[r], live, tail, a, runs[r].parts.end as int);
}

proof fn part_is_apart(
    holes: Seq<Hole>,
    run: Run,
    live: Seq<(u32, u32)>,
    tail: int,
    a: int,
    n: int,
)
    requires
        holes_ok(holes, tail),
        run_joins(holes, run),
        live_ok(live, tail),
        apart(holes, live),
        0 <= a < live.len(),
        run.parts.start < n <= run.parts.end,
    ensures
        holes[n - 1].upper() <= live[a].0 || live[a].0 + live[a].1 <= run.free.offset,
    decreases n,
{
    assert(holes[n - 1].upper() <= live[a].0 || live[a].0 + live[a].1 <= holes[n - 1].offset);
    assert(live[a].1 > 0);
    if n - 1 > run.parts.start {
        part_is_apart(holes, run, live, tail, a, n - 1);
        assert(holes[n - 1].offset == holes[n - 2].upper());
    }
}

/// Returns the first unit of the free suffix that the plan leaves below `tail`.
pub fn compacted_tail(runs: &Vec<Run>, moves: &Vec<Move>, tail: Offset) -> (cut: Offset)
    requires
        runs_ordered(runs@, tail as int),
        sources_ok(moves@, tail as int),
        sources_clear(runs@, moves@),
    ensures
        cut <= tail,
        forall|u: int| cut <= u < tail ==> #[trigger] free_at(runs@, moves@, u),
        cut > 0 ==> !free_at(runs@, moves@, cut - 1),
{
    let mut run: usize = runs.len();
    let mut movement: usize = 0;
    let mut cut: u32 = tail;
    loop
        invariant
            run <= runs.len(),
            movement <= moves.len(),
            cut <= tail,
            runs_ordered(runs@, tail as int),
            sources_ok(moves@, tail as int),
            sources_clear(runs@, moves@),
            forall|u: int| cut <= u < tail ==> #[trigger] free_at(runs@, moves@, u),
            forall|r: int| 0 <= r < run ==> (#[trigger] runs@[r]).free.upper() <= cut,
            forall|r: int|
                run <= r < runs.len() ==> (#[trigger] runs@[r]).free.units == 0
                    || runs@[r].free.offset >= cut,
            forall|m: int|
                movement <= m < moves.len() ==> (#[trigger] moves@[m]).vacated().upper() <= cut,
            forall|m: int| 0 <= m < movement ==> (#[trigger] moves@[m]).src >= cut,
        ensures
            cut <= tail,
            forall|u: int| cut <= u < tail ==> #[trigger] free_at(runs@, moves@, u),
            cut > 0 ==> !free_at(runs@, moves@, cut - 1),
        decreases run + moves.len() - movement,
    {
        while run > 0 && runs[run - 1].free.units == 0
            invariant
                run <= runs.len(),
                forall|r: int| 0 <= r < run ==> (#[trigger] runs@[r]).free.upper() <= cut,
                forall|r: int|
                    run <= r < runs.len() ==> (#[trigger] runs@[r]).free.units == 0
                        || runs@[r].free.offset >= cut,
            decreases run,
        {
            run -= 1;
        }
        let free: Option<Hole> = if run > 0 {
            Some(runs[run - 1].free)
        } else {
            None
        };
        let source: Option<Hole> = if movement < moves.len() {
            Some(moves[movement].source())
        } else {
            None
        };
        let (hole, from_run) = match (free, source) {
            (Some(free), Some(source)) => {
                let take_run = free.offset >= source.offset;
                (
                    if free.offset > source.offset || (free.offset == source.offset && free.units
                        >= source.units) {
                        free
                    } else {
                        source
                    },
                    take_run,
                )
            },
            (Some(free), None) => (free, true),
            (None, Some(source)) => (source, false),
            (None, None) => {
                assert(cut > 0 ==> !free_at(runs@, moves@, cut - 1));
                break;
            },
        };
        proof {
            if free is Some && source is Some {
                // Two non-empty disjoint spans never start at the same unit.
                assert(runs@[run - 1].free.upper() <= moves@[movement as int].src
                    || moves@[movement as int].vacated().upper() <= runs@[run - 1].free.offset);
                assert(moves@[movement as int].units > 0);
            }
            if free is Some {
                assert(runs@[run - 1].free.upper() <= tail);
                assert forall|r: int| 0 <= r < run - 1 implies (#[trigger] runs@[r]).free.upper()
                    <= runs@[run - 1].free.offset by {
                    assert(runs@[r].free.upper() < runs@[run - 1].free.offset);
                }
            }
            if source is Some {
                assert(moves@[movement as int].vacated().upper() <= tail);
            }
        }
        if hole.end() != cut {
            proof {
                assert forall|r: int| 0 <= r < runs.len() implies !(#[trigger] runs@[r]).free.covers(
                    cut - 1,
                ) by {}
                assert forall|m: int| 0 <= m < moves.len() implies !(
                #[trigger] moves@[m]).vacated().covers(cut - 1) by {
                    if m > movement {
                        assert(moves@[m].vacated().upper() <= moves@[movement as int].src);
                    }
                }
            }
            break;
        }
        proof {
            assert forall|u: int| hole.offset <= u < tail implies #[trigger] free_at(
                runs@,
                moves@,
                u,
            ) by {
                if u < cut {
                    if from_run {
                        assert(runs@[run - 1].free.covers(u));
                    } else {
                        assert(moves@[movement as int].vacated().covers(u));
                    }
                }
            }
            assert forall|m: int| movement < m < moves.len() implies (
            #[trigger] moves@[m]).vacated().upper() <= moves@[movement as int].src by {}
        }
        cut = hole.offset;
        if from_run {
            run -= 1;
        } else {
            movement += 1;
        }
    }
    cut
}

} // verus!
