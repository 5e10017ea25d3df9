//! What packing is for: images go where they fit, and the file ends where the last image does.

use vstd::prelude::*;

use crate::accountsdb::compact::{is_pass, pass_publishes_free_space};
use crate::accountsdb::defrag::{
    best_fit, best_is_unique, candidate, exact, is_best, packed, ranks_before, runs_ordered,
    Defragged, Hole, Offset, Run,
};
use crate::accountsdb::store::StoreState;

verus! {

/// A free run in front of an image can take it: it is exactly as large, or so much larger that
/// what is left of it is of use.
pub open spec fn takes(run: Run, src: u32, units: u32) -> bool {
    &&& run.free.units > 0
    &&& run.free.offset + run.free.units <= src
    &&& run.free.units == units || run.free.units >= units + 33
}

/// A best one is among the first `n` candidates, if there is one at all.
proof fn some_is_best(runs: Seq<Run>, src: u32, units: u32, n: int) -> (best: int)
    requires
        0 <= n <= runs.len(),
        exists|i: int| i < n && #[trigger] candidate(runs, src, units, i),
    ensures
        best < n,
        candidate(runs, src, units, best),
        forall|j: int|
            j < n && #[trigger] candidate(runs, src, units, j) ==> ranks_before(
                runs[best].free,
                runs[j].free,
            ),
    decreases n,
{
    let last = n - 1;
    if exists|i: int| i < last && #[trigger] candidate(runs, src, units, i) {
        let before = some_is_best(runs, src, units, last);
        if candidate(runs, src, units, last) && !ranks_before(runs[before].free, runs[last].free) {
            last
        } else {
            before
        }
    } else {
        let i = choose|i: int| i < n && #[trigger] candidate(runs, src, units, i);
        assert(i == last);
        last
    }
}

/// If a run in front of an image can take it, one that can is found: one of exactly its size if
/// there is such a run, else the smallest of those that can.
pub proof fn images_find_a_place(runs: Seq<Run>, tail: int, src: u32, units: u32, i: int)
    requires
        runs_ordered(runs, tail),
        0 <= i < runs.len(),
        takes(runs[i], src, units),
    ensures
        best_fit(runs, src, units) matches Some(k) && {
            &&& 0 <= k < runs.len()
            &&& takes(runs[k], src, units)
            &&& runs[i].free.units == units ==> runs[k].free.units == units
            &&& runs[k].free.units <= runs[i].free.units
        },
{
    if exists|j: int| #[trigger] exact(runs, src, units, j) {
        let j = choose|j: int| #[trigger] exact(runs, src, units, j);
        assert(candidate(runs, src, units, j));
    } else {
        assert(!exact(runs, src, units, i));
        assert(candidate(runs, src, units, i));
    }
    let k = some_is_best(runs, src, units, runs.len() as int);
    assert(is_best(runs, src, units, k));
    best_is_unique(runs, tail, src, units, k);
    if runs[i].free.units == units {
        assert(exact(runs, src, units, i));
        assert(candidate(runs, src, units, i));
    }
    if !(exists|j: int| #[trigger] exact(runs, src, units, j)) {
        assert(candidate(runs, src, units, i));
    } else {
        let j = choose|j: int| #[trigger] exact(runs, src, units, j);
        assert(candidate(runs, src, units, j));
    }
}

/// An image stays where it is if no run in front of it can take it.
pub proof fn others_stay(runs: Seq<Run>, src: u32, units: u32)
    requires
        forall|i: int| 0 <= i < runs.len() ==> !takes(#[trigger] runs[i], src, units),
    ensures
        best_fit(runs, src, units) is None,
{
    if exists|i: int| is_best(runs, src, units, i) {
        let i = choose|i: int| is_best(runs, src, units, i);
        assert(candidate(runs, src, units, i));
        assert(!takes(runs[i], src, units));
    }
}

/// Each image in its turn is moved if a run in front of it can take it, into that run and towards
/// the front, and only then.
pub proof fn images_move_where_they_fit(
    entry: Seq<Run>,
    live: Seq<(u32, u32)>,
    tail: int,
    k: nat,
    i: int,
)
    requires
        k < live.len(),
        runs_ordered(packed(entry, live, k).0, tail),
        0 <= i < packed(entry, live, k).0.len(),
        takes(packed(entry, live, k).0[i], live[k as int].0, live[k as int].1),
    ensures
        ({
            let moves = packed(entry, live, k).1;
            let more = packed(entry, live, k + 1).1;
            &&& more.len() == moves.len() + 1
            &&& more.last().src == live[k as int].0
            &&& more.last().units == live[k as int].1
            &&& more.last().dst + more.last().units <= more.last().src
        }),
{
    let (now, moves) = packed(entry, live, k);
    let (src, units) = live[k as int];
    images_find_a_place(now, tail, src, units, i);
    let next = k + 1;
    assert((next - 1) as nat == k);
    assert(packed(entry, live, next).1 == moves.push(
        packed(entry, live, next).1.last(),
    ));
}

/// After a pass that changed something the file ends with an image: no free space is left behind
/// the last one. What was cut off is counted, and the file is no longer than it needs to be.
pub proof fn files_end_with_an_image(
    before: StoreState,
    holes: Seq<Hole>,
    live: Seq<(u32, u32)>,
    entry: Seq<Run>,
    cut: Offset,
    outcome: Defragged,
    after: StoreState,
    hole: Hole,
)
    requires
        before.wf(),
        before.heap.dom().finite(),
        is_pass(before, holes, live, entry, cut, outcome, after),
        outcome.moved > 0 || outcome.reclaimed > 0,
    ensures
        after.meta.cursor + outcome.reclaimed == before.meta.cursor,
        after.free.contains(hole) && hole.units > 0 ==> hole.offset + hole.units
            < after.meta.cursor,
        outcome.reclaimed > 0 ==> after.meta.len == 8 * after.meta.cursor + 256,
        outcome.reclaimed == 0 ==> after.meta.len == before.meta.len,
{
    if after.free.contains(hole) && hole.units > 0 {
        let u = hole.offset + hole.units - 1;
        assert(hole.covers(u));
        pass_publishes_free_space(before, holes, live, entry, cut, outcome, after, u);
    }
}

} // verus!
