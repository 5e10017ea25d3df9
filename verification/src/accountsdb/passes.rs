//! Packing the persisted backend: a pass follows from the state that it begins in.

use vstd::prelude::*;

use crate::accountsdb::compact::{is_cut, is_pass, lists_free, lists_live};
use crate::accountsdb::db::{at_fixed_point, one_pass, packs, AccountsDB};
use crate::accountsdb::defrag::{packed, run_joins, runs_of, Defragged, Hole, Move, Offset, Run};
use crate::accountsdb::store::{tag_of, StoreState};
use crate::types::Pubkey;

verus! {

/// Two lists that ascend by the same key and have the same elements are the same.
proof fn ascending_lists_agree<A>(a: Seq<A>, b: Seq<A>, key: spec_fn(A) -> int)
    requires
        forall|i: int, j: int| 0 <= i < j < a.len() ==> key(#[trigger] a[i]) < key(#[trigger] a[j]),
        forall|i: int, j: int| 0 <= i < j < b.len() ==> key(#[trigger] b[i]) < key(#[trigger] b[j]),
        forall|x: A| #[trigger] a.contains(x) <==> b.contains(x),
    ensures
        a == b,
    decreases a.len(),
{
    if a.len() == 0 {
        if b.len() > 0 {
            assert(a.contains(b[0]));
        }
        assert(a =~= b);
    } else {
        assert(a.contains(a[0]));
        let j = choose|j: int| 0 <= j < b.len() && b[j] == a[0];
        assert(a.contains(b[0]));
        let i = choose|i: int| 0 <= i < a.len() && a[i] == b[0];
        assert(i == 0) by {
            if i > 0 {
                assert(key(a[0]) < key(a[i]));
                assert(j == 0 || key(b[0]) < key(b[j]));
            }
        }
        let p = a.skip(1);
        let q = b.skip(1);
        assert forall|x: A| #[trigger] p.contains(x) implies q.contains(x) by {
            let m = choose|m: int| 0 <= m < p.len() && p[m] == x;
            assert(a[m + 1] == x);
            assert(a.contains(x));
            let n = choose|n: int| 0 <= n < b.len() && b[n] == x;
            assert(key(a[0]) < key(a[m + 1]));
            assert(q[n - 1] == x);
        }
        assert forall|x: A| q.contains(x) implies #[trigger] p.contains(x) by {
            let m = choose|m: int| 0 <= m < q.len() && q[m] == x;
            assert(b[m + 1] == x);
            assert(b.contains(x));
            assert(a.contains(x));
            let n = choose|n: int| 0 <= n < a.len() && a[n] == x;
            assert(key(b[0]) < key(b[m + 1]));
            assert(p[n - 1] == x);
        }
        ascending_lists_agree(p, q, key);
        assert(a =~= seq![a[0]] + p);
        assert(b =~= seq![b[0]] + q);
    }
}

/// There is one list of the free spans.
proof fn free_lists_agree(s: StoreState, a: Seq<Hole>, b: Seq<Hole>)
    requires
        lists_free(a, s),
        lists_free(b, s),
    ensures
        a == b,
{
    let key = |h: Hole| h.offset as int;
    assert forall|i: int, j: int| 0 <= i < j < a.len() implies key(#[trigger] a[i]) < key(
        #[trigger] a[j],
    ) by {
        assert(a[i].units > 0 && a[i].upper() <= a[j].offset);
    }
    assert forall|i: int, j: int| 0 <= i < j < b.len() implies key(#[trigger] b[i]) < key(
        #[trigger] b[j],
    ) by {
        assert(b[i].units > 0 && b[i].upper() <= b[j].offset);
    }
    ascending_lists_agree(a, b, key);
}

/// There is one list of the images.
proof fn live_lists_agree(s: StoreState, a: Seq<(u32, u32)>, b: Seq<(u32, u32)>)
    requires
        lists_live(a, s),
        lists_live(b, s),
    ensures
        a == b,
{
    let key = |x: (u32, u32)| -(x.0 as int);
    assert forall|i: int, j: int| 0 <= i < j < a.len() implies key(#[trigger] a[i]) < key(
        #[trigger] a[j],
    ) by {
        assert(a[j].1 > 0 && a[j].0 + a[j].1 <= a[i].0);
    }
    assert forall|i: int, j: int| 0 <= i < j < b.len() implies key(#[trigger] b[i]) < key(
        #[trigger] b[j],
    ) by {
        assert(b[j].1 > 0 && b[j].0 + b[j].1 <= b[i].0);
    }
    assert forall|x: (u32, u32)| #[trigger] a.contains(x) <==> b.contains(x) by {
        assert(a.contains((x.0, x.1)) <==> b.contains((x.0, x.1)));
    }
    ascending_lists_agree(a, b, key);
}

/// A maximal group that begins where another does ends no later.
proof fn run_ends(holes: Seq<Hole>, a: Seq<Run>, b: Seq<Run>, k: int)
    requires
        runs_of(holes, a),
        runs_of(holes, b),
        0 <= k < a.len(),
        k < b.len(),
        a[k].parts.start == b[k].parts.start,
    ensures
        b[k].parts.end <= a[k].parts.end,
{
    let end = a[k].parts.end as int;
    assert(run_joins(holes, a[k]) && run_joins(holes, b[k]));
    if b[k].parts.end > end {
        assert(holes[end].offset == holes[end - 1].upper());
        if k == a.len() - 1 {
            assert(a.last().parts.end == holes.len());
        } else {
            let next = k + 1;
            assert(a[next].parts.start == a[k].parts.end);
            assert(run_joins(holes, a[next]));
        }
    }
}

/// The first `k` maximal groups are the same.
proof fn runs_agree(holes: Seq<Hole>, a: Seq<Run>, b: Seq<Run>, k: int)
    requires
        runs_of(holes, a),
        runs_of(holes, b),
        0 <= k <= a.len(),
    ensures
        k <= b.len(),
        forall|r: int| 0 <= r < k ==> #[trigger] a[r] == b[r],
    decreases k,
{
    if k > 0 {
        let r = k - 1;
        runs_agree(holes, a, b, r);
        assert(run_joins(holes, a[r]));
        if r > 0 {
            let last = r - 1;
            assert(a[last] == b[last]);
            assert(a[r].parts.start == a[last].parts.end);
            if r >= b.len() {
                assert(b.last().parts.end == holes.len());
            } else {
                assert(b[r].parts.start == b[last].parts.end);
            }
        } else {
            assert(holes.len() > 0);
        }
        run_ends(holes, a, b, r);
        run_ends(holes, b, a, r);
        assert(run_joins(holes, b[r]));
        assert(a[r].free == b[r].free);
        assert(a[r].parts == b[r].parts);
    }
}

/// There is one list of maximal groups.
proof fn all_runs_agree(holes: Seq<Hole>, a: Seq<Run>, b: Seq<Run>)
    requires
        runs_of(holes, a),
        runs_of(holes, b),
    ensures
        a == b,
{
    runs_agree(holes, a, b, a.len() as int);
    runs_agree(holes, b, a, b.len() as int);
    assert(a =~= b);
}

/// There is one free suffix.
proof fn cuts_agree(now: Seq<Run>, moves: Seq<Move>, tail: Offset, a: Offset, b: Offset)
    requires
        is_cut(now, moves, tail, a),
        is_cut(now, moves, tail, b),
    ensures
        a == b,
{
    if a < b {
        assert(crate::accountsdb::defrag::free_at(now, moves, b - 1));
    }
    if b < a {
        assert(crate::accountsdb::defrag::free_at(now, moves, a - 1));
    }
}

/// A pass follows from the state that it begins in: what it moves, what it reclaims, and what it
/// leads to.
pub proof fn passes_are_determined(
    s: StoreState,
    a: Defragged,
    t: StoreState,
    b: Defragged,
    u: StoreState,
)
    requires
        one_pass(s, a, t),
        one_pass(s, b, u),
    ensures
        a == b,
        t == u,
{
    let (holes, live, entry, cut) = choose|
        holes: Seq<Hole>,
        live: Seq<(u32, u32)>,
        entry: Seq<Run>,
        cut: Offset,
    | #[trigger] is_pass(s, holes, live, entry, cut, a, t);
    let (holes2, live2, entry2, cut2) = choose|
        holes: Seq<Hole>,
        live: Seq<(u32, u32)>,
        entry: Seq<Run>,
        cut: Offset,
    | #[trigger] is_pass(s, holes, live, entry, cut, b, u);
    free_lists_agree(s, holes, holes2);
    live_lists_agree(s, live, live2);
    all_runs_agree(holes, entry, entry2);
    let (now, moves) = packed(entry, live, live.len());
    cuts_agree(now, moves, s.meta.cursor, cut, cut2);
}

/// Nothing is left to be packed once a pass would change nothing.
proof fn no_pass_is_left(s: StoreState, t: StoreState, passes: nat, reclaimed: int)
    requires
        at_fixed_point(s),
        packs(s, t, passes, reclaimed),
    ensures
        passes == 0,
        reclaimed == 0,
        t == s,
    decreases passes,
{
    if passes > 0 {
        let (middle, outcome) = choose|middle: StoreState, outcome: Defragged|
            {
                &&& #[trigger] one_pass(middle, outcome, t)
                &&& outcome.moved > 0 || outcome.reclaimed > 0
                &&& packs(s, middle, (passes - 1) as nat, reclaimed - outcome.reclaimed)
            };
        no_pass_is_left(s, middle, (passes - 1) as nat, reclaimed - outcome.reclaimed);
        let still = Defragged { moved: 0, reclaimed: 0 };
        assert(one_pass(s, still, s));
        passes_are_determined(s, still, s, outcome, t);
    }
}

/// Compacting again reclaims nothing, moves nothing, and leaves the store as it is.
pub proof fn compacting_again_changes_nothing(
    before: AccountsDB,
    after: AccountsDB,
    reclaimed: u64,
    again: AccountsDB,
    more: u64,
)
    requires
        before.compacts(after, reclaimed),
        after.compacts(again, more),
    ensures
        more == 0,
        again.persisted.state() == after.persisted.state(),
        again.volatile == after.volatile,
{
    let s = after.persisted.state();
    let (packed, passes) = choose|packed: StoreState, passes: nat|
        {
            &&& #[trigger] packs(s, packed, passes, more as int)
            &&& at_fixed_point(packed)
            &&& again.persisted.state() == crate::accountsdb::db::sealed(packed, passes)
        };
    no_pass_is_left(s, packed, passes, more as int);
}

/// Compaction moves images, and that shows nowhere: every read returns what it returned, every
/// program owns the accounts that it owned, the checksum of the contents is the same, and a
/// store that was valid stays valid.
pub proof fn compaction_is_invisible(
    before: AccountsDB,
    after: AccountsDB,
    reclaimed: u64,
    key: Seq<u8>,
    owner: Pubkey,
)
    requires
        before.wf(),
        after.wf(),
        before.compacts(after, reclaimed),
    ensures
        after.lookup(key) == before.lookup(key),
        (after.persisted.state().located.contains_key(key)
            && after.persisted.state().located[key].owner == tag_of(owner)) == (
        before.persisted.state().located.contains_key(key)
            && before.persisted.state().located[key].owner == tag_of(owner)),
        after.persisted.state().checksum() == before.persisted.state().checksum(),
        before.persisted.verdict(before.persisted.state().checksum()) is Ok
            ==> after.persisted.verdict(after.persisted.state().checksum()) is Ok,
{
    let s = before.persisted.state();
    let t = after.persisted.state();
    assert(s.accounts().dom() =~= t.accounts().dom());
    assert(s.located.contains_key(key) == s.accounts().contains_key(key));
    assert(t.located.contains_key(key) == t.accounts().contains_key(key));
    if s.located.contains_key(key) {
        assert(s.accounts()[key] == t.accounts()[key]);
        assert(s.located[key].owner =~= t.located[key].owner);
    }
}

} // verus!
