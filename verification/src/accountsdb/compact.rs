//! One packing pass over a persisted backend.

use vstd::prelude::*;

use crate::accountsdb::defrag::{
    apart, carries, compacted_tail, dst_apart, free_at, holes_ok, leaves, live_ok, move_fits,
    moves_ok, pack, packed, placed, plan_is_safe, run_joins, runs, runs_are_ordered, runs_of,
    sources_ok, sources_of_plan, Defragged, Hole, Move, Offset, Run,
};
use crate::accountsdb::index::{tail_of, OwnerAndOffset};
use crate::accountsdb::storage::{bumped, byte_len, DatabaseMeta, Stats};
use crate::accountsdb::store::{
    image_views, place_bytes, place_key, place_key_injective, spans_apart, Image, ImageView,
    PersistedStore, StoreState,
};

use crate::types::AccountMode;

verus! {

/// `holes` lists the free spans in ascending order.
pub open spec fn lists_free(holes: Seq<Hole>, state: StoreState) -> bool {
    &&& holes_ok(holes, state.meta.cursor as int)
    &&& forall|h: Hole| #[trigger] holes.contains(h) <==> state.free.contains(h)
}

/// `live` lists positions and sizes of the images in descending order.
pub open spec fn lists_live(live: Seq<(u32, u32)>, state: StoreState) -> bool {
    &&& live_ok(live, state.meta.cursor as int)
    &&& forall|offset: u32, span: u32| #[trigger]
        live.contains((offset, span)) <==> state.heap.contains_key(place_key(offset))
            && state.heap[place_key(offset)].span == span
}

/// The image that `mv` carries lies at its destination, and the index says so.
pub open spec fn carried_one(state: StoreState, mv: Move) -> StoreState {
    let image = state.heap[place_key(mv.src)];
    let owner = state.located[image.key@].owner;
    let row = OwnerAndOffset { owner, offset: mv.dst };
    StoreState {
        located: state.located.insert(image.key@, row),
        owned: state.owned.remove(OwnerAndOffset { owner, offset: mv.src }).insert(row),
        heap: state.heap.remove(place_key(mv.src)).insert(
            place_key(mv.dst),
            ImageView { offset: mv.dst, ..image },
        ),
        ..state
    }
}

/// After the first `k` moves.
pub open spec fn carried(state: StoreState, moves: Seq<Move>, k: nat) -> StoreState
    decreases k,
{
    if k == 0 {
        state
    } else {
        carried_one(carried(state, moves, (k - 1) as nat), moves[k - 1])
    }
}

/// What is left of hole `i`, a part of run `r`, below `cut`.
pub open spec fn is_rest(
    holes: Seq<Hole>,
    now: Seq<Run>,
    cut: Offset,
    i: int,
    r: int,
    hole: Hole,
) -> bool {
    let from = if holes[i].offset >= now[r].free.offset {
        holes[i].offset
    } else {
        now[r].free.offset
    };
    let to = if holes[i].upper() <= cut {
        holes[i].upper()
    } else {
        cut as int
    };
    &&& 0 <= r < now.len()
    &&& now[r].parts.start <= i < now[r].parts.end
    &&& from < to
    &&& hole == Hole { offset: from, units: (to - from) as u32 }
}

/// What a move vacates below `cut`.
pub open spec fn is_vacated(mv: Move, cut: Offset, hole: Hole) -> bool {
    let to = if mv.vacated().upper() <= cut {
        mv.vacated().upper()
    } else {
        cut as int
    };
    &&& mv.src < cut
    &&& hole == Hole { offset: mv.src, units: (to - mv.src) as u32 }
}

/// The freelist after a pass: what is left of each hole, with its own bounds, and what each
/// move vacates, all below `cut`.
pub open spec fn published(
    holes: Seq<Hole>,
    now: Seq<Run>,
    moves: Seq<Move>,
    cut: Offset,
) -> Set<Hole> {
    Set::new(
        |hole: Hole|
            {
                ||| exists|i: int, r: int| #[trigger] is_rest(holes, now, cut, i, r, hole)
                ||| exists|m: int|
                    0 <= m < moves.len() && is_vacated(#[trigger] moves[m], cut, hole)
            },
    )
}

/// `cut` is the first unit of the free suffix that a plan leaves below `tail`.
pub open spec fn is_cut(now: Seq<Run>, moves: Seq<Move>, tail: Offset, cut: Offset) -> bool {
    &&& cut <= tail
    &&& forall|u: int| cut <= u < tail ==> #[trigger] free_at(now, moves, u)
    &&& cut > 0 ==> !free_at(now, moves, cut - 1)
}

/// The backend after a plan was carried out.
pub open spec fn packed_state(
    state: StoreState,
    holes: Seq<Hole>,
    now: Seq<Run>,
    moves: Seq<Move>,
    cut: Offset,
) -> StoreState {
    let stats = state.meta.stats;
    let counted = DatabaseMeta {
        stats: Stats { compactions: bumped(stats.compactions, moves.len() as u64), ..stats },
        ..state.meta
    };
    StoreState {
        free: published(holes, now, moves, cut),
        meta: if cut < state.meta.cursor {
            DatabaseMeta { cursor: cut, ..counted.resized(byte_len(cut as int) as u64, true) }
        } else {
            counted
        },
        ..carried(state, moves, moves.len())
    }
}

/// One pass: the free spans form runs, each image goes to its best destination in
/// descending order, and the free suffix is cut off.
pub open spec fn is_pass(
    before: StoreState,
    holes: Seq<Hole>,
    live: Seq<(u32, u32)>,
    entry: Seq<Run>,
    cut: Offset,
    outcome: Defragged,
    after: StoreState,
) -> bool {
    let (now, moves) = packed(entry, live, live.len());
    &&& lists_free(holes, before)
    &&& lists_live(live, before)
    &&& runs_of(holes, entry)
    &&& is_cut(now, moves, before.meta.cursor, cut)
    &&& outcome.moved == moves.len()
    &&& outcome.reclaimed == before.meta.cursor - cut
    &&& after == if outcome.moved > 0 || outcome.reclaimed > 0 {
        packed_state(before, holes, now, moves, cut)
    } else {
        before
    }
}

/// What the parts of a plan give each other: the shape that the proofs below work on.
pub open spec fn plan_ok(
    s: StoreState,
    holes: Seq<Hole>,
    live: Seq<(u32, u32)>,
    entry: Seq<Run>,
    now: Seq<Run>,
    moves: Seq<Move>,
) -> bool {
    &&& lists_free(holes, s)
    &&& lists_live(live, s)
    &&& apart(holes, live)
    &&& runs_of(holes, entry)
    &&& leaves(entry, now)
    &&& moves_ok(entry, now, live, live.len() as int, moves)
}

proof fn lists_are_apart(s: StoreState, holes: Seq<Hole>, live: Seq<(u32, u32)>)
    requires
        s.wf(),
        lists_free(holes, s),
        lists_live(live, s),
    ensures
        apart(holes, live),
{
    assert forall|i: int, j: int| 0 <= i < holes.len() && 0 <= j < live.len() implies {
        ||| (#[trigger] holes[i]).upper() <= (#[trigger] live[j]).0
        ||| live[j].0 + live[j].1 <= holes[i].offset
    } by {
        assert(holes.contains(holes[i]));
        assert(live.contains((live[j].0, live[j].1)));
        let place = place_key(live[j].0);
        assert(s.free.contains(holes[i]) && s.heap.contains_key(place));
        image_lies_at(s, live[j].0);
    }
}

/// The image filed under a position lies there.
proof fn image_lies_at(s: StoreState, offset: Offset)
    requires
        s.linked(),
        s.heap.contains_key(place_key(offset)),
    ensures
        s.heap[place_key(offset)].offset == offset,
{
    place_key_injective(offset, s.heap[place_key(offset)].offset);
}

/// Each move names an image of the backend, and a destination inside a run.
proof fn move_facts(
    s: StoreState,
    holes: Seq<Hole>,
    live: Seq<(u32, u32)>,
    entry: Seq<Run>,
    now: Seq<Run>,
    moves: Seq<Move>,
    m: int,
)
    requires
        s.wf(),
        plan_ok(s, holes, live, entry, now, moves),
        0 <= m < moves.len(),
    ensures
        s.heap.contains_key(place_key(moves[m].src)),
        s.heap[place_key(moves[m].src)].span == moves[m].units,
        s.heap[place_key(moves[m].src)].offset == moves[m].src,
        moves[m].units > 0,
        moves[m].dst + moves[m].units <= moves[m].src,
        moves[m].src + moves[m].units <= s.meta.cursor,
        exists|r: int| 0 <= r < now.len() && move_fits(entry[r], #[trigger] now[r], moves[m]),
{
    let mv = moves[m];
    assert(carries(live, live.len() as int, mv));
    let a = choose|a: int| 0 <= a < live.len() && #[trigger] live[a] == (mv.src, mv.units);
    assert(live.contains((mv.src, mv.units)));
    image_lies_at(s, mv.src);
    assert(placed(entry, now, mv));
    let r = choose|r: int| 0 <= r < now.len() && move_fits(entry[r], #[trigger] now[r], mv);
    assert(now[r].free.upper() == entry[r].free.upper());
}

/// A destination shares no unit with an image that was there when the pass began.
proof fn destination_is_clear(
    s: StoreState,
    holes: Seq<Hole>,
    live: Seq<(u32, u32)>,
    entry: Seq<Run>,
    now: Seq<Run>,
    moves: Seq<Move>,
    m: int,
    place: Seq<u8>,
)
    requires
        s.wf(),
        plan_ok(s, holes, live, entry, now, moves),
        0 <= m < moves.len(),
        s.heap.contains_key(place),
    ensures
        spans_apart(
            moves[m].dst as int,
            moves[m].units as int,
            s.heap[place].offset as int,
            s.heap[place].span as int,
        ),
{
    move_facts(s, holes, live, entry, now, moves, m);
    let mv = moves[m];
    let r = choose|r: int| 0 <= r < now.len() && move_fits(entry[r], #[trigger] now[r], mv);
    let image = s.heap[place];
    assert(place == place_key(image.offset));
    assert(live.contains((image.offset, image.span)));
    let a = choose|a: int| 0 <= a < live.len() && live[a] == (image.offset, image.span);
    crate::accountsdb::defrag::run_is_apart(
        holes,
        entry,
        live,
        s.meta.cursor as int,
        r,
        a,
    );
    assert(now[r].free.upper() == entry[r].free.upper());
}

/// Where each image is after `k` moves: where it was, or at the destination of its move.
pub open spec fn settled(s: StoreState, t: StoreState, moves: Seq<Move>, k: int, place: Seq<u8>) -> bool {
    ||| {
        &&& s.heap.contains_key(place)
        &&& t.heap[place] == s.heap[place]
        &&& forall|m: int| 0 <= m < k ==> (#[trigger] moves[m]).src != s.heap[place].offset
    }
    ||| exists|m: int|
        0 <= m < k && place == place_key((#[trigger] moves[m]).dst) && t.heap[place] == (ImageView {
            offset: moves[m].dst,
            ..s.heap[place_key(moves[m].src)]
        })
}

/// Sum of the positions of the images under `places`.
pub open spec fn weight(heap: Map<Seq<u8>, ImageView>, places: Set<Seq<u8>>) -> nat
    decreases places.len(),
{
    if places.finite() && places.len() > 0 {
        let place = places.choose();
        heap[place].offset as nat + weight(heap, places.remove(place))
    } else {
        0
    }
}

/// The sum may be taken in any order.
proof fn weight_splits(heap: Map<Seq<u8>, ImageView>, places: Set<Seq<u8>>, place: Seq<u8>)
    requires
        places.finite(),
        places.contains(place),
    ensures
        weight(heap, places) == heap[place].offset + weight(heap, places.remove(place)),
    decreases places.len(),
{
    let first = places.choose();
    if first != place {
        weight_splits(heap, places.remove(first), place);
        weight_splits(heap, places.remove(place), first);
        assert(places.remove(first).remove(place) =~= places.remove(place).remove(first));
    }
}

/// The sum depends only on the positions.
proof fn weight_agrees(a: Map<Seq<u8>, ImageView>, b: Map<Seq<u8>, ImageView>, places: Set<Seq<u8>>)
    requires
        forall|p: Seq<u8>| #[trigger] places.contains(p) ==> a[p].offset == b[p].offset,
    ensures
        weight(a, places) == weight(b, places),
    decreases places.len(),
{
    if places.finite() && places.len() > 0 {
        let first = places.choose();
        assert(places.contains(first));
        weight_agrees(a, b, places.remove(first));
    }
}

/// Sum of the positions of all images of a backend.
pub open spec fn total_weight(s: StoreState) -> nat {
    weight(s.heap, s.heap.dom())
}

/// Carrying one image keeps index and images linked, and every account as it was.
proof fn carried_one_linked(a: StoreState, mv: Move)
    requires
        a.linked(),
        a.authoritative(),
        a.heap.contains_key(place_key(mv.src)),
        !a.heap.contains_key(place_key(mv.dst)),
    ensures
        carried_one(a, mv).linked(),
        carried_one(a, mv).located.dom() == a.located.dom(),
        carried_one(a, mv).accounts() == a.accounts(),
        carried_one(a, mv).authoritative(),
{
    let b = carried_one(a, mv);
    let from = place_key(mv.src);
    let to = place_key(mv.dst);
    let image = a.heap[from];
    let key = image.key@;
    let old_row = a.located[key];
    let owner = old_row.owner;
    let row = OwnerAndOffset { owner, offset: mv.dst };
    image_lies_at(a, mv.src);
    assert(old_row == (OwnerAndOffset { owner, offset: mv.src }));
    assert(b.linked()) by {
        assert forall|q: Seq<u8>| #[trigger] b.located.contains_key(q) implies {
            let r = b.located[q];
            let p = place_key(r.offset);
            &&& q.len() == 32
            &&& b.heap.contains_key(p)
            &&& b.heap[p].key@ == q
            &&& r.owner@ == tail_of(b.heap[p].account.owner)
            &&& b.owned.contains(r)
        } by {
            assert(a.located.contains_key(q));
            if q != key {
                let p = place_key(a.located[q].offset);
                assert(a.heap[p].key@ == q);
                assert(p != from);
                assert(a.heap.contains_key(p));
                assert(p != to);
                assert(a.located[q] != old_row);
            }
        }
        assert forall|p: Seq<u8>| #[trigger] b.heap.contains_key(p) implies {
            let i = b.heap[p];
            &&& p == place_key(i.offset)
            &&& b.located.contains_key(i.key@)
            &&& b.located[i.key@].offset == i.offset
        } by {
            if p != to {
                assert(a.heap.contains_key(p));
                if a.heap[p].key@ == key {
                    assert(a.located[key].offset == a.heap[p].offset);
                }
            }
        }
        assert forall|r: OwnerAndOffset| #[trigger] b.owned.contains(r) implies {
            let p = place_key(r.offset);
            &&& b.heap.contains_key(p)
            &&& b.located[b.heap[p].key@] == r
        } by {
            if r != row {
                assert(a.owned.contains(r));
                let p = place_key(r.offset);
                assert(a.heap.contains_key(p));
                assert(a.located[a.heap[p].key@] == r);
                if p == from {
                    assert(r == old_row);
                }
            }
        }
    }
    assert(b.located.dom() =~= a.located.dom());
    assert(b.accounts() =~= a.accounts()) by {
        assert forall|q: Seq<u8>| a.located.contains_key(q) implies #[trigger] b.accounts()[q]
            == a.accounts()[q] by {
            assert(a.located.contains_key(q));
            if q != key {
                let p = place_key(a.located[q].offset);
                assert(a.heap[p].key@ == q);
                assert(p != from && p != to);
            }
        }
    }
    assert(b.authoritative()) by {
        assert forall|p: Seq<u8>| #[trigger]
            b.heap.contains_key(p) implies b.heap[p].account.mode.is_authoritative()
            && b.heap[p].account.mode != AccountMode::Closed && 0 < b.heap[p].account.units
            <= b.heap[p].span by {
            if p != to {
                assert(a.heap.contains_key(p));
            }
        }
    }
}

/// Carrying one image towards the front lowers the sum of the positions.
proof fn carried_one_weight(a: StoreState, mv: Move)
    requires
        a.linked(),
        a.heap.dom().finite(),
        a.heap.contains_key(place_key(mv.src)),
        !a.heap.contains_key(place_key(mv.dst)),
        mv.dst < mv.src,
    ensures
        carried_one(a, mv).heap.dom().finite(),
        total_weight(carried_one(a, mv)) + 1 <= total_weight(a),
{
    let b = carried_one(a, mv);
    let from = place_key(mv.src);
    let to = place_key(mv.dst);
    image_lies_at(a, mv.src);
    let places = a.heap.dom();
    assert(b.heap.dom() =~= places.remove(from).insert(to));
    weight_splits(a.heap, places, from);
    weight_splits(b.heap, b.heap.dom(), to);
    assert(b.heap.dom().remove(to) =~= places.remove(from));
    weight_agrees(a.heap, b.heap, places.remove(from));
}

/// The moves carry images of the backend towards the front, onto units that no image
/// occupies, and never two onto the same unit.
pub open spec fn relocatable(s: StoreState, moves: Seq<Move>) -> bool {
    &&& forall|place: Seq<u8>| #[trigger] s.heap.contains_key(place) ==> s.heap[place].span > 0
    &&& forall|m: int|
        0 <= m < moves.len() ==> {
            let mv = #[trigger] moves[m];
            &&& s.heap.contains_key(place_key(mv.src))
            &&& s.heap[place_key(mv.src)].offset == mv.src
            &&& s.heap[place_key(mv.src)].span == mv.units
            &&& mv.units > 0
            &&& mv.dst + mv.units <= mv.src
        }
    &&& forall|m: int, place: Seq<u8>|
        #![trigger moves[m], s.heap.contains_key(place)]
        0 <= m < moves.len() && s.heap.contains_key(place) ==> spans_apart(
            moves[m].dst as int,
            moves[m].units as int,
            s.heap[place].offset as int,
            s.heap[place].span as int,
        )
    &&& forall|m: int, n: int|
        0 <= m < n < moves.len() ==> {
            &&& (#[trigger] moves[n]).src + moves[n].units <= (#[trigger] moves[m]).src
            &&& dst_apart(moves[m], moves[n])
        }
}

proof fn plan_relocates(
    s: StoreState,
    holes: Seq<Hole>,
    live: Seq<(u32, u32)>,
    entry: Seq<Run>,
    now: Seq<Run>,
    moves: Seq<Move>,
)
    requires
        s.wf(),
        plan_ok(s, holes, live, entry, now, moves),
    ensures
        relocatable(s, moves),
{
    assert forall|m: int| 0 <= m < moves.len() implies {
        let mv = #[trigger] moves[m];
        &&& s.heap.contains_key(place_key(mv.src))
        &&& s.heap[place_key(mv.src)].offset == mv.src
        &&& s.heap[place_key(mv.src)].span == mv.units
        &&& mv.units > 0
        &&& mv.dst + mv.units <= mv.src
    } by {
        move_facts(s, holes, live, entry, now, moves, m);
    }
    assert forall|m: int, place: Seq<u8>|
        #![trigger moves[m], s.heap.contains_key(place)]
        0 <= m < moves.len() && s.heap.contains_key(place) implies spans_apart(
        moves[m].dst as int,
        moves[m].units as int,
        s.heap[place].offset as int,
        s.heap[place].span as int,
    ) by {
        destination_is_clear(s, holes, live, entry, now, moves, m, place);
    }
}

/// The state after the first `k` moves: linked, with the same accounts, each image settled,
/// the images of later moves where they were, and no image further back than before.
proof fn carried_facts(
    s: StoreState,
    holes: Seq<Hole>,
    live: Seq<(u32, u32)>,
    entry: Seq<Run>,
    now: Seq<Run>,
    moves: Seq<Move>,
    k: nat,
)
    requires
        s.wf(),
        s.heap.dom().finite(),
        plan_ok(s, holes, live, entry, now, moves),
        k <= moves.len(),
    ensures
        carried(s, moves, k).linked(),
        carried(s, moves, k).accounts() == s.accounts(),
        carried(s, moves, k).located.dom() == s.located.dom(),
        carried(s, moves, k).authoritative(),
        carried(s, moves, k).meta == s.meta,
        carried(s, moves, k).limits == s.limits,
        carried(s, moves, k).free == s.free,
        forall|place: Seq<u8>| #[trigger]
            carried(s, moves, k).heap.contains_key(place) ==> settled(
                s,
                carried(s, moves, k),
                moves,
                k as int,
                place,
            ),
        forall|m: int|
            k <= m < moves.len() ==> {
                let place = place_key((#[trigger] moves[m]).src);
                carried(s, moves, k).heap.contains_key(place) && carried(s, moves, k).heap[place]
                    == s.heap[place]
            },
        carried(s, moves, k).heap.dom().finite(),
        total_weight(carried(s, moves, k)) + k <= total_weight(s),
{
    plan_relocates(s, holes, live, entry, now, moves);
    carried_by_moves(s, moves, k);
}

proof fn carried_by_moves(s: StoreState, moves: Seq<Move>, k: nat)
    requires
        s.linked(),
        s.authoritative(),
        s.heap.dom().finite(),
        relocatable(s, moves),
        k <= moves.len(),
    ensures
        carried(s, moves, k).linked(),
        carried(s, moves, k).accounts() == s.accounts(),
        carried(s, moves, k).located.dom() == s.located.dom(),
        carried(s, moves, k).authoritative(),
        carried(s, moves, k).meta == s.meta,
        carried(s, moves, k).limits == s.limits,
        carried(s, moves, k).free == s.free,
        forall|place: Seq<u8>| #[trigger]
            carried(s, moves, k).heap.contains_key(place) ==> settled(
                s,
                carried(s, moves, k),
                moves,
                k as int,
                place,
            ),
        forall|m: int|
            k <= m < moves.len() ==> {
                let place = place_key((#[trigger] moves[m]).src);
                carried(s, moves, k).heap.contains_key(place) && carried(s, moves, k).heap[place]
                    == s.heap[place]
            },
        carried(s, moves, k).heap.dom().finite(),
        total_weight(carried(s, moves, k)) + k <= total_weight(s),
    decreases k,
{
    if k > 0 {
        let j = (k - 1) as nat;
        carried_by_moves(s, moves, j);
        let a = carried(s, moves, j);
        let b = carried(s, moves, k);
        let mv = moves[j as int];
        assert(a.heap.contains_key(place_key(mv.src)));
        nothing_at_destination(s, moves, j);
        carried_one_linked(a, mv);
        carried_one_weight(a, mv);
        assert(b.accounts() == s.accounts());
        assert forall|p: Seq<u8>| #[trigger] b.heap.contains_key(p) implies settled(
            s,
            b,
            moves,
            k as int,
            p,
        ) by {
            settled_step(s, moves, j, p);
        }
        assert forall|m: int| k <= m < moves.len() implies {
            let p = place_key((#[trigger] moves[m]).src);
            b.heap.contains_key(p) && b.heap[p] == s.heap[p]
        } by {
            let p = place_key(moves[m].src);
            assert(a.heap.contains_key(p) && a.heap[p] == s.heap[p]);
            assert(moves[m].src + moves[m].units <= moves[j as int].src);
            if p == place_key(mv.src) {
                place_key_injective(moves[m].src, mv.src);
            }
            assert(p != place_key(mv.dst));
        }
    }
}

/// When an image is about to be carried, nothing lies at its destination.
proof fn nothing_at_destination(s: StoreState, moves: Seq<Move>, k: nat)
    requires
        s.linked(),
        relocatable(s, moves),
        k < moves.len(),
        forall|place: Seq<u8>| #[trigger]
            carried(s, moves, k).heap.contains_key(place) ==> settled(
                s,
                carried(s, moves, k),
                moves,
                k as int,
                place,
            ),
    ensures
        !carried(s, moves, k).heap.contains_key(place_key(moves[k as int].dst)),
{
    let a = carried(s, moves, k);
    let mv = moves[k as int];
    let to = place_key(mv.dst);
    if a.heap.contains_key(to) {
        assert(settled(s, a, moves, k as int, to));
        if s.heap.contains_key(to) && a.heap[to] == s.heap[to] {
            image_lies_at(s, mv.dst);
            assert(s.heap[to].offset == mv.dst);
            assert(spans_apart(
                mv.dst as int,
                mv.units as int,
                s.heap[to].offset as int,
                s.heap[to].span as int,
            ));
        } else {
            let m = choose|m: int|
                0 <= m < k && to == place_key((#[trigger] moves[m]).dst) && a.heap[to] == (
                ImageView { offset: moves[m].dst, ..s.heap[place_key(moves[m].src)] });
            place_key_injective(mv.dst, moves[m].dst);
            assert(dst_apart(moves[m], moves[k as int]));
        }
    }
}

/// One more move settles one more image.
proof fn settled_step(s: StoreState, moves: Seq<Move>, j: nat, p: Seq<u8>)
    requires
        s.linked(),
        relocatable(s, moves),
        j < moves.len(),
        carried(s, moves, j).heap.contains_key(place_key(moves[j as int].src)),
        carried(s, moves, j).heap[place_key(moves[j as int].src)] == s.heap[place_key(
            moves[j as int].src,
        )],
        carried(s, moves, (j + 1) as nat).heap.contains_key(p),
        carried(s, moves, j).heap.contains_key(p) ==> settled(
            s,
            carried(s, moves, j),
            moves,
            j as int,
            p,
        ),
    ensures
        settled(s, carried(s, moves, (j + 1) as nat), moves, (j + 1) as int, p),
{
    let a = carried(s, moves, j);
    let b = carried(s, moves, (j + 1) as nat);
    let mv = moves[j as int];
    let from = place_key(mv.src);
    let to = place_key(mv.dst);
    if p == to {
        assert(moves[j as int] == mv);
        assert(b.heap[p] == (ImageView { offset: mv.dst, ..s.heap[from] }));
    } else {
        assert(a.heap.contains_key(p));
        assert(b.heap[p] == a.heap[p]);
        if exists|m: int|
            0 <= m < j && p == place_key((#[trigger] moves[m]).dst) && a.heap[p] == (ImageView {
                offset: moves[m].dst,
                ..s.heap[place_key(moves[m].src)]
            }) {
            let m = choose|m: int|
                0 <= m < j && p == place_key((#[trigger] moves[m]).dst) && a.heap[p] == (ImageView {
                    offset: moves[m].dst,
                    ..s.heap[place_key(moves[m].src)]
                });
            assert(0 <= m < j + 1 && p == place_key(moves[m].dst));
        } else {
            assert(p == place_key(s.heap[p].offset));
            assert(s.heap[p].offset != mv.src);
            assert forall|m: int| 0 <= m < j + 1 implies (#[trigger] moves[m]).src
                != s.heap[p].offset by {}
        }
    }
}

/// A hole lies inside the run that it is a part of.
proof fn part_in_run(holes: Seq<Hole>, run: Run, tail: int, i: int)
    requires
        holes_ok(holes, tail),
        run_joins(holes, run),
        run.parts.start <= i < run.parts.end,
    ensures
        run.free.offset <= holes[i].offset,
        holes[i].upper() <= run.free.upper(),
{
    let first = run.parts.start as int;
    let last = run.parts.end - 1;
    if first < i {
        assert(holes[first].upper() <= holes[i].offset);
    }
    if i < last {
        assert(holes[i].upper() <= holes[last].offset);
    }
}

/// Every unit of a run lies in one of its parts.
proof fn unit_in_part(holes: Seq<Hole>, run: Run, tail: int, n: int, u: int) -> (i: int)
    requires
        holes_ok(holes, tail),
        run_joins(holes, run),
        run.parts.start < n <= run.parts.end,
        run.free.offset <= u < holes[n - 1].upper(),
    ensures
        run.parts.start <= i < n,
        holes[i].covers(u),
    decreases n,
{
    if holes[n - 1].offset <= u {
        n - 1
    } else {
        if n - 1 == run.parts.start {
            n - 1
        } else {
            assert(holes[n - 1].offset == holes[n - 2].upper());
            unit_in_part(holes, run, tail, n - 1, u)
        }
    }
}

/// No unit of an image is free once the plan is carried out.
proof fn occupied_not_free(
    s: StoreState,
    holes: Seq<Hole>,
    live: Seq<(u32, u32)>,
    entry: Seq<Run>,
    now: Seq<Run>,
    moves: Seq<Move>,
    place: Seq<u8>,
    u: int,
)
    requires
        s.wf(),
        s.heap.dom().finite(),
        plan_ok(s, holes, live, entry, now, moves),
        carried(s, moves, moves.len()).heap.contains_key(place),
        carried(s, moves, moves.len()).heap[place].offset <= u,
        u < carried(s, moves, moves.len()).heap[place].offset + carried(
            s,
            moves,
            moves.len(),
        ).heap[place].span,
    ensures
        !free_at(now, moves, u),
{
    let tail = s.meta.cursor as int;
    let t = carried(s, moves, moves.len());
    carried_facts(s, holes, live, entry, now, moves, moves.len());
    runs_are_ordered(holes, entry, tail);
    assert(settled(s, t, moves, moves.len() as int, place));
    let unmoved = s.heap.contains_key(place) && t.heap[place] == s.heap[place] && forall|m: int|
        0 <= m < moves.len() ==> (#[trigger] moves[m]).src != s.heap[place].offset;
    if unmoved {
        let image = s.heap[place];
        assert(place == place_key(image.offset));
        assert(live.contains((image.offset, image.span)));
        let a = choose|a: int| 0 <= a < live.len() && live[a] == (image.offset, image.span);
        assert forall|r: int| 0 <= r < now.len() implies !(#[trigger] now[r]).free.covers(u) by {
            crate::accountsdb::defrag::run_is_apart(holes, entry, live, tail, r, a);
        }
        assert forall|m: int| 0 <= m < moves.len() implies !(#[trigger] moves[m]).vacated().covers(
            u,
        ) by {
            move_facts(s, holes, live, entry, now, moves, m);
            let source = place_key(moves[m].src);
            assert(source != place);
            assert(s.heap.contains_key(source) && s.heap.contains_key(place));
        }
    } else {
        let m = choose|m: int|
            0 <= m < moves.len() && place == place_key((#[trigger] moves[m]).dst) && t.heap[place]
                == (ImageView { offset: moves[m].dst, ..s.heap[place_key(moves[m].src)] });
        move_facts(s, holes, live, entry, now, moves, m);
        let q = choose|q: int| 0 <= q < now.len() && move_fits(entry[q], #[trigger] now[q], moves[m]);
        assert forall|r: int| 0 <= r < now.len() implies !(#[trigger] now[r]).free.covers(u) by {
            assert(now[q].free.upper() == entry[q].free.upper());
            if r < q {
                assert(entry[r].free.upper() < entry[q].free.offset);
            } else if q < r {
                assert(entry[q].free.upper() < entry[r].free.offset);
            }
        }
        assert forall|n: int| 0 <= n < moves.len() implies !(#[trigger] moves[n]).vacated().covers(
            u,
        ) by {
            move_facts(s, holes, live, entry, now, moves, n);
            destination_is_clear(
                s,
                holes,
                live,
                entry,
                now,
                moves,
                m,
                place_key(moves[n].src),
            );
        }
    }
}

/// Every span on the new freelist is non-empty, free once the plan is carried out, and
/// ends at or before the cut.
proof fn published_is_free(
    s: StoreState,
    holes: Seq<Hole>,
    live: Seq<(u32, u32)>,
    entry: Seq<Run>,
    now: Seq<Run>,
    moves: Seq<Move>,
    cut: Offset,
    hole: Hole,
)
    requires
        s.wf(),
        plan_ok(s, holes, live, entry, now, moves),
        published(holes, now, moves, cut).contains(hole),
    ensures
        hole.units > 0,
        hole.upper() <= cut,
        forall|u: int| hole.covers(u) ==> #[trigger] free_at(now, moves, u),
{
    let tail = s.meta.cursor as int;
    if exists|i: int, r: int| #[trigger] is_rest(holes, now, cut, i, r, hole) {
        let (i, r) = choose|i: int, r: int| #[trigger] is_rest(holes, now, cut, i, r, hole);
        assert(run_joins(holes, entry[r]));
        assert(now[r].parts == entry[r].parts);
        part_in_run(holes, entry[r], tail, i);
        assert forall|u: int| hole.covers(u) implies #[trigger] free_at(now, moves, u) by {
            assert(now[r].free.covers(u));
        }
    } else {
        let m = choose|m: int| 0 <= m < moves.len() && is_vacated(#[trigger] moves[m], cut, hole);
        move_facts(s, holes, live, entry, now, moves, m);
        assert forall|u: int| hole.covers(u) implies #[trigger] free_at(now, moves, u) by {
            assert(moves[m].vacated().covers(u));
        }
    }
}

/// Different spans on the new freelist share no unit.
proof fn published_apart(
    s: StoreState,
    holes: Seq<Hole>,
    live: Seq<(u32, u32)>,
    entry: Seq<Run>,
    now: Seq<Run>,
    moves: Seq<Move>,
    cut: Offset,
    h: Hole,
    g: Hole,
)
    requires
        s.wf(),
        plan_ok(s, holes, live, entry, now, moves),
        published(holes, now, moves, cut).contains(h),
        published(holes, now, moves, cut).contains(g),
        h != g,
    ensures
        spans_apart(h.offset as int, h.units as int, g.offset as int, g.units as int),
{
    let tail = s.meta.cursor as int;
    let h_rest = exists|i: int, r: int| #[trigger] is_rest(holes, now, cut, i, r, h);
    let g_rest = exists|i: int, r: int| #[trigger] is_rest(holes, now, cut, i, r, g);
    if h_rest && g_rest {
        let (i, r) = choose|i: int, r: int| #[trigger] is_rest(holes, now, cut, i, r, h);
        let (j, q) = choose|j: int, q: int| #[trigger] is_rest(holes, now, cut, j, q, g);
        rests_apart(holes, entry, now, tail, cut, (i, r, h), (j, q, g));
    } else if h_rest {
        let (i, r) = choose|i: int, r: int| #[trigger] is_rest(holes, now, cut, i, r, h);
        let n = choose|n: int| 0 <= n < moves.len() && is_vacated(#[trigger] moves[n], cut, g);
        assert(carries(live, live.len() as int, moves[n]) && moves[n].units > 0);
        rest_and_vacated_apart(holes, entry, now, live, cut, (i, r, h), moves[n], g);
    } else if g_rest {
        let (i, r) = choose|i: int, r: int| #[trigger] is_rest(holes, now, cut, i, r, g);
        let n = choose|n: int| 0 <= n < moves.len() && is_vacated(#[trigger] moves[n], cut, h);
        assert(carries(live, live.len() as int, moves[n]) && moves[n].units > 0);
        rest_and_vacated_apart(holes, entry, now, live, cut, (i, r, g), moves[n], h);
    } else {
        let m = choose|m: int| 0 <= m < moves.len() && is_vacated(#[trigger] moves[m], cut, h);
        let n = choose|n: int| 0 <= n < moves.len() && is_vacated(#[trigger] moves[n], cut, g);
        if m < n {
            assert(moves[n].src + moves[n].units <= moves[m].src);
        } else if n < m {
            assert(moves[m].src + moves[m].units <= moves[n].src);
        }
    }
}

proof fn rests_apart(
    holes: Seq<Hole>,
    entry: Seq<Run>,
    now: Seq<Run>,
    tail: int,
    cut: Offset,
    a: (int, int, Hole),
    b: (int, int, Hole),
)
    requires
        holes_ok(holes, tail),
        runs_of(holes, entry),
        leaves(entry, now),
        is_rest(holes, now, cut, a.0, a.1, a.2),
        is_rest(holes, now, cut, b.0, b.1, b.2),
        a.2 != b.2,
    ensures
        spans_apart(
            a.2.offset as int,
            a.2.units as int,
            b.2.offset as int,
            b.2.units as int,
        ),
{
    let (i, r, h) = a;
    let (j, q, g) = b;
    assert(now[r].parts == entry[r].parts && now[q].parts == entry[q].parts);
    assert(run_joins(holes, entry[r]) && run_joins(holes, entry[q]));
    if i == j {
        part_in_run(holes, entry[r], tail, i);
        part_in_run(holes, entry[q], tail, i);
        runs_are_ordered(holes, entry, tail);
        if r < q {
            assert(entry[r].free.upper() < entry[q].free.offset);
        } else if q < r {
            assert(entry[q].free.upper() < entry[r].free.offset);
        }
    } else if i < j {
        assert(holes[i].upper() <= holes[j].offset);
    } else {
        assert(holes[j].upper() <= holes[i].offset);
    }
}

proof fn rest_and_vacated_apart(
    holes: Seq<Hole>,
    entry: Seq<Run>,
    now: Seq<Run>,
    live: Seq<(u32, u32)>,
    cut: Offset,
    rest: (int, int, Hole),
    mv: Move,
    vacated: Hole,
)
    requires
        runs_of(holes, entry),
        leaves(entry, now),
        apart(holes, live),
        is_rest(holes, now, cut, rest.0, rest.1, rest.2),
        carries(live, live.len() as int, mv),
        is_vacated(mv, cut, vacated),
    ensures
        spans_apart(
            rest.2.offset as int,
            rest.2.units as int,
            vacated.offset as int,
            vacated.units as int,
        ),
{
    let (i, r, h) = rest;
    assert(now[r].parts == entry[r].parts);
    assert(run_joins(holes, entry[r]));
    let a = choose|a: int| 0 <= a < live.len() && #[trigger] live[a] == (mv.src, mv.units);
    assert(holes[i].upper() <= live[a].0 || live[a].0 + live[a].1 <= holes[i].offset);
}

/// A pass keeps the backend well-formed: no two images and no image and free span come to
/// share a unit, and everything lies below the new cursor.
proof fn packed_state_wf(
    s: StoreState,
    holes: Seq<Hole>,
    live: Seq<(u32, u32)>,
    entry: Seq<Run>,
    now: Seq<Run>,
    moves: Seq<Move>,
    cut: Offset,
)
    requires
        s.wf(),
        s.heap.dom().finite(),
        plan_ok(s, holes, live, entry, now, moves),
        is_cut(now, moves, s.meta.cursor, cut),
    ensures
        packed_state(s, holes, now, moves, cut).wf(),
        packed_state(s, holes, now, moves, cut).accounts() == s.accounts(),
        packed_state(s, holes, now, moves, cut).meta.cursor == cut,
{
    let c = carried(s, moves, moves.len());
    let t = packed_state(s, holes, now, moves, cut);
    carried_facts(s, holes, live, entry, now, moves, moves.len());
    assert(t.linked() == c.linked());
    assert(t.authoritative() == c.authoritative());
    assert(t.accounts() =~= c.accounts());
    assert(t.meta.cursor == cut);
    assert(t.tiled()) by {
        assert forall|p: Seq<u8>| #[trigger] t.heap.contains_key(p) implies t.heap[p].span > 0
            && t.heap[p].offset + t.heap[p].span <= cut by {
            assert(c.heap.contains_key(p));
            assert(settled(s, c, moves, moves.len() as int, p));
            let image = c.heap[p];
            assert(image.span > 0 && image.offset + image.span <= s.meta.cursor) by {
                if exists|m: int|
                    0 <= m < moves.len() && p == place_key((#[trigger] moves[m]).dst) && c.heap[p]
                        == (ImageView { offset: moves[m].dst, ..s.heap[place_key(moves[m].src)] }) {
                    let m = choose|m: int|
                        0 <= m < moves.len() && p == place_key((#[trigger] moves[m]).dst)
                            && c.heap[p] == (ImageView {
                            offset: moves[m].dst,
                            ..s.heap[place_key(moves[m].src)]
                        });
                    move_facts(s, holes, live, entry, now, moves, m);
                }
            }
            let last = image.offset + image.span - 1;
            occupied_not_free(s, holes, live, entry, now, moves, p, last);
            assert(!free_at(now, moves, last));
        }
        assert forall|a: Seq<u8>, b: Seq<u8>|
            #![trigger t.heap.contains_key(a), t.heap.contains_key(b)]
            t.heap.contains_key(a) && t.heap.contains_key(b) && a != b implies spans_apart(
            t.heap[a].offset as int,
            t.heap[a].span as int,
            t.heap[b].offset as int,
            t.heap[b].span as int,
        ) by {
            images_apart(s, holes, live, entry, now, moves, a, b);
        }
        assert forall|h: Hole| #[trigger] t.free.contains(h) implies h.units > 0 && h.upper()
            <= t.meta.cursor by {
            published_is_free(s, holes, live, entry, now, moves, cut, h);
        }
        assert forall|h: Hole, g: Hole|
            #![trigger t.free.contains(h), t.free.contains(g)]
            t.free.contains(h) && t.free.contains(g) && h != g implies spans_apart(
            h.offset as int,
            h.units as int,
            g.offset as int,
            g.units as int,
        ) by {
            published_apart(s, holes, live, entry, now, moves, cut, h, g);
        }
        assert forall|h: Hole, p: Seq<u8>|
            #![trigger t.free.contains(h), t.heap.contains_key(p)]
            t.free.contains(h) && t.heap.contains_key(p) implies spans_apart(
            h.offset as int,
            h.units as int,
            t.heap[p].offset as int,
            t.heap[p].span as int,
        ) by {
            published_is_free(s, holes, live, entry, now, moves, cut, h);
            let image = t.heap[p];
            let shared = if h.offset >= image.offset {
                h.offset as int
            } else {
                image.offset as int
            };
            if !spans_apart(h.offset as int, h.units as int, image.offset as int, image.span as int) {
                assert(h.covers(shared));
                assert(free_at(now, moves, shared));
                occupied_not_free(s, holes, live, entry, now, moves, p, shared);
            }
        }
    }
}

/// Images share no unit once the plan is carried out.
#[verifier::spinoff_prover]
#[verifier::rlimit(40)]
proof fn images_apart(
    s: StoreState,
    holes: Seq<Hole>,
    live: Seq<(u32, u32)>,
    entry: Seq<Run>,
    now: Seq<Run>,
    moves: Seq<Move>,
    a: Seq<u8>,
    b: Seq<u8>,
)
    requires
        s.wf(),
        s.heap.dom().finite(),
        plan_ok(s, holes, live, entry, now, moves),
        carried(s, moves, moves.len()).heap.contains_key(a),
        carried(s, moves, moves.len()).heap.contains_key(b),
        a != b,
    ensures
        ({
            let c = carried(s, moves, moves.len());
            spans_apart(
                c.heap[a].offset as int,
                c.heap[a].span as int,
                c.heap[b].offset as int,
                c.heap[b].span as int,
            )
        }),
{
    let c = carried(s, moves, moves.len());
    let k = moves.len() as int;
    carried_facts(s, holes, live, entry, now, moves, moves.len());
    assert(settled(s, c, moves, k, a) && settled(s, c, moves, k, b));
    let a_kept = s.heap.contains_key(a) && c.heap[a] == s.heap[a];
    let b_kept = s.heap.contains_key(b) && c.heap[b] == s.heap[b];
    if a_kept && b_kept {
    } else if a_kept {
        let n = choose|n: int|
            0 <= n < k && b == place_key((#[trigger] moves[n]).dst) && c.heap[b] == (ImageView {
                offset: moves[n].dst,
                ..s.heap[place_key(moves[n].src)]
            });
        move_facts(s, holes, live, entry, now, moves, n);
        destination_is_clear(s, holes, live, entry, now, moves, n, a);
    } else if b_kept {
        let m = choose|m: int|
            0 <= m < k && a == place_key((#[trigger] moves[m]).dst) && c.heap[a] == (ImageView {
                offset: moves[m].dst,
                ..s.heap[place_key(moves[m].src)]
            });
        move_facts(s, holes, live, entry, now, moves, m);
        destination_is_clear(s, holes, live, entry, now, moves, m, b);
    } else {
        let m = choose|m: int|
            0 <= m < k && a == place_key((#[trigger] moves[m]).dst) && c.heap[a] == (ImageView {
                offset: moves[m].dst,
                ..s.heap[place_key(moves[m].src)]
            });
        let n = choose|n: int|
            0 <= n < k && b == place_key((#[trigger] moves[n]).dst) && c.heap[b] == (ImageView {
                offset: moves[n].dst,
                ..s.heap[place_key(moves[n].src)]
            });
        move_facts(s, holes, live, entry, now, moves, m);
        move_facts(s, holes, live, entry, now, moves, n);
        if m < n {
            assert(dst_apart(moves[m], moves[n]));
        } else if n < m {
            assert(dst_apart(moves[n], moves[m]));
        }
    }
}

/// A pass keeps a backend well-formed and every account as it was; it leaves the file no
/// longer than before, and where it changes anything, images lie further front or the
/// file is shorter.
pub proof fn pass_preserves_accounts(
    before: StoreState,
    holes: Seq<Hole>,
    live: Seq<(u32, u32)>,
    entry: Seq<Run>,
    cut: Offset,
    outcome: Defragged,
    after: StoreState,
)
    requires
        before.wf(),
        before.heap.dom().finite(),
        is_pass(before, holes, live, entry, cut, outcome, after),
    ensures
        after.wf(),
        after.accounts() == before.accounts(),
        after.meta.cursor == before.meta.cursor - outcome.reclaimed,
        after.heap.dom().finite(),
        total_weight(after) + outcome.moved <= total_weight(before),
        after.limits == before.limits,
{
    let tail = before.meta.cursor as int;
    let (now, moves) = packed(entry, live, live.len());
    lists_are_apart(before, holes, live);
    runs_are_ordered(holes, entry, tail);
    plan_is_safe(entry, live, tail, live.len());
    carried_facts(before, holes, live, entry, now, moves, moves.len());
    packed_state_wf(before, holes, live, entry, now, moves, cut);
}

/// A unit below the new cursor that was free or vacated, and that no image occupies, lies in a
/// free span after a pass.
proof fn free_is_published(
    before: StoreState,
    holes: Seq<Hole>,
    live: Seq<(u32, u32)>,
    entry: Seq<Run>,
    cut: Offset,
    outcome: Defragged,
    after: StoreState,
    u: int,
)
    requires
        before.wf(),
        before.heap.dom().finite(),
        is_pass(before, holes, live, entry, cut, outcome, after),
        outcome.moved > 0 || outcome.reclaimed > 0,
        u < cut,
        ({
            let (now, moves) = packed(entry, live, live.len());
            free_at(now, moves, u)
        }),
    ensures
        exists|h: Hole| #[trigger] after.free.contains(h) && h.covers(u),
{
    let tail = before.meta.cursor as int;
    let (now, moves) = packed(entry, live, live.len());
    lists_are_apart(before, holes, live);
    runs_are_ordered(holes, entry, tail);
    plan_is_safe(entry, live, tail, live.len());
    if exists|r: int| 0 <= r < now.len() && (#[trigger] now[r]).free.covers(u) {
        let r = choose|r: int| 0 <= r < now.len() && (#[trigger] now[r]).free.covers(u);
        assert(run_joins(holes, entry[r]));
        let i = unit_in_part(holes, entry[r], tail, entry[r].parts.end as int, u);
        let from = if holes[i].offset >= now[r].free.offset {
            holes[i].offset
        } else {
            now[r].free.offset
        };
        let to = if holes[i].upper() <= cut {
            holes[i].upper()
        } else {
            cut as int
        };
        assert(holes[i].upper() <= tail);
        let h = Hole { offset: from, units: (to - from) as u32 };
        assert(is_rest(holes, now, cut, i, r, h));
        assert(after.free.contains(h));
    } else {
        let m = choose|m: int| 0 <= m < moves.len() && (#[trigger] moves[m]).vacated().covers(u);
        move_facts(before, holes, live, entry, now, moves, m);
        let to = if moves[m].vacated().upper() <= cut {
            moves[m].vacated().upper()
        } else {
            cut as int
        };
        let h = Hole { offset: moves[m].src, units: (to - moves[m].src) as u32 };
        assert(is_vacated(moves[m], cut, h));
        assert(after.free.contains(h));
    }
}

/// After a pass the freelist covers exactly the units that no image occupies of those that
/// were free or vacated, up to the new cursor.
pub proof fn pass_publishes_free_space(
    before: StoreState,
    holes: Seq<Hole>,
    live: Seq<(u32, u32)>,
    entry: Seq<Run>,
    cut: Offset,
    outcome: Defragged,
    after: StoreState,
    u: int,
)
    requires
        before.wf(),
        before.heap.dom().finite(),
        is_pass(before, holes, live, entry, cut, outcome, after),
        outcome.moved > 0 || outcome.reclaimed > 0,
    ensures
        (exists|h: Hole| #[trigger] after.free.contains(h) && h.covers(u)) <==> u < cut && {
            let (now, moves) = packed(entry, live, live.len());
            free_at(now, moves, u)
        },
{
    let tail = before.meta.cursor as int;
    let (now, moves) = packed(entry, live, live.len());
    lists_are_apart(before, holes, live);
    runs_are_ordered(holes, entry, tail);
    plan_is_safe(entry, live, tail, live.len());
    if exists|h: Hole| #[trigger] after.free.contains(h) && h.covers(u) {
        let h = choose|h: Hole| #[trigger] after.free.contains(h) && h.covers(u);
        published_is_free(before, holes, live, entry, now, moves, cut, h);
    }
    if u < cut && free_at(now, moves, u) {
        free_is_published(before, holes, live, entry, cut, outcome, after, u);
    }
}

/// `out` lists the holes that the first `n` freelist rows hold, ascending.
pub open spec fn collected(state: StoreState, rows: Seq<(Vec<u8>, Hole)>, n: int, out: Seq<Hole>) -> bool {
    &&& forall|i: int, j: int|
        0 <= i < j < out.len() ==> (#[trigger] out[i]).upper() <= (#[trigger] out[j]).offset
    &&& forall|i: int| 0 <= i < out.len() ==> state.free.contains(#[trigger] out[i])
    &&& forall|h: Hole| #[trigger]
        out.contains(h) <==> exists|j: int| 0 <= j < n && (#[trigger] rows[j]).1 == h
}

impl PersistedStore {
    /// The free spans in ascending order.
    pub fn free_spans(&self) -> (holes: Vec<Hole>)
        requires
            self.wf(),
        ensures
            lists_free(holes@, self.state()),
    {
        let ghost state = self.state();
        let ghost rows = self.index.freelist.rows@;
        let mut holes: Vec<Hole> = Vec::new();
        proof {
            self.index.freelist.rows_are_entries();
        }
        let mut n: usize = 0;
        while n < self.index.freelist.rows.len()
            invariant
                self.wf(),
                state == self.state(),
                rows == self.index.freelist.rows@,
                n <= rows.len(),
                collected(state, rows, n as int, holes@),
                forall|j: int|
                    0 <= j < rows.len() ==> self.index.freelist@.contains_key(
                        (#[trigger] rows[j]).0@,
                    ) && self.index.freelist@[rows[j].0@] == rows[j].1,
            decreases rows.len() - n,
        {
            let hole = self.index.freelist.rows[n].1;
            let ghost before = holes@;
            proof {
                assert(rows[n as int].0@ == crate::accountsdb::index::free_key(hole));
                assert(state.free.contains(hole));
                assert forall|j: int| 0 <= j < n implies (#[trigger] rows[j]).1 != hole by {
                    assert(rows[j].0@ == crate::accountsdb::index::free_key(rows[j].1));
                    crate::bytes::lex_irreflexive(rows[j].0@);
                    assert(crate::bytes::lex_lt(rows[j].0@, rows[n as int].0@));
                }
                assert(!before.contains(hole));
            }
            let mut at: usize = 0;
            while at < holes.len() && holes[at].offset < hole.offset
                invariant
                    at <= holes@.len(),
                    holes@ == before,
                    forall|i: int| 0 <= i < at ==> (#[trigger] holes@[i]).offset < hole.offset,
                decreases holes@.len() - at,
            {
                at += 1;
            }
            holes.insert(at, hole);
            proof {
                assert forall|i: int| 0 <= i < before.len() implies {
                    let x = #[trigger] before[i];
                    &&& i < at ==> x.upper() <= hole.offset
                    &&& i >= at ==> hole.upper() <= x.offset
                } by {
                    let x = before[i];
                    assert(before.contains(x));
                    assert(state.free.contains(x) && state.free.contains(hole));
                    if i > at {
                        assert(before[at as int].upper() <= x.offset);
                    }
                }
                assert forall|i: int, j: int| 0 <= i < j < holes@.len() implies (
                #[trigger] holes@[i]).upper() <= (#[trigger] holes@[j]).offset by {
                    let x = if i < at { i } else { i - 1 };
                    let y = if j < at { j } else { j - 1 };
                    if i != at {
                        assert(holes@[i] == before[x]);
                    }
                    if j != at {
                        assert(holes@[j] == before[y]);
                    }
                }
                assert forall|i: int| 0 <= i < holes@.len() implies state.free.contains(
                    #[trigger] holes@[i],
                ) by {
                    if i < at {
                        assert(holes@[i] == before[i]);
                    } else if i > at {
                        assert(holes@[i] == before[i - 1]);
                    }
                }
                assert forall|h: Hole| #[trigger] holes@.contains(h) <==> exists|j: int|
                    0 <= j < n + 1 && (#[trigger] rows[j]).1 == h by {
                    if holes@.contains(h) {
                        let i = choose|i: int| 0 <= i < holes@.len() && holes@[i] == h;
                        if i == at {
                            assert(rows[n as int].1 == h);
                        } else {
                            assert(before.contains(h)) by {
                                assert(before[if i < at { i } else { i - 1 }] == h);
                            }
                            let j = choose|j: int| 0 <= j < n && (#[trigger] rows[j]).1 == h;
                            assert(rows[j].1 == h);
                        }
                    }
                    if exists|j: int| 0 <= j < n + 1 && (#[trigger] rows[j]).1 == h {
                        let j = choose|j: int| 0 <= j < n + 1 && (#[trigger] rows[j]).1 == h;
                        if j == n {
                            assert(holes@[at as int] == h);
                        } else {
                            assert(before.contains(h));
                            let i = choose|i: int| 0 <= i < before.len() && before[i] == h;
                            assert(holes@[if i < at { i } else { i + 1 }] == h);
                        }
                    }
                }
            }
            n += 1;
        }
        proof {
            assert forall|h: Hole| #[trigger] holes@.contains(h) <==> state.free.contains(h) by {
                if holes@.contains(h) {
                    let i = choose|i: int| 0 <= i < holes@.len() && holes@[i] == h;
                    assert(state.free.contains(holes@[i]));
                }
                if state.free.contains(h) {
                    let key = crate::accountsdb::index::free_key(h);
                    self.index.freelist.rows_are_entries();
                    let j = choose|j: int|
                        self.index.freelist.holds(key, j) && self.index.freelist@[key] == rows[j].1;
                    crate::accountsdb::index::free_key_injective(rows[j].1, h);
                    assert(rows[j].1 == h);
                }
            }
            assert(holes_ok(holes@, state.meta.cursor as int)) by {
                assert forall|i: int| 0 <= i < holes@.len() implies (#[trigger] holes@[i]).units > 0
                    && holes@[i].upper() <= state.meta.cursor by {
                    assert(state.free.contains(holes@[i]));
                }
            }
        }
        holes
    }
}

/// `out` lists the images that the first `n` rows hold, descending.
pub open spec fn gathered(
    state: StoreState,
    rows: Seq<(Vec<u8>, Image)>,
    n: int,
    out: Seq<(u32, u32)>,
) -> bool {
    &&& forall|i: int, j: int|
        0 <= i < j < out.len() ==> (#[trigger] out[j]).0 + out[j].1 <= (#[trigger] out[i]).0
    &&& forall|i: int|
        0 <= i < out.len() ==> state.heap.contains_key(place_key((#[trigger] out[i]).0))
            && state.heap[place_key(out[i].0)].span == out[i].1
    &&& forall|x: (u32, u32)| #[trigger]
        out.contains(x) <==> exists|j: int|
            0 <= j < n && (#[trigger] rows[j]).1.offset == x.0 && rows[j].1.span == x.1
}

impl PersistedStore {
    /// Positions and sizes of the images in descending order.
    #[verifier::rlimit(60)]
    #[verifier::spinoff_prover]
    fn live_spans(&self) -> (live: Vec<(u32, u32)>)
        requires
            self.wf(),
        ensures
            lists_live(live@, self.state()),
    {
        let ghost state = self.state();
        let ghost rows = self.images.rows@;
        let mut live: Vec<(u32, u32)> = Vec::new();
        proof {
            self.images.rows_are_entries();
        }
        let mut n: usize = 0;
        while n < self.images.rows.len()
            invariant
                self.wf(),
                state == self.state(),
                rows == self.images.rows@,
                n <= rows.len(),
                gathered(state, rows, n as int, live@),
                forall|j: int|
                    0 <= j < rows.len() ==> self.images@.contains_key((#[trigger] rows[j]).0@)
                        && self.images@[rows[j].0@] == rows[j].1,
            decreases rows.len() - n,
        {
            let offset: u32 = self.images.rows[n].1.offset;
            let span: u32 = self.images.rows[n].1.span;
            let ghost before = live@;
            proof {
                let image = rows[n as int].1;
                assert(state.heap.contains_key(rows[n as int].0@));
                assert(rows[n as int].0@ == place_key(offset));
                assert forall|j: int| 0 <= j < n implies (#[trigger] rows[j]).1.offset != offset by {
                    assert(state.heap.contains_key(rows[j].0@));
                    assert(rows[j].0@ == place_key(rows[j].1.offset));
                    crate::bytes::lex_irreflexive(rows[j].0@);
                    assert(crate::bytes::lex_lt(rows[j].0@, rows[n as int].0@));
                }
            }
            let mut at: usize = 0;
            while at < live.len() && live[at].0 > offset
                invariant
                    at <= live@.len(),
                    live@ == before,
                    forall|i: int| 0 <= i < at ==> (#[trigger] live@[i]).0 > offset,
                decreases live@.len() - at,
            {
                at += 1;
            }
            live.insert(at, (offset, span));
            proof {
                assert forall|i: int| 0 <= i < before.len() implies {
                    let x = #[trigger] before[i];
                    &&& i < at ==> offset + span <= x.0
                    &&& i >= at ==> x.0 + x.1 <= offset
                } by {
                    let x = before[i];
                    assert(before.contains(x));
                    let j = choose|j: int|
                        0 <= j < n && (#[trigger] rows[j]).1.offset == x.0 && rows[j].1.span == x.1;
                    assert(x.0 != offset);
                    let other = place_key(x.0);
                    let place = place_key(offset);
                    assert(other != place) by {
                        if other == place {
                            place_key_injective(x.0, offset);
                        }
                    }
                    assert(state.heap.contains_key(other) && state.heap.contains_key(place));
                    image_lies_at(state, x.0);
                    image_lies_at(state, offset);
                    if i > at {
                        assert(x.0 + x.1 <= before[at as int].0);
                    }
                }
                assert forall|i: int, j: int| 0 <= i < j < live@.len() implies (
                #[trigger] live@[j]).0 + live@[j].1 <= (#[trigger] live@[i]).0 by {
                    let x = if i < at { i } else { i - 1 };
                    let y = if j < at { j } else { j - 1 };
                    if i != at {
                        assert(live@[i] == before[x]);
                    }
                    if j != at {
                        assert(live@[j] == before[y]);
                    }
                }
                assert forall|i: int| 0 <= i < live@.len() implies state.heap.contains_key(
                    place_key((#[trigger] live@[i]).0),
                ) && state.heap[place_key(live@[i].0)].span == live@[i].1 by {
                    if i < at {
                        assert(live@[i] == before[i]);
                    } else if i > at {
                        assert(live@[i] == before[i - 1]);
                    }
                }
                assert forall|x: (u32, u32)| #[trigger] live@.contains(x) <==> exists|j: int|
                    0 <= j < n + 1 && (#[trigger] rows[j]).1.offset == x.0 && rows[j].1.span == x.1 by {
                    if live@.contains(x) {
                        let i = choose|i: int| 0 <= i < live@.len() && live@[i] == x;
                        if i == at {
                            assert(rows[n as int].1.offset == x.0);
                        } else {
                            assert(before.contains(x)) by {
                                assert(before[if i < at { i } else { i - 1 }] == x);
                            }
                            let j = choose|j: int|
                                0 <= j < n && (#[trigger] rows[j]).1.offset == x.0
                                    && rows[j].1.span == x.1;
                            assert(rows[j].1.offset == x.0);
                        }
                    }
                    if exists|j: int|
                        0 <= j < n + 1 && (#[trigger] rows[j]).1.offset == x.0 && rows[j].1.span
                            == x.1 {
                        let j = choose|j: int|
                            0 <= j < n + 1 && (#[trigger] rows[j]).1.offset == x.0
                                && rows[j].1.span == x.1;
                        if j == n {
                            assert(live@[at as int] == x);
                        } else {
                            assert(before.contains(x));
                            let i = choose|i: int| 0 <= i < before.len() && before[i] == x;
                            assert(live@[if i < at { i } else { i + 1 }] == x);
                        }
                    }
                }
            }
            n += 1;
        }
        proof {
            assert forall|offset: u32, span: u32| #[trigger]
                live@.contains((offset, span)) <==> state.heap.contains_key(place_key(offset))
                && state.heap[place_key(offset)].span == span by {
                if live@.contains((offset, span)) {
                    let i = choose|i: int| 0 <= i < live@.len() && live@[i] == (offset, span);
                    assert(state.heap.contains_key(place_key(live@[i].0)));
                }
                let key = place_key(offset);
                if state.heap.contains_key(key) && state.heap[key].span == span {
                    self.images.rows_are_entries();
                    let j = choose|j: int|
                        self.images.holds(key, j) && self.images@[key] == rows[j].1;
                    image_lies_at(state, offset);
                    assert(rows[j].1.offset == offset && rows[j].1.span == span);
                }
            }
            assert(live_ok(live@, state.meta.cursor as int)) by {
                assert forall|i: int| 0 <= i < live@.len() implies (#[trigger] live@[i]).1 > 0
                    && live@[i].0 + live@[i].1 <= state.meta.cursor by {
                    let place = place_key(live@[i].0);
                    assert(state.heap.contains_key(place));
                    image_lies_at(state, live@[i].0);
                }
            }
        }
        live
    }

    /// Carries one image to its destination and updates the index.
    fn carry(&mut self, mv: Move)
        requires
            old(self).index.wf(),
            old(self).images.wf(),
            old(self).state().linked(),
            old(self).images@.contains_key(place_key(mv.src)),
            !old(self).images@.contains_key(place_key(mv.dst)),
        ensures
            final(self).index.wf(),
            final(self).images.wf(),
            final(self).state() == carried_one(old(self).state(), mv),
    {
        let ghost before = self.state();
        let ghost kept = self.images@;
        let from = place_bytes(mv.src);
        let image = match self.images.remove(from.as_slice()) {
            Some(image) => image,
            None => {
                return ;
            },
        };
        proof {
            image_lies_at(before, mv.src);
            assert(before.heap.contains_key(place_key(mv.src)));
            assert(image@ == before.heap[place_key(mv.src)]);
        }
        let ghost held = image@;
        let key = image.key;
        let owner = match self.index.entry(&key) {
            Some(row) => row.owner,
            None => {
                return ;
            },
        };
        self.index.relocate(&key, mv.src, OwnerAndOffset { owner, offset: mv.dst });
        self.images.insert(
            place_bytes(mv.dst),
            Image { offset: mv.dst, span: image.span, key: image.key, account: image.account },
        );
        proof {
            assert(image_views(self.images@) =~= image_views(kept).remove(
                place_key(mv.src),
            ).insert(place_key(mv.dst), ImageView { offset: mv.dst, ..held }));
        }
    }
}

/// The freelist once the first `i` holes were cut back: their rests, and the other holes.
pub open spec fn trimmed(
    holes: Seq<Hole>,
    now: Seq<Run>,
    cut: Offset,
    i: int,
    h: Hole,
) -> bool {
    ||| exists|a: int, r: int| a < i && #[trigger] is_rest(holes, now, cut, a, r, h)
    ||| exists|b: int| i <= b < holes.len() && #[trigger] holes[b] == h
}

/// The runs take up all holes in order.
proof fn parts_follow(holes: Seq<Hole>, entry: Seq<Run>, now: Seq<Run>, r: int)
    requires
        runs_of(holes, entry),
        leaves(entry, now),
        0 <= r < now.len(),
    ensures
        now[r].parts.start < now[r].parts.end <= holes.len(),
        r == 0 ==> now[r].parts.start == 0,
        r > 0 ==> now[r].parts.start == now[r - 1].parts.end,
        r == now.len() - 1 ==> now[r].parts.end == holes.len(),
{
    assert(run_joins(holes, entry[r]));
    if r > 0 {
        assert(entry[r].parts.start == entry[r - 1].parts.end);
        assert(now[r - 1].parts == entry[r - 1].parts);
    }
}

/// A rest belongs to the run whose part it is.
proof fn rest_of_run(
    holes: Seq<Hole>,
    entry: Seq<Run>,
    now: Seq<Run>,
    tail: int,
    cut: Offset,
    i: int,
    r: int,
    q: int,
    h: Hole,
)
    requires
        holes_ok(holes, tail),
        runs_of(holes, entry),
        leaves(entry, now),
        0 <= r < now.len(),
        now[r].parts.start <= i < now[r].parts.end,
        is_rest(holes, now, cut, i, q, h),
    ensures
        q == r,
{
    assert(run_joins(holes, entry[r]) && run_joins(holes, entry[q]));
    part_in_run(holes, entry[r], tail, i);
    part_in_run(holes, entry[q], tail, i);
    runs_are_ordered(holes, entry, tail);
    if r < q {
        assert(entry[r].free.upper() < entry[q].free.offset);
    } else if q < r {
        assert(entry[q].free.upper() < entry[r].free.offset);
    }
}

impl PersistedStore {
    /// Publishes final free spans while retaining untouched component sizes.
    fn publish(
        &mut self,
        holes: &Vec<Hole>,
        Ghost(entry): Ghost<Seq<Run>>,
        now: &Vec<Run>,
        moves: &Vec<Move>,
        cut: Offset,
    )
        requires
            old(self).index.wf(),
            holes_ok(holes@, old(self).meta.cursor as int),
            runs_of(holes@, entry),
            leaves(entry, now@),
            sources_ok(moves@, old(self).meta.cursor as int),
            forall|h: Hole| #[trigger] holes@.contains(h) <==> old(self).index.free().contains(h),
        ensures
            final(self).index.wf(),
            final(self).index.located() == old(self).index.located(),
            final(self).index.owned() == old(self).index.owned(),
            final(self).index.free() == published(holes@, now@, moves@, cut),
            final(self).images == old(self).images,
            final(self).meta == old(self).meta,
            final(self).limits == old(self).limits,
    {
        let ghost tail = self.meta.cursor as int;
        let ghost start = *self;
        proof {
            assert forall|h: Hole| #[trigger] self.index.free().contains(h) <==> trimmed(
                holes@,
                now@,
                cut,
                0,
                h,
            ) by {
                if self.index.free().contains(h) {
                    assert(holes@.contains(h));
                    let b = choose|b: int| 0 <= b < holes@.len() && holes@[b] == h;
                    assert(holes@[b] == h);
                }
                if trimmed(holes@, now@, cut, 0, h) {
                    if exists|a: int, r: int|
                        a < 0 && #[trigger] is_rest(holes@, now@, cut, a, r, h) {
                        let (a, r) = choose|a: int, r: int|
                            a < 0 && #[trigger] is_rest(holes@, now@, cut, a, r, h);
                        assert(now@[r].parts.start <= a);
                    } else {
                        let b = choose|b: int| 0 <= b < holes@.len() && #[trigger] holes@[b] == h;
                        assert(holes@.contains(h));
                    }
                }
            }
        }
        let mut r: usize = 0;
        while r < now.len()
            invariant
                r <= now.len(),
                self.index.wf(),
                self.index.located() == start.index.located(),
                self.index.owned() == start.index.owned(),
                self.images == start.images,
                self.meta == start.meta,
                self.limits == start.limits,
                holes_ok(holes@, tail),
                runs_of(holes@, entry),
                leaves(entry, now@),
                tail <= u32::MAX,
                forall|h: Hole| #[trigger]
                    self.index.free().contains(h) <==> trimmed(
                        holes@,
                        now@,
                        cut,
                        if r == 0 {
                            0
                        } else {
                            now@[r - 1].parts.end as int
                        },
                        h,
                    ),
            decreases now.len() - r,
        {
            proof {
                parts_follow(holes@, entry, now@, r as int);
            }
            let mut i: usize = now[r].parts.start;
            while i < now[r].parts.end
                invariant
                    r < now.len(),
                    now@[r as int].parts.start <= i <= now@[r as int].parts.end <= holes.len(),
                    self.index.wf(),
                    self.index.located() == start.index.located(),
                    self.index.owned() == start.index.owned(),
                    self.images == start.images,
                    self.meta == start.meta,
                    self.limits == start.limits,
                    holes_ok(holes@, tail),
                    runs_of(holes@, entry),
                    leaves(entry, now@),
                    tail <= u32::MAX,
                    forall|h: Hole| #[trigger]
                        self.index.free().contains(h) <==> trimmed(holes@, now@, cut, i as int, h),
                decreases now@[r as int].parts.end - i,
            {
                let hole = holes[i];
                assert(hole.units > 0 && hole.upper() <= tail);
                let free = now[r].free;
                let offset: u32 = if hole.offset >= free.offset {
                    hole.offset
                } else {
                    free.offset
                };
                let end: u32 = if hole.end() <= cut {
                    hole.end()
                } else {
                    cut
                };
                let ghost before = self.index.free();
                if offset == hole.offset && end == hole.end() {
                    proof {
                        assert(is_rest(holes@, now@, cut, i as int, r as int, hole));
                    }
                } else {
                    self.index.drop_free(hole);
                    if offset < end {
                        self.index.put_free(Hole { offset, units: end - offset });
                    }
                }
                proof {
                    trim_step(holes@, entry, now@, tail, cut, i as int, r as int, before, self.index.free());
                }
                i += 1;
            }
            r += 1;
        }
        proof {
            let n = if r == 0 {
                0
            } else {
                now@[r - 1].parts.end as int
            };
            if r > 0 {
                parts_follow(holes@, entry, now@, r - 1);
            }
            assert(n == holes.len());
        }
        let ghost rests = self.index.free();
        proof {
            assert forall|h: Hole| #[trigger] rests.contains(h) <==> exists|a: int, q: int| #[trigger]
                is_rest(holes@, now@, cut, a, q, h) by {
                if rests.contains(h) {
                    assert(trimmed(holes@, now@, cut, holes@.len() as int, h));
                }
                if exists|a: int, q: int| #[trigger] is_rest(holes@, now@, cut, a, q, h) {
                    let (a, q) = choose|a: int, q: int| #[trigger]
                        is_rest(holes@, now@, cut, a, q, h);
                    parts_follow(holes@, entry, now@, q);
                    assert(a < holes@.len());
                    assert(trimmed(holes@, now@, cut, holes@.len() as int, h));
                }
            }
        }
        let mut m: usize = 0;
        while m < moves.len()
            invariant
                m <= moves.len(),
                self.index.wf(),
                self.index.located() == start.index.located(),
                self.index.owned() == start.index.owned(),
                self.images == start.images,
                self.meta == start.meta,
                self.limits == start.limits,
                sources_ok(moves@, tail),
                tail <= u32::MAX,
                forall|h: Hole| #[trigger]
                    self.index.free().contains(h) <==> rests.contains(h) || exists|k: int|
                        0 <= k < m && is_vacated(#[trigger] moves@[k], cut, h),
            decreases moves.len() - m,
        {
            let mv = moves[m];
            assert(mv.units > 0 && mv.vacated().upper() <= tail);
            let ghost before = self.index.free();
            if mv.src < cut {
                let upper: u32 = mv.source().end();
                let end: u32 = if upper <= cut {
                    upper
                } else {
                    cut
                };
                self.index.put_free(Hole { offset: mv.src, units: end - mv.src });
                assert(is_vacated(moves@[m as int], cut, Hole { offset: mv.src, units: (end - mv.src) as u32 }));
            }
            proof {
                assert forall|h: Hole| #[trigger] self.index.free().contains(h) <==> rests.contains(
                    h,
                ) || exists|k: int| 0 <= k < m + 1 && is_vacated(#[trigger] moves@[k], cut, h) by {
                    if exists|k: int| 0 <= k < m + 1 && is_vacated(#[trigger] moves@[k], cut, h) {
                        let k = choose|k: int|
                            0 <= k < m + 1 && is_vacated(#[trigger] moves@[k], cut, h);
                        if k < m {
                            assert(before.contains(h));
                        }
                    }
                    if before.contains(h) && !rests.contains(h) {
                        let k = choose|k: int| 0 <= k < m && is_vacated(#[trigger] moves@[k], cut, h);
                        assert(is_vacated(moves@[k], cut, h));
                    }
                }
            }
            m += 1;
        }
        assert(self.index.free() =~= published(holes@, now@, moves@, cut));
    }
}

/// Cutting back one more hole.
proof fn trim_step(
    holes: Seq<Hole>,
    entry: Seq<Run>,
    now: Seq<Run>,
    tail: int,
    cut: Offset,
    i: int,
    r: int,
    before: Set<Hole>,
    after: Set<Hole>,
)
    requires
        holes_ok(holes, tail),
        runs_of(holes, entry),
        leaves(entry, now),
        0 <= r < now.len(),
        now[r].parts.start <= i < now[r].parts.end <= holes.len(),
        forall|h: Hole| #[trigger] before.contains(h) <==> trimmed(holes, now, cut, i, h),
        forall|h: Hole|
            is_rest(holes, now, cut, i, r, h) ==> #[trigger] after.contains(h),
        forall|h: Hole| #[trigger]
            after.contains(h) ==> is_rest(holes, now, cut, i, r, h) || before.contains(h),
        !is_rest(holes, now, cut, i, r, holes[i]) ==> !after.contains(holes[i]),
        forall|h: Hole| before.contains(h) && h != holes[i] ==> #[trigger] after.contains(h),
    ensures
        forall|h: Hole| #[trigger] after.contains(h) <==> trimmed(holes, now, cut, i + 1, h),
{
    let hole = holes[i];
    assert forall|h: Hole| #[trigger] after.contains(h) <==> trimmed(holes, now, cut, i + 1, h) by {
        if after.contains(h) {
            if is_rest(holes, now, cut, i, r, h) {
            } else {
                assert(before.contains(h));
                assert(trimmed(holes, now, cut, i, h));
                if exists|a: int, q: int| a < i && #[trigger] is_rest(holes, now, cut, a, q, h) {
                    let (a, q) = choose|a: int, q: int|
                        a < i && #[trigger] is_rest(holes, now, cut, a, q, h);
                    assert(a < i + 1 && is_rest(holes, now, cut, a, q, h));
                } else {
                    let b = choose|b: int| i <= b < holes.len() && #[trigger] holes[b] == h;
                    assert(b != i);
                }
            }
        }
        if trimmed(holes, now, cut, i + 1, h) {
            if exists|a: int, q: int| a < i + 1 && #[trigger] is_rest(holes, now, cut, a, q, h) {
                let (a, q) = choose|a: int, q: int|
                    a < i + 1 && #[trigger] is_rest(holes, now, cut, a, q, h);
                if a == i {
                    rest_of_run(holes, entry, now, tail, cut, i, r, q, h);
                } else {
                    assert(a < i && is_rest(holes, now, cut, a, q, h));
                    assert(before.contains(h));
                    parts_follow(holes, entry, now, q);
                    assert(0 <= a);
                    assert(holes[a].upper() <= holes[i].offset);
                    assert(h != hole);
                }
            } else {
                let b = choose|b: int| i + 1 <= b < holes.len() && #[trigger] holes[b] == h;
                assert(before.contains(h));
                assert(holes[i].upper() <= holes[b].offset);
                assert(holes[i].units > 0);
            }
        }
    }
}

impl PersistedStore {
    /// Packs tail images into holes that existed at the start of the pass, and cuts the free
    /// suffix off the file.
    ///
    /// Adjacent free spans form one destination. An image goes to a destination that fits
    /// exactly, or else to the smallest one that keeps a useful remainder. The spans that
    /// images leave become destinations in a later pass.
    #[verifier::rlimit(60)]
    #[verifier::spinoff_prover]
    pub fn defragment(&mut self) -> (outcome: Defragged)
        requires
            old(self).wf(),
        ensures
            final(self).wf(),
            final(self).state().accounts() == old(self).state().accounts(),
            final(self).meta.cursor == old(self).meta.cursor - outcome.reclaimed,
            total_weight(final(self).state()) + outcome.moved <= total_weight(old(self).state()),
            exists|holes: Seq<Hole>, live: Seq<(u32, u32)>, entry: Seq<Run>, cut: Offset|
                is_pass(old(self).state(), holes, live, entry, cut, outcome, final(self).state()),
    {
        let ghost before = self.state();
        let tail: u32 = self.meta.cursor;
        let holes = self.free_spans();
        let live = self.live_spans();
        let mut packing = runs(&holes, tail);
        let ghost entry = packing@;
        proof {
            self.images.finite_contents();
            assert(before.heap.dom() =~= self.images@.dom());
            lists_are_apart(before, holes@, live@);
            runs_are_ordered(holes@, entry, tail as int);
            plan_is_safe(entry, live@, tail as int, live@.len());
        }
        let moves = pack(&mut packing, &live, tail);
        let ghost now = packing@;
        proof {
            crate::accountsdb::defrag::leaves_keeps_order(entry, now, tail as int);
            sources_of_plan(holes@, entry, now, live@, moves@, tail as int);
        }
        let cut: u32 = compacted_tail(&packing, &moves, tail);
        let outcome = Defragged { moved: moves.len(), reclaimed: tail - cut };
        if !outcome.changed() {
            proof {
                assert(is_pass(before, holes@, live@, entry, cut, outcome, before));
                pass_preserves_accounts(before, holes@, live@, entry, cut, outcome, before);
            }
            return outcome;
        }
        let mut m: usize = 0;
        while m < moves.len()
            invariant
                m <= moves.len(),
                before.wf(),
                before.heap.dom().finite(),
                plan_ok(before, holes@, live@, entry, now, moves@),
                self.index.wf(),
                self.images.wf(),
                self.state() == carried(before, moves@, m as nat),
            decreases moves.len() - m,
        {
            proof {
                carried_facts(before, holes@, live@, entry, now, moves@, m as nat);
                destination_is_free(before, holes@, live@, entry, now, moves@, m as nat);
            }
            self.carry(moves[m]);
            m += 1;
        }
        proof {
            carried_facts(before, holes@, live@, entry, now, moves@, moves@.len());
        }
        self.publish(&holes, Ghost(entry), &packing, &moves, cut);
        self.meta.stats.compact(moves.len());
        if cut < tail {
            self.meta.shrink(cut);
        }
        proof {
            assert(self.state() == packed_state(before, holes@, now, moves@, cut));
            assert(is_pass(before, holes@, live@, entry, cut, outcome, self.state()));
            pass_preserves_accounts(before, holes@, live@, entry, cut, outcome, self.state());
        }
        outcome
    }
}

/// When an image is about to be carried, it lies at its source and nothing at its
/// destination.
proof fn destination_is_free(
    s: StoreState,
    holes: Seq<Hole>,
    live: Seq<(u32, u32)>,
    entry: Seq<Run>,
    now: Seq<Run>,
    moves: Seq<Move>,
    k: nat,
)
    requires
        s.wf(),
        s.heap.dom().finite(),
        plan_ok(s, holes, live, entry, now, moves),
        k < moves.len(),
    ensures
        carried(s, moves, k).heap.contains_key(place_key(moves[k as int].src)),
        !carried(s, moves, k).heap.contains_key(place_key(moves[k as int].dst)),
{
    plan_relocates(s, holes, live, entry, now, moves);
    carried_by_moves(s, moves, k);
    nothing_at_destination(s, moves, k);
}

/// A pass leaves what the header says beside cursor, length and counters, and everything if
/// it changes nothing.
pub proof fn pass_keeps_header(
    before: StoreState,
    holes: Seq<Hole>,
    live: Seq<(u32, u32)>,
    entry: Seq<Run>,
    cut: Offset,
    outcome: Defragged,
    after: StoreState,
)
    requires
        is_pass(before, holes, live, entry, cut, outcome, after),
    ensures
        after.meta.slot == before.meta.slot,
        after.meta.superblock == before.meta.superblock,
        after.meta.transactions == before.meta.transactions,
        after.meta.version == before.meta.version,
        outcome.moved == 0 && outcome.reclaimed == 0 ==> after == before,
{
}

/// Whether a pass would change anything does not depend on the recorded checksum.
pub proof fn fixed_point_ignores_checksum(a: StoreState, b: StoreState)
    requires
        b == (StoreState { meta: DatabaseMeta { checksum: b.meta.checksum, ..a.meta }, ..a }),
        crate::accountsdb::db::at_fixed_point(a),
    ensures
        crate::accountsdb::db::at_fixed_point(b),
{
    let still = Defragged { moved: 0, reclaimed: 0 };
    let (holes, live, entry, cut) = choose|
        holes: Seq<Hole>,
        live: Seq<(u32, u32)>,
        entry: Seq<Run>,
        cut: Offset,
    | #[trigger] is_pass(a, holes, live, entry, cut, still, a);
    assert(is_pass(b, holes, live, entry, cut, still, b));
}

} // verus!
