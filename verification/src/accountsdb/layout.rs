//! Where the persisted backend keeps its accounts: what is written down of it, and read back.

use vstd::prelude::*;

use crate::accountsdb::db::{exclusive, AccountsDB};
use crate::accountsdb::defrag::{Hole, Offset};
use crate::accountsdb::index::{key_tail, Index, OwnerAndOffset};
use crate::accountsdb::storage::{DatabaseMeta, Limits};
use crate::accountsdb::store::{
    place_bytes, place_key, place_key_injective, placed_wf, spans_apart, tag_exists, tag_is_tail,
    tag_of, Image, ImageView, PersistedStore, StoreState,
};
use crate::accountsdb::volatile::{restored, VolatileStore};
use crate::accountsdb::AccountsDBError;
use crate::table::Table;
use crate::types::{Account, AccountMode, Pubkey};

verus! {

/// One span of the mapped file.
pub enum Extent {
    /// An account image.
    Image(Image),
    /// Free space.
    Free(Hole),
}

/// What a span of the mapped file holds.
pub enum ExtentView {
    Image(ImageView),
    Free(Hole),
}

impl View for Extent {
    type V = ExtentView;

    open spec fn view(&self) -> ExtentView {
        match self {
            Extent::Image(image) => ExtentView::Image(image@),
            Extent::Free(hole) => ExtentView::Free(*hole),
        }
    }
}

impl ExtentView {
    /// First unit.
    pub open spec fn start(self) -> int {
        match self {
            ExtentView::Image(image) => image.offset as int,
            ExtentView::Free(hole) => hole.offset as int,
        }
    }

    /// First unit behind it.
    pub open spec fn end(self) -> int {
        match self {
            ExtentView::Image(image) => image.offset + image.span,
            ExtentView::Free(hole) => hole.upper(),
        }
    }

    /// A span that a backend with this cursor may hold.
    pub open spec fn ok(self, cursor: Offset) -> bool {
        &&& self.start() < self.end() <= cursor
        &&& self matches ExtentView::Image(image) ==> {
            &&& image.account.mode.is_authoritative()
            &&& image.account.mode != AccountMode::Closed
            &&& 0 < image.account.units <= image.span
        }
    }

    /// An image of the account at `key`.
    pub open spec fn shows(self, key: Seq<u8>) -> bool {
        self matches ExtentView::Image(image) && image.key@ == key
    }
}

/// What several spans hold.
pub open spec fn extent_views(extents: Seq<Extent>) -> Seq<ExtentView> {
    extents.map_values(|extent: Extent| extent@)
}

/// The spans ascend, share no unit, and end at or before the cursor.
pub open spec fn in_order(extents: Seq<ExtentView>, cursor: Offset) -> bool {
    &&& forall|i: int| 0 <= i < extents.len() ==> (#[trigger] extents[i]).ok(cursor)
    &&& forall|i: int, j: int|
        0 <= i < j < extents.len() ==> (#[trigger] extents[i]).end() <= (
        #[trigger] extents[j]).start()
}

/// No account has two images among the first `n` spans.
pub open spec fn each_once(extents: Seq<ExtentView>, n: int) -> bool {
    forall|i: int, j: int|
        0 <= i < j < n ==> !same_account(#[trigger] extents[i], #[trigger] extents[j])
}

/// Two images of one account.
pub open spec fn same_account(a: ExtentView, b: ExtentView) -> bool {
    a matches ExtentView::Image(image) && b.shows(image.key@)
}

/// The spans may be those of a backend with this header.
pub open spec fn sound(extents: Seq<ExtentView>, meta: DatabaseMeta) -> bool {
    &&& meta.fits()
    &&& in_order(extents, meta.cursor)
    &&& each_once(extents, extents.len() as int)
}

/// A backend that holds nothing.
pub open spec fn blank(meta: DatabaseMeta, limits: Limits) -> StoreState {
    StoreState {
        located: Map::empty(),
        owned: Set::empty(),
        free: Set::empty(),
        heap: Map::empty(),
        meta,
        limits,
    }
}

/// A backend with one more span.
pub open spec fn laid_one(s: StoreState, extent: ExtentView) -> StoreState {
    match extent {
        ExtentView::Image(image) => s.placed(image.key, image.account, image.offset, image.span),
        ExtentView::Free(hole) => StoreState { free: s.free.insert(hole), ..s },
    }
}

/// The backend that the first `n` spans make up.
pub open spec fn laid(
    meta: DatabaseMeta,
    limits: Limits,
    extents: Seq<ExtentView>,
    n: nat,
) -> StoreState
    decreases n,
{
    if n == 0 {
        blank(meta, limits)
    } else {
        laid_one(laid(meta, limits, extents, (n - 1) as nat), extents[n - 1])
    }
}

/// Position and owner tag of an image.
pub open spec fn row_of(image: ImageView) -> OwnerAndOffset {
    OwnerAndOffset { owner: tag_of(image.account.owner), offset: image.offset }
}

/// Span `i` is among the first `n` and an image.
pub open spec fn image_at(extents: Seq<ExtentView>, n: int, i: int) -> bool {
    0 <= i < n && extents[i] is Image
}

/// Freeing clear units keeps the backend well-formed.
proof fn freed_wf(s: StoreState, hole: Hole)
    requires
        s.wf(),
        s.clear(hole.offset, hole.units),
    ensures
        (StoreState { free: s.free.insert(hole), ..s }).wf(),
{
    let t = StoreState { free: s.free.insert(hole), ..s };
    assert(t.tiled()) by {
        assert forall|h: Hole, g: Hole|
            #![trigger t.free.contains(h), t.free.contains(g)]
            t.free.contains(h) && t.free.contains(g) && h != g implies spans_apart(
            h.offset as int,
            h.units as int,
            g.offset as int,
            g.units as int,
        ) by {
            assert(h == hole || s.free.contains(h));
            assert(g == hole || s.free.contains(g));
        }
        assert forall|h: Hole, place: Seq<u8>|
            #![trigger t.free.contains(h), t.heap.contains_key(place)]
            t.free.contains(h) && t.heap.contains_key(place) implies spans_apart(
            h.offset as int,
            h.units as int,
            t.heap[place].offset as int,
            t.heap[place].span as int,
        ) by {
            assert(h == hole || s.free.contains(h));
            assert(s.heap.contains_key(place));
        }
    }
    assert(t.linked() == s.linked());
    assert(t.authoritative() == s.authoritative());
}

/// What the first `n` spans make up is well-formed and ends where the last of them does.
proof fn laid_wf(meta: DatabaseMeta, limits: Limits, extents: Seq<ExtentView>, n: nat)
    requires
        limits.wf(),
        meta.fits(),
        in_order(extents, meta.cursor),
        each_once(extents, n as int),
        n <= extents.len(),
    ensures
        ({
            let s = laid(meta, limits, extents, n);
            &&& s.wf()
            &&& s.meta == meta
            &&& s.limits == limits
            &&& forall|k: Seq<u8>| #[trigger]
                s.located.contains_key(k) <==> exists|i: int|
                    0 <= i < n && (#[trigger] extents[i]).shows(k)
            &&& forall|p: Seq<u8>| #[trigger]
                s.heap.contains_key(p) ==> n > 0 && s.heap[p].offset + s.heap[p].span
                    <= extents[n - 1].end()
            &&& forall|h: Hole| #[trigger]
                s.free.contains(h) ==> n > 0 && h.upper() <= extents[n - 1].end()
        }),
    decreases n,
{
    if n > 0 {
        let s = laid(meta, limits, extents, (n - 1) as nat);
        let t = laid(meta, limits, extents, n);
        let extent = extents[n - 1];
        laid_wf(meta, limits, extents, (n - 1) as nat);
        assert(extent.ok(meta.cursor));
        if n > 1 {
            assert(extents[n - 2].end() <= extents[n - 1].start());
        }
        match extent {
            ExtentView::Image(image) => {
                assert(s.clear(image.offset, image.span));
                assert(!s.located.contains_key(image.key@)) by {
                    if s.located.contains_key(image.key@) {
                        let i = choose|i: int|
                            0 <= i < n - 1 && (#[trigger] extents[i]).shows(image.key@);
                        assert(same_account(extents[i], extents[n - 1]));
                    }
                }
                placed_wf(s, image.key, image.account, image.offset, image.span);
                assert forall|k: Seq<u8>| #[trigger] t.located.contains_key(k) <==> exists|i: int|
                    0 <= i < n && (#[trigger] extents[i]).shows(k) by {
                    if s.located.contains_key(k) {
                        let i = choose|i: int| 0 <= i < n - 1 && (#[trigger] extents[i]).shows(k);
                        assert(extents[i].shows(k));
                    }
                    if k == image.key@ {
                        assert(extents[n - 1].shows(k));
                    }
                }
            },
            ExtentView::Free(hole) => {
                assert(s.clear(hole.offset, hole.units));
                freed_wf(s, hole);
                assert forall|k: Seq<u8>| #[trigger] t.located.contains_key(k) <==> exists|i: int|
                    0 <= i < n && (#[trigger] extents[i]).shows(k) by {
                    if s.located.contains_key(k) {
                        let i = choose|i: int| 0 <= i < n - 1 && (#[trigger] extents[i]).shows(k);
                        assert(extents[i].shows(k));
                    }
                }
            },
        }
    }
}

/// Whether the spans ascend, share no unit, and may be those of a backend with this cursor.
fn ordered(extents: &Vec<Extent>, cursor: Offset) -> (answer: bool)
    ensures
        answer == in_order(extent_views(extents@), cursor),
{
    let ghost views = extent_views(extents@);
    let mut end: u32 = 0;
    let mut i: usize = 0;
    while i < extents.len()
        invariant
            i <= extents@.len(),
            views == extent_views(extents@),
            end <= cursor,
            i == 0 ==> end == 0,
            i > 0 ==> end == views[i - 1].end(),
            forall|k: int| 0 <= k < i ==> (#[trigger] views[k]).ok(cursor),
            forall|k: int| 0 <= k < i ==> (#[trigger] views[k]).end() <= end,
            forall|j: int, k: int|
                0 <= j < k < i ==> (#[trigger] views[j]).end() <= (#[trigger] views[k]).start(),
        decreases extents@.len() - i,
    {
        assert(views[i as int] == extents@[i as int]@);
        let (start, units, allowed) = match &extents[i] {
            Extent::Image(image) => (
                image.offset,
                image.span,
                image.account.mode.authoritative() && image.account.mode != AccountMode::Closed
                    && image.account.units > 0 && image.account.units <= image.span,
            ),
            Extent::Free(hole) => (hole.offset, hole.units, true),
        };
        let fits = start <= cursor && units > 0 && units <= cursor - start && allowed;
        if !fits {
            assert(!views[i as int].ok(cursor));
            return false;
        }
        if start < end {
            assert(!in_order(views, cursor)) by {
                assert(i > 0);
                assert(views[i - 1].end() > views[i as int].start());
            }
            return false;
        }
        end = start + units;
        i += 1;
    }
    true
}

impl PersistedStore {
    /// The image of an account, if there is one.
    pub fn image(&self, key: &Pubkey) -> (image: Option<Image>)
        requires
            self.wf(),
        ensures
            match image {
                Some(found) => {
                    &&& self.state().located.contains_key(key@)
                    &&& found@ == self.state().heap[place_key(self.state().located[key@].offset)]
                },
                None => !self.state().located.contains_key(key@),
            },
    {
        match self.index.offset(key) {
            Some(offset) => {
                let place = place_bytes(offset);
                match self.images.get(place.as_slice()) {
                    Some(image) => Some(
                        Image {
                            offset: image.offset,
                            span: image.span,
                            key: image.key,
                            account: image.account.clone(),
                        },
                    ),
                    None => None,
                }
            },
            None => None,
        }
    }

    /// The backend that spans make up, given its header. Spans that cannot be those of a backend
    /// are refused.
    pub fn restore(limits: Limits, meta: DatabaseMeta, extents: Vec<Extent>) -> (result: Result<
        PersistedStore,
        AccountsDBError,
    >)
        requires
            limits.wf(),
        ensures
            match result {
                Ok(store) => {
                    &&& sound(extent_views(extents@), meta)
                    &&& store.wf()
                    &&& store.state() == laid(
                        meta,
                        limits,
                        extent_views(extents@),
                        extents@.len(),
                    )
                },
                Err(error) => error == AccountsDBError::Corruption && !sound(
                    extent_views(extents@),
                    meta,
                ),
            },
    {
        let ghost views = extent_views(extents@);
        let ghost given = extents@;
        if DatabaseMeta::bytes(meta.cursor) > meta.len || !ordered(&extents, meta.cursor) {
            return Err(AccountsDBError::Corruption);
        }
        let mut store = PersistedStore { meta, limits, index: Index::new(), images: Table::new() };
        let mut twice: bool = false;
        proof {
            assert(store.state().located =~= Map::<Seq<u8>, OwnerAndOffset>::empty());
            assert(store.state().owned =~= Set::<OwnerAndOffset>::empty());
            assert(store.state().free =~= Set::<Hole>::empty());
            assert(store.state().heap =~= Map::<Seq<u8>, ImageView>::empty());
        }
        for extent in it: extents
            invariant
                it.seq() == given,
                views == extent_views(given),
                limits.wf(),
                meta.fits(),
                in_order(views, meta.cursor),
                !twice ==> {
                    &&& each_once(views, it.index() as int)
                    &&& store.wf()
                    &&& store.state() == laid(meta, limits, views, it.index() as nat)
                },
                twice ==> !each_once(views, views.len() as int),
        {
            let ghost n = it.index() as int;
            assert(extent == given[n]);
            assert(views[n] == extent@);
            if !twice {
                proof {
                    laid_wf(meta, limits, views, n as nat);
                }
                match extent {
                    Extent::Image(image) => {
                        if store.index.offset(&image.key).is_some() {
                            twice = true;
                            proof {
                                let i = choose|i: int|
                                    0 <= i < n && (#[trigger] views[i]).shows(image.key@);
                                assert(same_account(views[i], views[n]));
                            }
                        } else {
                            let ghost before = store.state();
                            assert(each_once(views, n + 1)) by {
                                assert forall|i: int, j: int|
                                    0 <= i < j < n + 1 implies !same_account(
                                    #[trigger] views[i],
                                    #[trigger] views[j],
                                ) by {
                                    if j == n && same_account(views[i], views[j]) {
                                        assert(views[i].shows(image.key@));
                                        assert(before.located.contains_key(image.key@));
                                    }
                                }
                            }
                            let tag = key_tail(&image.account.owner);
                            proof {
                                tag_is_tail(image.account.owner, tag);
                                laid_wf(meta, limits, views, (n + 1) as nat);
                            }
                            let offset: u32 = image.offset;
                            let ghost shown = image@;
                            let key = image.key;
                            store.index.insert(&key, OwnerAndOffset { owner: tag, offset });
                            store.images.insert(place_bytes(offset), image);
                            proof {
                                assert(store.state().heap =~= before.heap.insert(
                                    place_key(offset),
                                    shown,
                                ));
                                assert(store.state() == laid(meta, limits, views, (n + 1) as nat));
                            }
                        }
                    },
                    Extent::Free(hole) => {
                        assert(each_once(views, n + 1)) by {
                            assert forall|i: int, j: int| 0 <= i < j < n + 1 implies !same_account(
                                #[trigger] views[i],
                                #[trigger] views[j],
                            ) by {}
                        }
                        proof {
                            laid_wf(meta, limits, views, (n + 1) as nat);
                        }
                        store.index.put_free(hole);
                        assert(store.state() == laid(meta, limits, views, (n + 1) as nat));
                    },
                }
            }
        }
        if twice {
            Err(AccountsDBError::Corruption)
        } else {
            Ok(store)
        }
    }
}

/// The spans are all those of a backend.
pub open spec fn lists_extents(extents: Seq<ExtentView>, s: StoreState) -> bool {
    &&& sound(extents, s.meta)
    &&& forall|image: ImageView|
        extents.contains(ExtentView::Image(image)) <==> s.heap.contains_key(
            #[trigger] place_key(image.offset),
        ) && s.heap[place_key(image.offset)] == image
    &&& forall|hole: Hole|
        #![trigger s.free.contains(hole)]
        extents.contains(ExtentView::Free(hole)) <==> s.free.contains(hole)
}

/// What the first `n` spans make up holds them and nothing else.
proof fn laid_holds(meta: DatabaseMeta, limits: Limits, extents: Seq<ExtentView>, n: nat)
    requires
        in_order(extents, meta.cursor),
        each_once(extents, extents.len() as int),
        n <= extents.len(),
    ensures
        ({
            let s = laid(meta, limits, extents, n);
            &&& s.meta == meta
            &&& s.limits == limits
            &&& forall|p: Seq<u8>| #[trigger]
                s.heap.contains_key(p) ==> exists|i: int| #[trigger]
                    image_at(extents, n as int, i) && p == place_key(extents[i]->Image_0.offset)
            &&& forall|k: Seq<u8>| #[trigger]
                s.located.contains_key(k) ==> exists|i: int| #[trigger]
                    image_at(extents, n as int, i) && k == extents[i]->Image_0.key@
            &&& forall|r: OwnerAndOffset| #[trigger]
                s.owned.contains(r) <==> exists|i: int| #[trigger]
                    image_at(extents, n as int, i) && r == row_of(extents[i]->Image_0)
            &&& forall|h: Hole| #[trigger]
                s.free.contains(h) <==> exists|i: int|
                    0 <= i < n && #[trigger] extents[i] == ExtentView::Free(h)
            &&& forall|i: int| #[trigger]
                image_at(extents, n as int, i) ==> {
                    let image = extents[i]->Image_0;
                    &&& s.heap.contains_key(place_key(image.offset))
                    &&& s.heap[place_key(image.offset)] == image
                    &&& s.located.contains_key(image.key@)
                    &&& s.located[image.key@] == row_of(image)
                }
        }),
    decreases n,
{
    if n > 0 {
        let m = n - 1;
        let s = laid(meta, limits, extents, m as nat);
        let t = laid(meta, limits, extents, n);
        laid_holds(meta, limits, extents, m as nat);
        assert forall|i: int| #[trigger] image_at(extents, m, i) implies image_at(
            extents,
            n as int,
            i,
        ) by {}
        assert forall|i: int| #[trigger] image_at(extents, n as int, i) implies ({
            let image = extents[i]->Image_0;
            &&& t.heap.contains_key(place_key(image.offset))
            &&& t.heap[place_key(image.offset)] == image
            &&& t.located.contains_key(image.key@)
            &&& t.located[image.key@] == row_of(image)
        }) by {
            let image = extents[i]->Image_0;
            if i < m {
                assert(image_at(extents, m, i));
                if let ExtentView::Image(last) = extents[m] {
                    assert(extents[i].end() <= extents[m].start());
                    assert(extents[i].ok(meta.cursor));
                    if place_key(image.offset) == place_key(last.offset) {
                        place_key_injective(image.offset, last.offset);
                    }
                    assert(!same_account(extents[i], extents[m]));
                }
            }
        }
        if extents[m] is Image {
            assert(image_at(extents, n as int, m));
        } else {
            assert(extents[m] == ExtentView::Free(extents[m]->Free_0));
        }
        assert forall|h: Hole| #[trigger] t.free.contains(h) <==> exists|i: int|
            0 <= i < n && #[trigger] extents[i] == ExtentView::Free(h) by {
            if s.free.contains(h) {
                let i = choose|i: int| 0 <= i < m && #[trigger] extents[i] == ExtentView::Free(h);
                assert(extents[i] == ExtentView::Free(h));
            }
        }
        assert forall|r: OwnerAndOffset| #[trigger] t.owned.contains(r) <==> exists|i: int|
            #[trigger] image_at(extents, n as int, i) && r == row_of(extents[i]->Image_0) by {
            if exists|i: int| #[trigger]
                image_at(extents, n as int, i) && r == row_of(extents[i]->Image_0) {
                let i = choose|i: int| #[trigger]
                    image_at(extents, n as int, i) && r == row_of(extents[i]->Image_0);
                if i < m {
                    assert(image_at(extents, m, i));
                }
            }
        }
    }
}

/// What was written down of a backend is read back: the spans of a backend make it up again.
pub proof fn layouts_are_read_back(s: StoreState, extents: Seq<ExtentView>)
    requires
        s.wf(),
        lists_extents(extents, s),
    ensures
        laid(s.meta, s.limits, extents, extents.len()) == s,
{
    let n = extents.len();
    let t = laid(s.meta, s.limits, extents, n);
    laid_holds(s.meta, s.limits, extents, n);
    assert forall|p: Seq<u8>| #[trigger] s.heap.contains_key(p) implies t.heap.contains_key(p)
        && t.heap[p] == s.heap[p] by {
        let image = s.heap[p];
        assert(p == place_key(image.offset));
        assert(extents.contains(ExtentView::Image(image)));
        let i = choose|i: int| 0 <= i < n && extents[i] == ExtentView::Image(image);
        assert(image_at(extents, n as int, i));
    }
    assert forall|p: Seq<u8>| #[trigger] t.heap.contains_key(p) implies s.heap.contains_key(p) by {
        let i = choose|i: int| #[trigger]
            image_at(extents, n as int, i) && p == place_key(extents[i]->Image_0.offset);
        assert(extents.contains(ExtentView::Image(extents[i]->Image_0)));
    }
    assert(t.heap =~= s.heap);
    assert forall|k: Seq<u8>| #[trigger] s.located.contains_key(k) implies t.located.contains_key(k)
        && t.located[k] == s.located[k] by {
        let image = s.heap[place_key(s.located[k].offset)];
        assert(s.heap.contains_key(place_key(s.located[k].offset)));
        assert(place_key(image.offset) == place_key(s.located[k].offset));
        place_key_injective(image.offset, s.located[k].offset);
        assert(extents.contains(ExtentView::Image(image)));
        let i = choose|i: int| 0 <= i < n && extents[i] == ExtentView::Image(image);
        assert(image_at(extents, n as int, i));
        tag_exists(image.account.owner);
        assert(s.located[k].owner =~= tag_of(image.account.owner));
    }
    assert forall|k: Seq<u8>| #[trigger] t.located.contains_key(k) implies s.located.contains_key(
        k,
    ) by {
        let i = choose|i: int| #[trigger]
            image_at(extents, n as int, i) && k == extents[i]->Image_0.key@;
        let image = extents[i]->Image_0;
        assert(extents.contains(ExtentView::Image(image)));
        assert(s.heap.contains_key(place_key(image.offset)));
    }
    assert(t.located =~= s.located);
    assert forall|r: OwnerAndOffset| s.owned.contains(r) <==> #[trigger] t.owned.contains(r) by {
        if s.owned.contains(r) {
            let image = s.heap[place_key(r.offset)];
            assert(s.heap.contains_key(place_key(r.offset)));
            place_key_injective(image.offset, r.offset);
            assert(extents.contains(ExtentView::Image(image)));
            let i = choose|i: int| 0 <= i < n && extents[i] == ExtentView::Image(image);
            assert(image_at(extents, n as int, i));
            assert(t.located[image.key@] == row_of(image));
            assert(s.located[image.key@] == r);
        }
        if t.owned.contains(r) {
            let i = choose|i: int| #[trigger]
                image_at(extents, n as int, i) && r == row_of(extents[i]->Image_0);
            let image = extents[i]->Image_0;
            assert(extents.contains(ExtentView::Image(image)));
            assert(s.heap.contains_key(place_key(image.offset)));
            assert(s.located.contains_key(image.key@));
            assert(t.located[image.key@] == row_of(image));
            assert(s.owned.contains(s.located[image.key@]));
        }
    }
    assert(t.owned =~= s.owned);
    assert forall|h: Hole| s.free.contains(h) <==> #[trigger] t.free.contains(h) by {
        if s.free.contains(h) {
            assert(extents.contains(ExtentView::Free(h)));
            let i = choose|i: int| 0 <= i < n && extents[i] == ExtentView::Free(h);
            assert(extents[i] == ExtentView::Free(h));
        }
        if t.free.contains(h) {
            let i = choose|i: int| 0 <= i < n && #[trigger] extents[i] == ExtentView::Free(h);
            assert(extents.contains(ExtentView::Free(h)));
        }
    }
    assert(t.free =~= s.free);
}

/// Accounts that are restored from a dump of none that a backend holds are not held by it.
proof fn restored_stay_apart(dump: Seq<(Pubkey, Account)>, s: StoreState, n: nat, key: Seq<u8>)
    requires
        n <= dump.len(),
        forall|i: int| 0 <= i < dump.len() ==> !s.located.contains_key((#[trigger] dump[i]).0@),
        restored(dump, n).contains_key(key),
    ensures
        !s.located.contains_key(key),
    decreases n,
{
    if n > 0 && dump[n - 1].0@ != key {
        restored_stay_apart(dump, s, (n - 1) as nat, key);
    }
}

impl AccountsDB {
    /// The store that was written down: the persisted backend with its places, and the mirrored
    /// accounts of a dump. An account of the dump that is persisted as well is read from the
    /// dump; a dump of the store itself holds none.
    pub fn restore(
        limits: Limits,
        meta: DatabaseMeta,
        extents: Vec<Extent>,
        dump: Vec<(Pubkey, Account)>,
    ) -> (result: Result<AccountsDB, AccountsDBError>)
        requires
            limits.wf(),
        ensures
            match result {
                Ok(db) => {
                    let s = laid(meta, limits, extent_views(extents@), extents@.len());
                    &&& sound(extent_views(extents@), meta)
                    &&& db.wf()
                    &&& db.persisted.state() == s
                    &&& db.volatile.contents() == restored(dump@, dump@.len())
                    &&& (forall|i: int|
                        0 <= i < dump@.len() ==> !s.located.contains_key((#[trigger] dump@[i]).0@))
                        ==> db.apart()
                },
                Err(error) => error == AccountsDBError::Corruption && !sound(
                    extent_views(extents@),
                    meta,
                ),
            },
    {
        let persisted = match PersistedStore::restore(limits, meta, extents) {
            Ok(store) => store,
            Err(error) => {
                return Err(error);
            },
        };
        let ghost s = persisted.state();
        let ghost given = dump@;
        let volatile = VolatileStore::new(dump);
        proof {
            if forall|i: int|
                0 <= i < given.len() ==> !s.located.contains_key((#[trigger] given[i]).0@) {
                assert forall|key: Seq<u8>|
                    #![trigger s.accounts().contains_key(key)]
                    #![trigger volatile.contents().contains_key(key)]
                    !(s.accounts().contains_key(key) && volatile.contents().contains_key(key)) by {
                    if volatile.contents().contains_key(key) {
                        restored_stay_apart(given, s, given.len(), key);
                    }
                }
                assert(exclusive(s.accounts(), volatile.contents()));
            }
        }
        Ok(AccountsDB { persisted, volatile })
    }
}

} // verus!
