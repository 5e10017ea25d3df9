//! Persisted accounts: images in the mapped file, found through the index.

use vstd::prelude::*;

use crate::accountsdb::defrag::{Hole, Offset};
use crate::accountsdb::index::{key_tail, tail_of, walks_before, Index, KeyTail, OwnerAndOffset};
use crate::accountsdb::storage::{
    bumped, first_header, rounded, DatabaseMeta, Limits, Stats, PAGE_UNITS,
};
use crate::accountsdb::AccountsDBError;
use crate::bytes::{le_bytes, u32_to_le};
use crate::table::Table;
use crate::types::{
    durable_entry, entries_ok, entry_views, Account, AccountEntry, AccountMode, AccountView,
    CoWAccount, DirtyMarkers, EntryView, Pubkey,
};

verus! {

/// Account image in the mapped file.
pub struct Image {
    /// Position of the image.
    pub offset: Offset,
    /// Units set aside for it, which may be more than the account needs.
    pub span: u32,
    /// Address of the account.
    pub key: Pubkey,
    /// The account.
    pub account: Account,
}

/// What an image holds.
pub struct ImageView {
    pub offset: Offset,
    pub span: u32,
    pub key: Pubkey,
    pub account: AccountView,
}

impl View for Image {
    type V = ImageView;

    open spec fn view(&self) -> ImageView {
        ImageView {
            offset: self.offset,
            span: self.span,
            key: self.key,
            account: self.account@,
        }
    }
}

/// Persisted backend.
pub struct PersistedStore {
    /// Metadata header of the mapped file.
    pub meta: DatabaseMeta,
    /// Growth limits of the mapped file.
    pub limits: Limits,
    /// Index over the images.
    pub index: Index,
    /// Images by the bytes of their position.
    pub images: Table<Image>,
}

/// Contents of a persisted backend.
pub struct StoreState {
    /// Positions and owner tags by address.
    pub located: Map<Seq<u8>, OwnerAndOffset>,
    /// Images by owner tag.
    pub owned: Set<OwnerAndOffset>,
    /// Free spans.
    pub free: Set<Hole>,
    /// Images by the bytes of their position.
    pub heap: Map<Seq<u8>, ImageView>,
    /// Metadata header.
    pub meta: DatabaseMeta,
    /// Growth limits.
    pub limits: Limits,
}

/// Bytes of a position.
pub open spec fn place_key(offset: Offset) -> Seq<u8> {
    le_bytes(offset as nat, 4)
}

/// Tag of an address.
pub open spec fn tag_of(key: Pubkey) -> KeyTail {
    choose|tag: KeyTail| tag@ == tail_of(key)
}

/// Two spans share no unit.
pub open spec fn spans_apart(a: int, a_units: int, b: int, b_units: int) -> bool {
    a + a_units <= b || b + b_units <= a
}

/// `offset` is walked first among the free spans of exactly `units` units.
pub open spec fn first_free(free: Set<Hole>, units: u32, offset: Offset) -> bool {
    &&& free.contains(Hole { offset, units })
    &&& forall|h: Hole| #[trigger]
        free.contains(h) && h.units == units && h.offset != offset ==> walks_before(offset, h.offset)
}

/// The free span that an allocation of `units` units takes.
pub open spec fn pick_free(free: Set<Hole>, units: u32) -> Option<Offset> {
    if exists|offset: Offset| first_free(free, units, offset) {
        Some(choose|offset: Offset| first_free(free, units, offset))
    } else {
        None
    }
}

impl StoreState {
    /// The account stored under each address.
    pub open spec fn accounts(self) -> Map<Seq<u8>, AccountView> {
        Map::new(
            |key: Seq<u8>| self.located.contains_key(key),
            |key: Seq<u8>| self.heap[place_key(self.located[key].offset)].account,
        )
    }

    /// Index and images agree: every account has one image, which carries its address and
    /// its owner, and every image belongs to an account.
    pub open spec fn linked(self) -> bool {
        &&& forall|key: Seq<u8>| #[trigger]
            self.located.contains_key(key) ==> {
                let row = self.located[key];
                let place = place_key(row.offset);
                &&& key.len() == 32
                &&& self.heap.contains_key(place)
                &&& self.heap[place].key@ == key
                &&& row.owner@ == tail_of(self.heap[place].account.owner)
                &&& self.owned.contains(row)
            }
        &&& forall|place: Seq<u8>| #[trigger]
            self.heap.contains_key(place) ==> {
                let image = self.heap[place];
                &&& place == place_key(image.offset)
                &&& self.located.contains_key(image.key@)
                &&& self.located[image.key@].offset == image.offset
            }
        &&& forall|row: OwnerAndOffset| #[trigger]
            self.owned.contains(row) ==> {
                let place = place_key(row.offset);
                &&& self.heap.contains_key(place)
                &&& self.located[self.heap[place].key@] == row
            }
    }

    /// Images and free spans are non-empty, lie below the cursor, and share no unit.
    pub open spec fn tiled(self) -> bool {
        &&& forall|place: Seq<u8>| #[trigger]
            self.heap.contains_key(place) ==> self.heap[place].span > 0 && self.heap[place].offset
                + self.heap[place].span <= self.meta.cursor
        &&& forall|a: Seq<u8>, b: Seq<u8>|
            #![trigger self.heap.contains_key(a), self.heap.contains_key(b)]
            self.heap.contains_key(a) && self.heap.contains_key(b) && a != b ==> spans_apart(
                self.heap[a].offset as int,
                self.heap[a].span as int,
                self.heap[b].offset as int,
                self.heap[b].span as int,
            )
        &&& forall|h: Hole| #[trigger]
            self.free.contains(h) ==> h.units > 0 && h.upper() <= self.meta.cursor
        &&& forall|h: Hole, g: Hole|
            #![trigger self.free.contains(h), self.free.contains(g)]
            self.free.contains(h) && self.free.contains(g) && h != g ==> spans_apart(
                h.offset as int,
                h.units as int,
                g.offset as int,
                g.units as int,
            )
        &&& forall|h: Hole, place: Seq<u8>|
            #![trigger self.free.contains(h), self.heap.contains_key(place)]
            self.free.contains(h) && self.heap.contains_key(place) ==> spans_apart(
                h.offset as int,
                h.units as int,
                self.heap[place].offset as int,
                self.heap[place].span as int,
            )
    }

    /// Only accounts that the engine decides about, and that are not closed, are persisted, and
    /// each has a serialized size, which its span holds.
    pub open spec fn authoritative(self) -> bool {
        forall|place: Seq<u8>| #[trigger]
            self.heap.contains_key(place) ==> self.heap[place].account.mode.is_authoritative()
                && self.heap[place].account.mode != AccountMode::Closed
                && 0 < self.heap[place].account.units <= self.heap[place].span
    }

    /// What holds of every persisted backend.
    pub open spec fn wf(self) -> bool {
        &&& self.linked()
        &&& self.tiled()
        &&& self.authoritative()
        &&& self.meta.fits()
        &&& self.limits.wf()
    }

    /// The units from `offset` on are allocated and hold neither an image nor a free span.
    pub open spec fn clear(self, offset: Offset, units: u32) -> bool {
        &&& units > 0
        &&& offset + units <= self.meta.cursor
        &&& forall|place: Seq<u8>| #[trigger]
            self.heap.contains_key(place) ==> spans_apart(
                offset as int,
                units as int,
                self.heap[place].offset as int,
                self.heap[place].span as int,
            )
        &&& forall|h: Hole| #[trigger]
            self.free.contains(h) ==> spans_apart(
                offset as int,
                units as int,
                h.offset as int,
                h.units as int,
            )
    }

    /// After the account at `key` was deleted and its span freed.
    pub open spec fn deleted(self, key: Seq<u8>) -> StoreState {
        if self.located.contains_key(key) {
            let row = self.located[key];
            let place = place_key(row.offset);
            StoreState {
                located: self.located.remove(key),
                owned: self.owned.remove(row),
                free: self.free.insert(Hole { offset: row.offset, units: self.heap[place].span }),
                heap: self.heap.remove(place),
                ..self
            }
        } else {
            self
        }
    }

    /// After the account at `key` was removed, which is counted if there was one.
    pub open spec fn removed(self, key: Seq<u8>) -> StoreState {
        if self.located.contains_key(key) {
            let stats = self.meta.stats;
            StoreState {
                meta: DatabaseMeta {
                    stats: Stats { removals: bumped(stats.removals, 1), ..stats },
                    ..self.meta
                },
                ..self.deleted(key)
            }
        } else {
            self
        }
    }

    /// After an image was put into the `span` units at `offset`, for an account that has none.
    pub open spec fn placed(
        self,
        key: Pubkey,
        account: AccountView,
        offset: Offset,
        span: u32,
    ) -> StoreState {
        let row = OwnerAndOffset { owner: tag_of(account.owner), offset };
        StoreState {
            located: self.located.insert(key@, row),
            owned: self.owned.insert(row),
            heap: self.heap.insert(
                place_key(offset),
                ImageView { offset, span, key, account },
            ),
            ..self
        }
    }

    /// After the image of the account at `key` was overwritten where it lies.
    pub open spec fn overwritten(self, key: Pubkey, account: AccountView) -> StoreState {
        let row = self.located[key@];
        let place = place_key(row.offset);
        let moved = OwnerAndOffset { owner: tag_of(account.owner), offset: row.offset };
        StoreState {
            located: self.located.insert(key@, moved),
            owned: self.owned.remove(row).insert(moved),
            heap: self.heap.insert(
                place,
                ImageView { offset: row.offset, span: self.heap[place].span, key, account },
            ),
            ..self
        }
    }

    /// A span of `units` units taken from the freelist or else from the end of the file, or
    /// `None` if the file cannot grow that far.
    pub open spec fn allocated(self, units: u32) -> Option<(StoreState, Offset)> {
        match pick_free(self.free, units) {
            Some(offset) => {
                let stats = self.meta.stats;
                Some(
                    (
                        StoreState {
                            free: self.free.remove(Hole { offset, units }),
                            meta: DatabaseMeta {
                                stats: Stats { reallocs: bumped(stats.reallocs, 1), ..stats },
                                ..self.meta
                            },
                            ..self
                        },
                        offset,
                    ),
                )
            },
            None => if self.meta.can_allocate(self.limits, units) {
                Some(
                    (
                        StoreState { meta: self.meta.allocated(self.limits, units), ..self },
                        self.meta.cursor,
                    ),
                )
            } else {
                None
            },
        }
    }

    /// Units to allocate for an account that has no image, or none that it fits in. One that
    /// outgrew its image gets whole pages, so that small changes of its size do not move it
    /// again.
    pub open spec fn room(self, key: Pubkey, units: u32) -> u32 {
        if self.located.contains_key(key@) {
            paged(units)
        } else {
            units
        }
    }

    /// Units set aside for the account stored at `key`.
    pub open spec fn span_of(self, key: Seq<u8>) -> u32 {
        self.heap[place_key(self.located[key].offset)].span
    }

    /// Whether a changed account no longer fits its image.
    pub open spec fn outgrown(self, key: Pubkey, account: AccountView, markers: DirtyMarkers) -> bool {
        markers.any() && self.located.contains_key(key@) && self.span_of(key@) < account.units
    }

    /// After an owned account was written: over its image where it fits, else into a newly
    /// allocated span. `None` if no span can be allocated.
    pub open spec fn inserted(self, key: Pubkey, account: AccountView) -> Option<StoreState> {
        if self.located.contains_key(key@) && self.span_of(key@) >= account.units {
            Some(self.overwritten(key, account))
        } else {
            let span = self.room(key, account.units);
            match self.allocated(span) {
                Some((next, offset)) => Some(
                    next.deleted(key@).placed(key, account, offset, span),
                ),
                None => None,
            }
        }
    }

    /// After a changed view of an image was committed where it lies. A view without changes,
    /// or of an account that is no longer stored, leaves nothing.
    pub open spec fn updated(self, key: Pubkey, account: AccountView, markers: DirtyMarkers) -> StoreState {
        if markers.any() && self.located.contains_key(key@) {
            let stats = self.meta.stats;
            StoreState {
                meta: DatabaseMeta {
                    stats: Stats { commits: bumped(stats.commits, 1), ..stats },
                    ..self.meta
                },
                ..self.overwritten(key, account)
            }
        } else {
            self
        }
    }

    /// After one account was stored. `None` if no span can be allocated for it. A view lies in
    /// its image and so fits it; one that is larger than its image is a value of its own and is
    /// written as one, so that no image is ever written past its span.
    pub open spec fn applied(self, entry: EntryView) -> Option<StoreState> {
        let (key, shared) = entry;
        let mode = shared.account.mode;
        if !mode.is_authoritative() || mode == AccountMode::Closed {
            Some(self.removed(key@))
        } else if shared.cow == CoWAccount::Borrowed && !self.outgrown(
            key,
            shared.account,
            shared.markers,
        ) {
            Some(self.updated(key, shared.account, shared.markers))
        } else {
            self.inserted(key, shared.account)
        }
    }

    /// After the first `k` accounts were stored. `None` if one of them could not be.
    pub open spec fn applied_all(self, entries: Seq<EntryView>, k: nat) -> Option<StoreState>
        decreases k,
    {
        if k == 0 {
            Some(self)
        } else {
            match self.applied_all(entries, (k - 1) as nat) {
                Some(state) => state.applied(entries[k - 1]),
                None => None,
            }
        }
    }
}

/// The fewest units that hold `units` units and fill whole pages, or all that a position can
/// name.
pub open spec fn paged(units: u32) -> u32 {
    let whole = rounded(units as int, PAGE_UNITS as int);
    if whole <= u32::MAX {
        whole as u32
    } else {
        u32::MAX
    }
}

/// The units of the pages that hold `units` units.
pub fn page_units(units: u32) -> (whole: u32)
    ensures
        whole == paged(units),
        units <= whole,
{
    let pages: u64 = (units as u64 + PAGE_UNITS as u64 - 1) / PAGE_UNITS as u64;
    let whole: u64 = pages * PAGE_UNITS as u64;
    if whole <= u32::MAX as u64 {
        whole as u32
    } else {
        u32::MAX
    }
}

/// Positions have different keys, all four bytes long.
pub proof fn place_key_injective(a: Offset, b: Offset)
    requires
        place_key(a) == place_key(b),
    ensures
        a == b,
{
    crate::bytes::u32_spellings(a, b);
}

/// The tag of an address is its second half.
pub proof fn tag_is_tail(key: Pubkey, tag: KeyTail)
    requires
        tag@ == tail_of(key),
    ensures
        tag == tag_of(key),
{
    let other = tag_of(key);
    assert(other@ == tail_of(key));
    assert(tag =~= other);
}

/// At most one free span is walked first.
pub proof fn first_free_unique(free: Set<Hole>, units: u32, offset: Offset)
    requires
        first_free(free, units, offset),
    ensures
        pick_free(free, units) == Some(offset),
{
    let other = choose|o: Offset| first_free(free, units, o);
    assert(first_free(free, units, other));
    if other != offset {
        assert(free.contains(Hole { offset: other, units }));
        assert(free.contains(Hole { offset, units }));
        assert(walks_before(offset, other));
        assert(walks_before(other, offset));
        crate::bytes::lex_asymmetric(place_key(offset), place_key(other));
    }
}

/// Deleting an account keeps the backend well-formed, and frees no unit that is reserved.
proof fn deleted_wf(s: StoreState, key: Seq<u8>)
    requires
        s.wf(),
    ensures
        s.deleted(key).wf(),
        forall|offset: Offset, units: u32|
            #![trigger s.deleted(key).clear(offset, units)]
            s.clear(offset, units) ==> s.deleted(key).clear(offset, units),
        !s.deleted(key).located.contains_key(key),
{
    if s.located.contains_key(key) {
        let row = s.located[key];
        let place = place_key(row.offset);
        let t = s.deleted(key);
        let freed = Hole { offset: row.offset, units: s.heap[place].span };
        assert(s.heap.contains_key(place));
        assert(s.heap[place].offset == row.offset) by {
            assert(place == place_key(s.heap[place].offset));
            place_key_injective(row.offset, s.heap[place].offset);
        }
        assert(t.linked()) by {
            assert forall|k: Seq<u8>| #[trigger] t.located.contains_key(k) implies {
                let r = t.located[k];
                let p = place_key(r.offset);
                &&& k.len() == 32
                &&& t.heap.contains_key(p)
                &&& t.heap[p].key@ == k
                &&& r.owner@ == tail_of(t.heap[p].account.owner)
                &&& t.owned.contains(r)
            } by {
                assert(s.located.contains_key(k));
                let r = s.located[k];
                assert(s.heap[place_key(r.offset)].key@ == k);
                assert(place_key(r.offset) != place);
            }
            assert forall|p: Seq<u8>| #[trigger] t.heap.contains_key(p) implies {
                let image = t.heap[p];
                &&& p == place_key(image.offset)
                &&& t.located.contains_key(image.key@)
                &&& t.located[image.key@].offset == image.offset
            } by {
                assert(s.heap.contains_key(p));
                assert(s.heap[p].key@ != key);
            }
            assert forall|r: OwnerAndOffset| #[trigger] t.owned.contains(r) implies {
                let p = place_key(r.offset);
                &&& t.heap.contains_key(p)
                &&& t.located[t.heap[p].key@] == r
            } by {
                assert(s.owned.contains(r));
                let p = place_key(r.offset);
                assert(s.located[s.heap[p].key@] == r);
                if p == place {
                    assert(s.heap[p].key@ == key);
                }
            }
        }
        assert(t.tiled()) by {
            assert forall|h: Hole, p: Seq<u8>|
                #![trigger t.free.contains(h), t.heap.contains_key(p)]
                t.free.contains(h) && t.heap.contains_key(p) implies spans_apart(
                h.offset as int,
                h.units as int,
                t.heap[p].offset as int,
                t.heap[p].span as int,
            ) by {
                assert(s.heap.contains_key(p) && s.heap.contains_key(place));
                if h != freed {
                    assert(s.free.contains(h));
                }
            }
            assert forall|h: Hole, g: Hole|
                #![trigger t.free.contains(h), t.free.contains(g)]
                t.free.contains(h) && t.free.contains(g) && h != g implies spans_apart(
                h.offset as int,
                h.units as int,
                g.offset as int,
                g.units as int,
            ) by {
                assert(s.heap.contains_key(place));
                if h != freed {
                    assert(s.free.contains(h));
                }
                if g != freed {
                    assert(s.free.contains(g));
                }
            }
        }
    }
}

/// Placing an image into a reserved span keeps the backend well-formed.
pub(crate) proof fn placed_wf(s: StoreState, key: Pubkey, account: AccountView, offset: Offset, span: u32)
    requires
        s.wf(),
        0 < account.units <= span,
        s.clear(offset, span),
        !s.located.contains_key(key@),
        account.mode.is_authoritative(),
        account.mode != AccountMode::Closed,
    ensures
        s.placed(key, account, offset, span).wf(),
{
    let t = s.placed(key, account, offset, span);
    let place = place_key(offset);
    let row = OwnerAndOffset { owner: tag_of(account.owner), offset };
    tag_exists(account.owner);
    assert(!s.heap.contains_key(place)) by {
        if s.heap.contains_key(place) {
            place_key_injective(offset, s.heap[place].offset);
        }
    }
    assert(t.linked()) by {
        assert forall|k: Seq<u8>| #[trigger] t.located.contains_key(k) implies {
            let r = t.located[k];
            let p = place_key(r.offset);
            &&& k.len() == 32
            &&& t.heap.contains_key(p)
            &&& t.heap[p].key@ == k
            &&& r.owner@ == tail_of(t.heap[p].account.owner)
            &&& t.owned.contains(r)
        } by {
            if k != key@ {
                assert(s.located.contains_key(k));
            }
        }
        assert forall|p: Seq<u8>| #[trigger] t.heap.contains_key(p) implies {
            let image = t.heap[p];
            &&& p == place_key(image.offset)
            &&& t.located.contains_key(image.key@)
            &&& t.located[image.key@].offset == image.offset
        } by {
            if p != place {
                assert(s.heap.contains_key(p));
            }
        }
        assert forall|r: OwnerAndOffset| #[trigger] t.owned.contains(r) implies {
            let p = place_key(r.offset);
            &&& t.heap.contains_key(p)
            &&& t.located[t.heap[p].key@] == r
        } by {
            if r != row {
                assert(s.owned.contains(r));
                assert(s.heap.contains_key(place_key(r.offset)));
            }
        }
    }
    assert(t.tiled()) by {
        assert forall|a: Seq<u8>, b: Seq<u8>|
            #![trigger t.heap.contains_key(a), t.heap.contains_key(b)]
            t.heap.contains_key(a) && t.heap.contains_key(b) && a != b implies spans_apart(
            t.heap[a].offset as int,
            t.heap[a].span as int,
            t.heap[b].offset as int,
            t.heap[b].span as int,
        ) by {
            if a != place {
                assert(s.heap.contains_key(a));
            }
            if b != place {
                assert(s.heap.contains_key(b));
            }
        }
        assert forall|h: Hole, p: Seq<u8>|
            #![trigger t.free.contains(h), t.heap.contains_key(p)]
            t.free.contains(h) && t.heap.contains_key(p) implies spans_apart(
            h.offset as int,
            h.units as int,
            t.heap[p].offset as int,
            t.heap[p].span as int,
        ) by {
            assert(s.free.contains(h));
            if p != place {
                assert(s.heap.contains_key(p));
            }
        }
        assert forall|p: Seq<u8>| #[trigger] t.heap.contains_key(p) implies t.heap[p].span > 0
            && t.heap[p].offset + t.heap[p].span <= t.meta.cursor by {
            if p != place {
                assert(s.heap.contains_key(p));
            }
        }
    }
    assert(t.authoritative()) by {
        assert forall|p: Seq<u8>| #[trigger]
            t.heap.contains_key(p) implies t.heap[p].account.mode.is_authoritative()
            && t.heap[p].account.mode != AccountMode::Closed && 0 < t.heap[p].account.units
            <= t.heap[p].span by {
            if p != place {
                assert(s.heap.contains_key(p));
            }
        }
    }
}

/// Every address has a tag.
pub(crate) proof fn tag_exists(key: Pubkey)
    ensures
        tag_of(key)@ == tail_of(key),
{
    let t = vstd::array::array_view(key);
    let tag: KeyTail = [
        key@[16],
        key@[17],
        key@[18],
        key@[19],
        key@[20],
        key@[21],
        key@[22],
        key@[23],
        key@[24],
        key@[25],
        key@[26],
        key@[27],
        key@[28],
        key@[29],
        key@[30],
        key@[31],
    ];
    assert(tag@ =~= tail_of(key));
}

/// Overwriting an image where it lies keeps the backend well-formed.
proof fn overwritten_wf(s: StoreState, key: Pubkey, account: AccountView)
    requires
        s.wf(),
        s.located.contains_key(key@),
        0 < account.units <= s.span_of(key@),
        account.mode.is_authoritative(),
        account.mode != AccountMode::Closed,
    ensures
        s.overwritten(key, account).wf(),
{
    let t = s.overwritten(key, account);
    let row = s.located[key@];
    let place = place_key(row.offset);
    let moved = OwnerAndOffset { owner: tag_of(account.owner), offset: row.offset };
    tag_exists(account.owner);
    assert(s.heap.contains_key(place));
    assert(s.heap[place].offset == row.offset) by {
        place_key_injective(row.offset, s.heap[place].offset);
    }
    assert(t.linked()) by {
        assert forall|k: Seq<u8>| #[trigger] t.located.contains_key(k) implies {
            let r = t.located[k];
            let p = place_key(r.offset);
            &&& k.len() == 32
            &&& t.heap.contains_key(p)
            &&& t.heap[p].key@ == k
            &&& r.owner@ == tail_of(t.heap[p].account.owner)
            &&& t.owned.contains(r)
        } by {
            if k != key@ {
                assert(s.located.contains_key(k));
                let p = place_key(s.located[k].offset);
                assert(s.heap[p].key@ == k);
                assert(p != place);
                assert(s.located[k] != row);
            }
        }
        assert forall|p: Seq<u8>| #[trigger] t.heap.contains_key(p) implies {
            let image = t.heap[p];
            &&& p == place_key(image.offset)
            &&& t.located.contains_key(image.key@)
            &&& t.located[image.key@].offset == image.offset
        } by {
            assert(s.heap.contains_key(p));
        }
        assert forall|r: OwnerAndOffset| #[trigger] t.owned.contains(r) implies {
            let p = place_key(r.offset);
            &&& t.heap.contains_key(p)
            &&& t.located[t.heap[p].key@] == r
        } by {
            if r != moved {
                assert(s.owned.contains(r));
                let p = place_key(r.offset);
                assert(s.heap.contains_key(p));
                if p == place {
                    place_key_injective(r.offset, row.offset);
                    assert(s.heap[p].key@ == key@);
                } else {
                    assert(s.heap[p].key@ != key@);
                }
            }
        }
    }
    assert(t.tiled()) by {
        assert forall|a: Seq<u8>, b: Seq<u8>|
            #![trigger t.heap.contains_key(a), t.heap.contains_key(b)]
            t.heap.contains_key(a) && t.heap.contains_key(b) && a != b implies spans_apart(
            t.heap[a].offset as int,
            t.heap[a].span as int,
            t.heap[b].offset as int,
            t.heap[b].span as int,
        ) by {
            assert(s.heap.contains_key(a) && s.heap.contains_key(b));
        }
        assert forall|h: Hole, p: Seq<u8>|
            #![trigger t.free.contains(h), t.heap.contains_key(p)]
            t.free.contains(h) && t.heap.contains_key(p) implies spans_apart(
            h.offset as int,
            h.units as int,
            t.heap[p].offset as int,
            t.heap[p].span as int,
        ) by {
            assert(s.free.contains(h) && s.heap.contains_key(p));
        }
        assert forall|p: Seq<u8>| #[trigger] t.heap.contains_key(p) implies t.heap[p].span > 0
            && t.heap[p].offset + t.heap[p].span <= t.meta.cursor by {
            assert(s.heap.contains_key(p));
        }
    }
    assert(t.authoritative()) by {
        assert forall|p: Seq<u8>| #[trigger]
            t.heap.contains_key(p) implies t.heap[p].account.mode.is_authoritative()
            && t.heap[p].account.mode != AccountMode::Closed && 0 < t.heap[p].account.units
            <= t.heap[p].span by {
            assert(s.heap.contains_key(p));
        }
    }
}

/// Allocation reserves a span and keeps the backend well-formed.
proof fn allocated_wf(s: StoreState, units: u32)
    requires
        s.wf(),
        units > 0,
    ensures
        s.allocated(units) matches Some((t, offset)) ==> {
            &&& t.wf()
            &&& t.clear(offset, units)
            &&& t.located == s.located
            &&& t.heap == s.heap
            &&& t.owned == s.owned
        },
{
    if let Some((t, offset)) = s.allocated(units) {
        match pick_free(s.free, units) {
            Some(o) => {
                let hole = Hole { offset: o, units };
                assert(first_free(s.free, units, o));
                assert(s.free.contains(hole));
                assert forall|h: Hole| #[trigger] t.free.contains(h) implies spans_apart(
                    o as int,
                    units as int,
                    h.offset as int,
                    h.units as int,
                ) by {
                    assert(s.free.contains(h));
                }
                assert(t.tiled()) by {
                    assert forall|h: Hole| #[trigger] t.free.contains(h) implies s.free.contains(
                        h,
                    ) by {}
                }
            },
            None => {
                crate::accountsdb::storage::allocated_fits(s.meta, s.limits, units);
            },
        }
    }
}

/// Storing an account keeps the backend well-formed.
pub proof fn applied_wf(s: StoreState, entry: EntryView)
    requires
        s.wf(),
        durable_entry(entry) ==> entry.1.account.units > 0,
    ensures
        s.applied(entry) matches Some(t) ==> t.wf(),
{
    let (key, shared) = entry;
    let account = shared.account;
    deleted_wf(s, key@);
    if account.mode.is_authoritative() && account.mode != AccountMode::Closed {
        if s.located.contains_key(key@) && account.units <= s.span_of(key@) {
            overwritten_wf(s, key, account);
        }
        if shared.cow != CoWAccount::Borrowed || s.outgrown(key, account, shared.markers) {
            let span = s.room(key, account.units);
            allocated_wf(s, span);
            if let Some((t, offset)) = s.allocated(span) {
                deleted_wf(t, key@);
                assert(t.deleted(key@).clear(offset, span));
                placed_wf(t.deleted(key@), key, account, offset, span);
            }
        }
    }
}

/// Images as they were before the writes that `log` records, newest last.
pub open spec fn rewound(
    heap: Map<Seq<u8>, Image>,
    log: Seq<(Offset, Option<Image>)>,
) -> Map<Seq<u8>, Image>
    decreases log.len(),
{
    if log.len() == 0 {
        heap
    } else {
        let (offset, prior) = log.last();
        let earlier = match prior {
            Some(image) => heap.insert(place_key(offset), image),
            None => heap.remove(place_key(offset)),
        };
        rewound(earlier, log.drop_last())
    }
}

pub fn place_bytes(offset: Offset) -> (key: Vec<u8>)
    ensures
        key@ == place_key(offset),
{
    let mut key: Vec<u8> = Vec::new();
    key.extend_from_slice(u32_to_le(offset).as_slice());
    assert(key@ =~= place_key(offset));
    key
}

/// What a table of images holds.
pub open spec fn image_views(images: Map<Seq<u8>, Image>) -> Map<Seq<u8>, ImageView> {
    images.map_values(|image: Image| image@)
}

impl PersistedStore {
    /// Contents of the backend.
    pub open spec fn state(self) -> StoreState {
        StoreState {
            located: self.index.located(),
            owned: self.index.owned(),
            free: self.index.free(),
            heap: image_views(self.images@),
            meta: self.meta,
            limits: self.limits,
        }
    }

    /// What holds of every backend.
    pub open spec fn wf(self) -> bool {
        &&& self.index.wf()
        &&& self.images.wf()
        &&& self.state().wf()
    }

    /// An empty backend.
    pub fn new(limits: Limits) -> (store: PersistedStore)
        requires
            limits.wf(),
        ensures
            store.wf(),
            store.limits == limits,
            store.state().accounts() == Map::<Seq<u8>, AccountView>::empty(),
            store.state().free == Set::<Hole>::empty(),
            store.meta == first_header(limits),
    {
        let store = PersistedStore {
            meta: DatabaseMeta::new(&limits),
            limits,
            index: Index::new(),
            images: Table::new(),
        };
        assert(store.state().accounts() =~= Map::<Seq<u8>, AccountView>::empty());
        store
    }

    /// Whether an image exists for `key`.
    pub fn contains(&self, key: &Pubkey) -> (found: bool)
        requires
            self.wf(),
        ensures
            found == self.state().accounts().contains_key(key@),
    {
        self.index.offset(key).is_some()
    }

    /// Lifecycle state of the account at `key`.
    pub fn mode(&self, key: &Pubkey) -> (mode: Option<AccountMode>)
        requires
            self.wf(),
        ensures
            mode is Some <==> self.state().accounts().contains_key(key@),
            mode matches Some(m) ==> m == self.state().accounts()[key@].mode,
    {
        match self.index.offset(key) {
            Some(offset) => {
                let place = place_bytes(offset);
                match self.images.get(place.as_slice()) {
                    Some(image) => Some(image.account.mode),
                    None => None,
                }
            },
            None => None,
        }
    }

    /// Copies the account at `key`, which counts as one read.
    pub fn load(&mut self, key: &Pubkey) -> (account: Option<Account>)
        requires
            old(self).wf(),
        ensures
            final(self).wf(),
            account is Some <==> old(self).state().accounts().contains_key(key@),
            account matches Some(a) ==> a@ == old(self).state().accounts()[key@] && final(self).state() == (StoreState {
                meta: DatabaseMeta {
                    stats: Stats {
                        reads: bumped(old(self).meta.stats.reads, 1),
                        ..old(self).meta.stats
                    },
                    ..old(self).meta
                },
                ..old(self).state()
            }),
            account is None ==> final(self).state() == old(self).state(),
    {
        let ghost before = self.state();
        match self.index.offset(key) {
            Some(offset) => {
                self.meta.stats.read();
                let place = place_bytes(offset);
                let account = match self.images.get(place.as_slice()) {
                    Some(image) => Some(image.account.clone()),
                    None => None,
                };
                assert(self.state().linked() == before.linked());
                assert(self.state().tiled() == before.tiled());
                assert(self.state().authoritative() == before.authoritative());
                account
            },
            None => None,
        }
    }

    /// Units set aside for the image at `offset`.
    fn span(&self, offset: Offset) -> (span: u32)
        requires
            self.wf(),
            self.images@.contains_key(place_key(offset)),
        ensures
            span == self.images@[place_key(offset)].span,
    {
        let place = place_bytes(offset);
        match self.images.get(place.as_slice()) {
            Some(image) => image.span,
            None => 0,
        }
    }

    /// Writes an image and records what it replaces.
    fn write_image(&mut self, image: Image, log: &mut Vec<(Offset, Option<Image>)>)
        requires
            old(self).images.wf(),
        ensures
            final(self).images.wf(),
            final(self).state() == (StoreState {
                heap: old(self).state().heap.insert(place_key(image.offset), image@),
                ..old(self).state()
            }),
            final(self).index == old(self).index,
            rewound(final(self).images@, final(log)@) == rewound(old(self).images@, old(log)@),
    {
        let ghost before = self.images@;
        let ghost earlier = log@;
        let offset: u32 = image.offset;
        let replaced = self.images.insert(place_bytes(offset), image);
        let ghost prior = replaced;
        log.push((offset, replaced));
        proof {
            let place = place_key(offset);
            assert(log@.drop_last() =~= earlier);
            assert(image_views(self.images@) =~= image_views(before).insert(place, image@));
            match prior {
                Some(old_image) => assert(self.images@.insert(place, old_image) =~= before),
                None => assert(self.images@.remove(place) =~= before),
            }
        }
    }

    /// Removes an image and records it.
    fn erase_image(&mut self, offset: Offset, log: &mut Vec<(Offset, Option<Image>)>)
        requires
            old(self).images.wf(),
            old(self).images@.contains_key(place_key(offset)),
        ensures
            final(self).images.wf(),
            final(self).state() == (StoreState {
                heap: old(self).state().heap.remove(place_key(offset)),
                ..old(self).state()
            }),
            final(self).index == old(self).index,
            rewound(final(self).images@, final(log)@) == rewound(old(self).images@, old(log)@),
    {
        let ghost before = self.images@;
        let ghost earlier = log@;
        let place = place_bytes(offset);
        let removed = self.images.remove(place.as_slice());
        let ghost prior = removed;
        log.push((offset, removed));
        proof {
            assert(log@.drop_last() =~= earlier);
            assert(image_views(self.images@) =~= image_views(before).remove(place_key(offset)));
            assert(self.images@.insert(place_key(offset), prior->0) =~= before);
        }
    }

    /// Deletes the account at `key`, if there is one, and frees its span.
    fn unlink(&mut self, key: &Pubkey, log: &mut Vec<(Offset, Option<Image>)>) -> (found: bool)
        requires
            old(self).wf(),
        ensures
            final(self).wf(),
            final(self).state() == old(self).state().deleted(key@),
            found == old(self).state().located.contains_key(key@),
            rewound(final(self).images@, final(log)@) == rewound(old(self).images@, old(log)@),
    {
        proof {
            deleted_wf(self.state(), key@);
        }
        match self.index.offset(key) {
            Some(offset) => {
                let span: u32 = self.span(offset);
                self.index.delete(key);
                self.index.put_free(Hole { offset, units: span });
                self.erase_image(offset, log);
                true
            },
            None => false,
        }
    }

    /// Deletes the account at `key`, if there is one, frees its span and counts the removal.
    fn delete(&mut self, key: &Pubkey, log: &mut Vec<(Offset, Option<Image>)>)
        requires
            old(self).wf(),
        ensures
            final(self).wf(),
            final(self).state() == old(self).state().removed(key@),
            rewound(final(self).images@, final(log)@) == rewound(old(self).images@, old(log)@),
    {
        let ghost before = self.state();
        if self.unlink(key, log) {
            let ghost unlinked = self.state();
            self.meta.stats.remove();
            proof {
                assert(self.state().linked() == unlinked.linked());
                assert(self.state().tiled() == unlinked.tiled());
                assert(self.state().authoritative() == unlinked.authoritative());
            }
        }
    }

    /// Overwrites the image of a stored account where it lies.
    fn overwrite(
        &mut self,
        key: &Pubkey,
        offset: Offset,
        account: Account,
        log: &mut Vec<(Offset, Option<Image>)>,
    )
        requires
            old(self).wf(),
            old(self).state().located.contains_key(key@),
            old(self).state().located[key@].offset == offset,
            0 < account.units <= old(self).state().span_of(key@),
            account.mode.is_authoritative(),
            account.mode != AccountMode::Closed,
        ensures
            final(self).wf(),
            final(self).state() == old(self).state().overwritten(*key, account@),
            rewound(final(self).images@, final(log)@) == rewound(old(self).images@, old(log)@),
    {
        let ghost before = self.state();
        proof {
            overwritten_wf(before, *key, account@);
        }
        let span: u32 = self.span(offset);
        let tag = key_tail(&account.owner);
        proof {
            tag_is_tail(account.owner, tag);
        }
        self.index.update_owner(key, tag);
        self.write_image(Image { offset, span, key: *key, account }, log);
    }

    /// Whether a changed account of `units` units no longer fits its image.
    fn outgrew(&self, key: &Pubkey, units: u32, markers: DirtyMarkers) -> (outgrown: bool)
        requires
            self.wf(),
        ensures
            forall|account: AccountView|
                account.units == units ==> outgrown == #[trigger] self.state().outgrown(
                    *key,
                    account,
                    markers,
                ),
    {
        if !markers.owner && !markers.content {
            return false;
        }
        match self.index.offset(key) {
            Some(offset) => self.span(offset) < units,
            None => false,
        }
    }

    /// Commits a changed view of an image where it lies.
    fn update(
        &mut self,
        key: &Pubkey,
        account: Account,
        markers: DirtyMarkers,
        log: &mut Vec<(Offset, Option<Image>)>,
    )
        requires
            old(self).wf(),
            account.units > 0,
            !old(self).state().outgrown(*key, account@, markers),
            account.mode.is_authoritative(),
            account.mode != AccountMode::Closed,
        ensures
            final(self).wf(),
            final(self).state() == old(self).state().updated(*key, account@, markers),
            rewound(final(self).images@, final(log)@) == rewound(old(self).images@, old(log)@),
    {
        if !markers.owner && !markers.content {
            return ;
        }
        if let Some(offset) = self.index.offset(key) {
            self.overwrite(key, offset, account, log);
            let ghost written = self.state();
            self.meta.stats.commit();
            proof {
                assert(self.state().linked() == written.linked());
                assert(self.state().tiled() == written.tiled());
                assert(self.state().authoritative() == written.authoritative());
            }
        }
    }

    /// Takes a span of `units` units from the freelist, or else from the end of the file.
    fn allocate(&mut self, units: u32) -> (result: Result<Offset, AccountsDBError>)
        requires
            old(self).wf(),
            units > 0,
        ensures
            old(self).state().allocated(units) matches Some((next, offset)) ==> result == Ok::<
                Offset,
                AccountsDBError,
            >(offset) && final(self).state() == next && final(self).wf(),
            old(self).state().allocated(units) is None ==> result == Err::<Offset, AccountsDBError>(
                AccountsDBError::Allocation,
            ) && final(self).state() == old(self).state() && final(self).wf(),
            final(self).images == old(self).images,
    {
        let ghost before = self.state();
        proof {
            allocated_wf(before, units);
        }
        match self.index.allocate(units) {
            Some(offset) => {
                proof {
                    assert(first_free(before.free, units, offset)) by {
                        assert forall|h: Hole| #[trigger]
                            before.free.contains(h) && h.units == units && h.offset
                                != offset implies walks_before(offset, h.offset) by {}
                    }
                    first_free_unique(before.free, units, offset);
                }
                self.meta.stats.realloc();
                Ok(offset)
            },
            None => {
                proof {
                    assert(pick_free(before.free, units) is None) by {
                        if exists|o: Offset| first_free(before.free, units, o) {
                            let o = choose|o: Offset| first_free(before.free, units, o);
                            assert(before.free.contains(Hole { offset: o, units }));
                        }
                    }
                }
                let limits: Limits = self.limits;
                self.meta.allocate(&limits, units)
            },
        }
    }

    /// Writes an owned account: over its image where it fits, else into a new span, freeing
    /// the span that it had. An account that outgrew its image gets whole pages.
    fn insert(
        &mut self,
        key: &Pubkey,
        account: Account,
        log: &mut Vec<(Offset, Option<Image>)>,
    ) -> (result: Result<(), AccountsDBError>)
        requires
            old(self).wf(),
            account.units > 0,
            account.mode.is_authoritative(),
            account.mode != AccountMode::Closed,
        ensures
            final(self).wf(),
            old(self).state().inserted(*key, account@) matches Some(next) ==> result is Ok && final(self).state() == next,
            old(self).state().inserted(*key, account@) is None ==> result == Err::<
                (),
                AccountsDBError,
            >(AccountsDBError::Allocation) && final(self).state() == old(self).state(),
            rewound(final(self).images@, final(log)@) == rewound(old(self).images@, old(log)@),
    {
        let ghost before = self.state();
        let mut span: u32 = account.units;
        if let Some(offset) = self.index.offset(key) {
            if self.span(offset) >= account.units {
                self.overwrite(key, offset, account, log);
                return Ok(());
            }
            span = page_units(account.units);
        }
        proof {
            allocated_wf(before, span);
        }
        let offset: u32 = match self.allocate(span) {
            Ok(offset) => offset,
            Err(e) => {
                return Err(e);
            },
        };
        let ghost taken = self.state();
        self.unlink(key, log);
        proof {
            deleted_wf(taken, key@);
            assert(taken.deleted(key@).clear(offset, span));
            placed_wf(taken.deleted(key@), *key, account@, offset, span);
        }
        let tag = key_tail(&account.owner);
        proof {
            tag_is_tail(account.owner, tag);
        }
        self.index.insert(key, OwnerAndOffset { owner: tag, offset });
        self.write_image(Image { offset, span, key: *key, account }, log);
        Ok(())
    }

    /// Stores one account.
    fn apply(
        &mut self,
        entry: AccountEntry,
        log: &mut Vec<(Offset, Option<Image>)>,
    ) -> (result: Result<(), AccountsDBError>)
        requires
            old(self).wf(),
            durable_entry((entry.0, entry.1@)) ==> entry.1.account.units > 0,
        ensures
            final(self).wf(),
            old(self).state().applied((entry.0, entry.1@)) matches Some(next) ==> result is Ok && final(self).state() == next,
            old(self).state().applied((entry.0, entry.1@)) is None ==> result == Err::<(), AccountsDBError>(
                AccountsDBError::Allocation,
            ) && final(self).state() == old(self).state(),
            rewound(final(self).images@, final(log)@) == rewound(old(self).images@, old(log)@),
    {
        let (key, shared) = entry;
        let mode: AccountMode = shared.account.mode;
        // An account that has moved to a mode the engine does not decide about, or that was
        // closed, no longer belongs here: drop any stale entry.
        if !mode.authoritative() || mode == AccountMode::Closed {
            self.delete(&key, log);
            return Ok(());
        }
        if shared.cow == CoWAccount::Borrowed && !self.outgrew(
            &key,
            shared.account.units,
            shared.markers,
        ) {
            self.update(&key, shared.account, shared.markers, log);
            return Ok(());
        }
        self.insert(&key, shared.account, log)
    }

    /// Puts every image back that `log` records.
    fn rollback(&mut self, log: Vec<(Offset, Option<Image>)>)
        requires
            old(self).images.wf(),
        ensures
            final(self).images.wf(),
            final(self).state() == (StoreState {
                heap: image_views(rewound(old(self).images@, log@)),
                ..old(self).state()
            }),
            final(self).index == old(self).index,
    {
        let mut log = log;
        let ghost target = rewound(self.images@, log@);
        let ghost before = *self;
        while log.len() > 0
            invariant
                self.images.wf(),
                rewound(self.images@, log@) == target,
                self.index == before.index,
                self.meta == before.meta,
                self.limits == before.limits,
            decreases log.len(),
        {
            let ghost rest = log@.drop_last();
            match log.pop() {
                Some((offset, prior)) => {
                    let place = place_bytes(offset);
                    match prior {
                        Some(image) => {
                            self.images.insert(place, image);
                        },
                        None => {
                            self.images.remove(place.as_slice());
                        },
                    }
                    assert(log@ =~= rest);
                },
                None => {},
            }
        }
    }

    /// Stores a batch of accounts, all of them or none.
    ///
    /// On failure index and images are as before; what was allocated on the way stays
    /// allocated.
    pub fn upsert(&mut self, entries: Vec<AccountEntry>) -> (result: Result<(), AccountsDBError>)
        requires
            old(self).wf(),
            entries_ok(entry_views(entries@)),
        ensures
            final(self).wf(),
            old(self).state().applied_all(entry_views(entries@), entries@.len()) matches Some(next) ==> result is Ok
                && final(self).state() == next,
            old(self).state().applied_all(entry_views(entries@), entries@.len()) is None ==> {
                &&& result == Err::<(), AccountsDBError>(AccountsDBError::Allocation)
                &&& refused(old(self).state(), entry_views(entries@), final(self).state())
            },
    {
        let ghost start = self.state();
        let ghost given = entries@;
        let ghost all = entry_views(entries@);
        let ghost initial = *self;
        let saved = self.index.copy();
        let mut log: Vec<(Offset, Option<Image>)> = Vec::new();
        let mut failed: Option<AccountsDBError> = None;
        let ghost mut stopped: nat = 0;
        for entry in it: entries
            invariant
                it.seq() == given,
                all == entry_views(given),
                entries_ok(all),
                self.wf(),
                start == initial.state(),
                initial.wf(),
                rewound(self.images@, log@) == initial.images@,
                failed is None ==> start.applied_all(all, it.index() as nat) == Some(self.state()),
                failed matches Some(e) ==> e == AccountsDBError::Allocation && stopped < it.index()
                    && start.applied_all(all, stopped) == Some(self.state())
                    && self.state().applied(all[stopped as int]) is None,
                self.limits == initial.limits,
        {
            assert(entry == given[it.index() as int]);
            assert(durable_entry(all[it.index() as int]) ==> all[it.index() as int].1.account.units
                > 0);
            if failed.is_none() {
                match self.apply(entry, &mut log) {
                    Ok(()) => {},
                    Err(e) => {
                        failed = Some(e);
                        proof {
                            stopped = it.index() as nat;
                        }
                    },
                }
            }
        }
        match failed {
            None => Ok(()),
            Some(e) => {
                let ghost reached = self.state();
                self.index = saved;
                self.rollback(log);
                proof {
                    assert(start.applied_all(all, stopped + 1) is None);
                    applied_all_none(start, all, stopped + 1, all.len());
                    applied_all_grows(start, all, stopped);
                    assert(self.state() == (StoreState { meta: reached.meta, ..start }));
                    grown_wf(start, self.state());
                    assert(refused_at(start, all, stopped, self.state()));
                }
                Err(e)
            },
        }
    }
}

/// Entry `k` found no span, and only the header keeps what the entries before it did.
pub open spec fn refused_at(
    start: StoreState,
    entries: Seq<EntryView>,
    k: nat,
    end: StoreState,
) -> bool {
    &&& start.applied_all(entries, k) matches Some(reached) && {
        &&& reached.applied(entries[k as int]) is None
        &&& end == (StoreState { meta: reached.meta, ..start })
    }
}

/// A batch failed at one of its entries.
pub open spec fn refused(s: StoreState, entries: Seq<EntryView>, after: StoreState) -> bool {
    exists|k: nat| k < entries.len() && #[trigger] refused_at(s, entries, k, after)
}

proof fn applied_all_none(s: StoreState, entries: Seq<EntryView>, k: nat, n: nat)
    requires
        k <= n,
        s.applied_all(entries, k) is None,
    ensures
        s.applied_all(entries, n) is None,
    decreases n,
{
    if k < n {
        applied_all_none(s, entries, k, (n - 1) as nat);
    }
}

/// Storing accounts never lowers the cursor nor shortens the file.
proof fn applied_all_grows(s: StoreState, entries: Seq<EntryView>, k: nat)
    requires
        s.wf(),
        entries_ok(entries),
        k <= entries.len(),
    ensures
        s.applied_all(entries, k) matches Some(t) ==> {
            &&& t.wf()
            &&& t.meta.cursor >= s.meta.cursor
            &&& t.limits == s.limits
        },
    decreases k,
{
    if k > 0 {
        applied_all_grows(s, entries, (k - 1) as nat);
        if let Some(t) = s.applied_all(entries, (k - 1) as nat) {
            let entry = entries[k - 1];
            applied_wf(t, entry);
            let span = t.room(entry.0, entry.1.account.units);
            if durable_entry(entry) && t.allocated(span) is Some && pick_free(t.free, span) is None {
                crate::accountsdb::storage::allocated_fits(t.meta, t.limits, span);
            }
        }
    }
}

/// A backend stays well-formed when only its cursor and file grow.
proof fn grown_wf(s: StoreState, t: StoreState)
    requires
        s.wf(),
        t == (StoreState { meta: t.meta, ..s }),
        t.meta.cursor >= s.meta.cursor,
        t.meta.fits(),
    ensures
        t.wf(),
{
    assert(t.linked() == s.linked());
    assert(t.tiled()) by {
        assert(s.tiled());
    }
    assert(t.authoritative() == s.authoritative());
}

/// Storing one account leaves the images of all other accounts as they were, and its own
/// image holds what was stored.
pub proof fn untouched_images(s: StoreState, entry: EntryView, key: Seq<u8>)
    requires
        s.wf(),
        durable_entry(entry) ==> entry.1.account.units > 0,
        s.applied(entry) is Some,
        s.applied(entry)->0.located.contains_key(key),
    ensures
        ({
            let t = s.applied(entry)->0;
            let mode = entry.1.account.mode;
            let kept = mode.is_authoritative() && mode != AccountMode::Closed;
            &&& key != entry.0@ ==> s.located.contains_key(key) && t.accounts()[key]
                == s.accounts()[key]
            &&& key == entry.0@ ==> kept && if entry.1.cow == CoWAccount::Owned
                || entry.1.markers.any() {
                t.accounts()[key] == entry.1.account
            } else {
                t == s
            }
        }),
{
    let (own, shared) = entry;
    let account = shared.account;
    let t = s.applied(entry)->0;
    applied_wf(s, entry);
    if key != own@ {
        assert(s.located.contains_key(key));
        let place = place_key(s.located[key].offset);
        assert(s.heap[place].key@ == key);
        if s.located.contains_key(own@) {
            assert(s.heap[place_key(s.located[own@].offset)].key@ == own@);
        }
        if account.mode.is_authoritative() && account.mode != AccountMode::Closed && (shared.cow
            != CoWAccount::Borrowed || s.outgrown(own, account, shared.markers)) {
            let span = s.room(own, account.units);
            if let Some((next, offset)) = s.allocated(span) {
                allocated_wf(s, span);
                if place == place_key(offset) {
                    place_key_injective(s.located[key].offset, offset);
                    place_key_injective(s.heap[place].offset, offset);
                    assert(next.heap.contains_key(place));
                }
            }
        }
    }
}

/// Storing accounts leaves what the header says beside cursor, length and counters.
pub proof fn header_keeps_position(s: StoreState, entries: Seq<EntryView>, k: nat)
    requires
        k <= entries.len(),
    ensures
        s.applied_all(entries, k) matches Some(t) ==> {
            &&& t.meta.transactions == s.meta.transactions
            &&& t.meta.slot == s.meta.slot
            &&& t.meta.superblock == s.meta.superblock
            &&& t.meta.checksum == s.meta.checksum
            &&& t.meta.version == s.meta.version
        },
    decreases k,
{
    if k > 0 {
        header_keeps_position(s, entries, (k - 1) as nat);
    }
}

/// Counters and positions of the header do not matter for well-formedness.
pub proof fn header_is_free(s: StoreState, t: StoreState)
    requires
        s.wf(),
        t == (StoreState { meta: t.meta, ..s }),
        t.meta.cursor == s.meta.cursor,
        t.meta.fits(),
    ensures
        t.wf(),
        t.accounts() == s.accounts(),
{
    assert(t.accounts() =~= s.accounts());
}

} // verus!
