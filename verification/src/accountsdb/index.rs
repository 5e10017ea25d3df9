//! Index of the persisted accounts: where each image lies, which images a program owns,
//! and which spans are free.

use vstd::prelude::*;

use crate::accountsdb::defrag::{Hole, Offset};
use crate::bytes::{be_bytes, le_bytes, lex_lt, u32_to_be, u32_to_le};
use crate::table::Table;
use crate::types::Pubkey;

verus! {

/// Compact tag of a program: the second half of its address.
pub type KeyTail = [u8; 16];

/// Where an image lies and who owns it.
#[derive(Clone, Copy, Debug)]
pub struct OwnerAndOffset {
    /// Tag of the owning program.
    pub owner: KeyTail,
    /// Position of the image.
    pub offset: Offset,
}

/// Index tables.
pub struct Index {
    /// Rows of the account table, by address.
    pub accounts: Table<OwnerAndOffset>,
    /// Rows of the program table, by owner tag and then by the bytes of the position.
    pub programs: Table<OwnerAndOffset>,
    /// Rows of the freelist, by size and then by the bytes of the position.
    pub freelist: Table<Hole>,
}

/// The second half of an address.
pub open spec fn tail_of(key: Pubkey) -> Seq<u8> {
    key@.subrange(16, 32)
}

/// Key of a program row.
pub open spec fn program_key(row: OwnerAndOffset) -> Seq<u8> {
    row.owner@ + le_bytes(row.offset as nat, 4)
}

/// Key of a freelist row.
pub open spec fn free_key(hole: Hole) -> Seq<u8> {
    be_bytes(hole.units as nat, 4) + le_bytes(hole.offset as nat, 4)
}

/// Positions are walked in the order of their little-endian bytes.
pub open spec fn walks_before(a: Offset, b: Offset) -> bool {
    lex_lt(le_bytes(a as nat, 4), le_bytes(b as nat, 4))
}

/// The second half of an address, as a table tag.
pub fn key_tail(key: &Pubkey) -> (tail: KeyTail)
    ensures
        tail@ == tail_of(*key),
{
    let mut tail: [u8; 16] = [0u8; 16];
    let mut i: usize = 0;
    while i < 16
        invariant
            i <= 16,
            forall|j: int| 0 <= j < i ==> tail@[j] == key@[j + 16],
        decreases 16 - i,
    {
        tail[i] = key[i + 16];
        i += 1;
    }
    assert(tail@ =~= tail_of(*key));
    tail
}

/// Rows have equal keys only if they are equal.
proof fn program_key_injective(a: OwnerAndOffset, b: OwnerAndOffset)
    requires
        program_key(a) == program_key(b),
    ensures
        a == b,
{
    crate::bytes::u32_spellings(a.offset, b.offset);
    crate::bytes::u32_spellings(b.offset, a.offset);
    assert(program_key(a).take(16) =~= a.owner@);
    assert(program_key(b).take(16) =~= b.owner@);
    assert(program_key(a).skip(16) =~= le_bytes(a.offset as nat, 4));
    assert(program_key(b).skip(16) =~= le_bytes(b.offset as nat, 4));
    assert(a.owner =~= b.owner);
}

/// Spans have equal keys only if they are equal.
pub proof fn free_key_injective(a: Hole, b: Hole)
    requires
        free_key(a) == free_key(b),
    ensures
        a == b,
{
    crate::bytes::u32_spellings(a.offset, b.offset);
    crate::bytes::u32_spellings(b.offset, a.offset);
    crate::bytes::u32_spellings(a.units, b.units);
    crate::bytes::u32_spellings(b.units, a.units);
    assert(free_key(a).take(4) =~= be_bytes(a.units as nat, 4));
    assert(free_key(b).take(4) =~= be_bytes(b.units as nat, 4));
    assert(free_key(a).skip(4) =~= le_bytes(a.offset as nat, 4));
    assert(free_key(b).skip(4) =~= le_bytes(b.offset as nat, 4));
}

fn program_key_bytes(row: OwnerAndOffset) -> (key: Vec<u8>)
    ensures
        key@ == program_key(row),
{
    let mut key: Vec<u8> = Vec::new();
    key.extend_from_slice(row.owner.as_slice());
    key.extend_from_slice(u32_to_le(row.offset).as_slice());
    assert(key@ =~= program_key(row));
    key
}

fn free_key_bytes(hole: Hole) -> (key: Vec<u8>)
    ensures
        key@ == free_key(hole),
{
    let mut key: Vec<u8> = Vec::new();
    key.extend_from_slice(u32_to_be(hole.units).as_slice());
    key.extend_from_slice(u32_to_le(hole.offset).as_slice());
    assert(key@ =~= free_key(hole));
    key
}

/// The address bytes as a table key.
pub fn key_bytes(key: &Pubkey) -> (bytes: Vec<u8>)
    ensures
        bytes@ == key@,
{
    let mut bytes: Vec<u8> = Vec::new();
    bytes.extend_from_slice(key.as_slice());
    assert(bytes@ =~= key@);
    bytes
}

impl Index {
    /// Positions and owner tags by address.
    pub open spec fn located(self) -> Map<Seq<u8>, OwnerAndOffset> {
        self.accounts@
    }

    /// Images by owner tag.
    pub open spec fn owned(self) -> Set<OwnerAndOffset> {
        Set::new(|row: OwnerAndOffset| self.programs@.contains_key(program_key(row)))
    }

    /// Free spans.
    pub open spec fn free(self) -> Set<Hole> {
        Set::new(|hole: Hole| self.freelist@.contains_key(free_key(hole)))
    }

    /// Tables are ordered, and each row stands under its own key.
    pub open spec fn wf(self) -> bool {
        &&& self.accounts.wf()
        &&& self.programs.wf()
        &&& self.freelist.wf()
        &&& forall|key: Seq<u8>| #[trigger]
            self.accounts@.contains_key(key) ==> key.len() == 32
        &&& forall|key: Seq<u8>| #[trigger]
            self.programs@.contains_key(key) ==> key == program_key(self.programs@[key])
        &&& forall|key: Seq<u8>| #[trigger]
            self.freelist@.contains_key(key) ==> key == free_key(self.freelist@[key])
    }

    /// An empty index.
    pub fn new() -> (index: Index)
        ensures
            index.wf(),
            index.located() == Map::<Seq<u8>, OwnerAndOffset>::empty(),
            index.owned() == Set::<OwnerAndOffset>::empty(),
            index.free() == Set::<Hole>::empty(),
    {
        let index = Index { accounts: Table::new(), programs: Table::new(), freelist: Table::new() };
        assert(index.owned() =~= Set::<OwnerAndOffset>::empty());
        assert(index.free() =~= Set::<Hole>::empty());
        index
    }

    /// An index with the same rows.
    pub fn copy(&self) -> (index: Index)
        requires
            self.wf(),
        ensures
            index.wf(),
            index.located() == self.located(),
            index.owned() == self.owned(),
            index.free() == self.free(),
    {
        let index = Index {
            accounts: self.accounts.copy(),
            programs: self.programs.copy(),
            freelist: self.freelist.copy(),
        };
        index
    }

    /// The row of `key`.
    pub fn entry(&self, key: &Pubkey) -> (row: Option<OwnerAndOffset>)
        requires
            self.wf(),
        ensures
            row is Some <==> self.located().contains_key(key@),
            row matches Some(r) ==> r == self.located()[key@],
    {
        match self.accounts.get(key.as_slice()) {
            Some(row) => Some(*row),
            None => None,
        }
    }

    /// Position of the image of `key`.
    pub fn offset(&self, key: &Pubkey) -> (offset: Option<Offset>)
        requires
            self.wf(),
        ensures
            offset is Some <==> self.located().contains_key(key@),
            offset matches Some(o) ==> o == self.located()[key@].offset,
    {
        match self.entry(key) {
            Some(row) => Some(row.offset),
            None => None,
        }
    }

    /// Takes a free span of exactly `units` units, if there is one: the one whose position
    /// is walked first.
    pub fn allocate(&mut self, units: u32) -> (offset: Option<Offset>)
        requires
            old(self).wf(),
        ensures
            final(self).wf(),
            final(self).located() == old(self).located(),
            final(self).owned() == old(self).owned(),
            offset is None ==> final(self).free() == old(self).free() && forall|h: Hole| #[trigger]
                old(self).free().contains(h) ==> h.units != units,
            offset matches Some(o) ==> {
                let hole = Hole { offset: o, units };
                &&& old(self).free().contains(hole)
                &&& final(self).free() == old(self).free().remove(hole)
                &&& forall|h: Hole| #[trigger]
                    old(self).free().contains(h) && h.units == units && h != hole ==> walks_before(
                        o,
                        h.offset,
                    )
            },
    {
        let ghost before = *self;
        proof {
            before.freelist.rows_are_entries();
        }
        let mut i: usize = 0;
        while i < self.freelist.rows.len()
            invariant
                *self == before,
                before == *old(self),
                before.wf(),
                i <= before.freelist.rows@.len(),
                forall|j: int| 0 <= j < i ==> (#[trigger] before.freelist.rows@[j]).1.units != units,
                forall|j: int|
                    0 <= j < before.freelist.rows@.len() ==> before.freelist@.contains_key(
                        (#[trigger] before.freelist.rows@[j]).0@,
                    ) && before.freelist@[before.freelist.rows@[j].0@] == before.freelist.rows@[j].1,
                forall|key: Seq<u8>| #[trigger]
                    before.freelist@.contains_key(key) ==> exists|i: int|
                        before.freelist.holds(key, i) && before.freelist@[key]
                            == before.freelist.rows@[i].1,
            decreases before.freelist.rows@.len() - i,
        {
            let hole = self.freelist.rows[i].1;
            if hole.units == units {
                proof {
                    assert(before.freelist.rows@[i as int].0@ == free_key(hole));
                    assert forall|h: Hole| #[trigger]
                        before.free().contains(h) && h.units == units && h != hole implies walks_before(
                        hole.offset,
                        h.offset,
                    ) by {
                        let k = choose|k: int|
                            before.freelist.holds(free_key(h), k) && before.freelist@[free_key(h)]
                                == before.freelist.rows@[k].1;
                        assert(free_key(before.freelist@[free_key(h)]) == free_key(h));
                        free_key_injective(before.freelist@[free_key(h)], h);
                        assert(before.freelist.rows@[k].1 == h);
                        assert(i <= k);
                        if k > i {
                            assert(lex_lt(
                                before.freelist.rows@[i as int].0@,
                                before.freelist.rows@[k].0@,
                            ));
                        }
                        crate::bytes::lex_common_prefix(
                            be_bytes(units as nat, 4),
                            le_bytes(hole.offset as nat, 4),
                            le_bytes(h.offset as nat, 4),
                        );
                    }
                }
                self.drop_free(hole);
                return Some(hole.offset);
            }
            i += 1;
        }
        proof {
            assert forall|h: Hole| #[trigger] before.free().contains(h) implies h.units != units by {
                let k = choose|k: int|
                    before.freelist.holds(free_key(h), k) && before.freelist@[free_key(h)]
                        == before.freelist.rows@[k].1;
                assert(free_key(before.freelist@[free_key(h)]) == free_key(h));
                free_key_injective(before.freelist@[free_key(h)], h);
            }
        }
        None
    }

    /// Adds a span to the freelist.
    pub fn put_free(&mut self, hole: Hole)
        requires
            old(self).wf(),
        ensures
            final(self).wf(),
            final(self).located() == old(self).located(),
            final(self).owned() == old(self).owned(),
            final(self).free() == old(self).free().insert(hole),
    {
        let ghost before = *self;
        self.freelist.insert(free_key_bytes(hole), hole);
        proof {
            assert forall|h: Hole| self.free().contains(h) <==> before.free().insert(hole).contains(
                h,
            ) by {
                if free_key(h) == free_key(hole) {
                    free_key_injective(h, hole);
                }
            }
            assert(self.free() =~= before.free().insert(hole));
        }
    }

    /// Removes a span from the freelist.
    pub fn drop_free(&mut self, hole: Hole)
        requires
            old(self).wf(),
        ensures
            final(self).wf(),
            final(self).located() == old(self).located(),
            final(self).owned() == old(self).owned(),
            final(self).free() == old(self).free().remove(hole),
    {
        let ghost before = *self;
        let key = free_key_bytes(hole);
        self.freelist.remove(key.as_slice());
        proof {
            assert forall|h: Hole| self.free().contains(h) <==> before.free().remove(hole).contains(
                h,
            ) by {
                if free_key(h) == free_key(hole) {
                    free_key_injective(h, hole);
                }
            }
            assert(self.free() =~= before.free().remove(hole));
        }
    }

    fn put_program(&mut self, row: OwnerAndOffset)
        requires
            old(self).wf(),
        ensures
            final(self).wf(),
            final(self).located() == old(self).located(),
            final(self).owned() == old(self).owned().insert(row),
            final(self).free() == old(self).free(),
    {
        let ghost before = *self;
        self.programs.insert(program_key_bytes(row), row);
        proof {
            assert forall|r: OwnerAndOffset| self.owned().contains(r) <==> before.owned().insert(
                row,
            ).contains(r) by {
                if program_key(r) == program_key(row) {
                    program_key_injective(r, row);
                }
            }
            assert(self.owned() =~= before.owned().insert(row));
        }
    }

    fn drop_program(&mut self, row: OwnerAndOffset)
        requires
            old(self).wf(),
        ensures
            final(self).wf(),
            final(self).located() == old(self).located(),
            final(self).owned() == old(self).owned().remove(row),
            final(self).free() == old(self).free(),
    {
        let ghost before = *self;
        let key = program_key_bytes(row);
        self.programs.remove(key.as_slice());
        proof {
            assert forall|r: OwnerAndOffset| self.owned().contains(r) <==> before.owned().remove(
                row,
            ).contains(r) by {
                if program_key(r) == program_key(row) {
                    program_key_injective(r, row);
                }
            }
            assert(self.owned() =~= before.owned().remove(row));
        }
    }

    /// Inserts an account and its owner mapping.
    pub fn insert(&mut self, key: &Pubkey, row: OwnerAndOffset)
        requires
            old(self).wf(),
        ensures
            final(self).wf(),
            final(self).located() == old(self).located().insert(key@, row),
            final(self).owned() == old(self).owned().insert(row),
            final(self).free() == old(self).free(),
    {
        self.accounts.insert(key_bytes(key), row);
        self.put_program(row);
    }

    /// Removes an account with its owner mapping and returns where its image lies.
    pub fn delete(&mut self, key: &Pubkey) -> (offset: Option<Offset>)
        requires
            old(self).wf(),
        ensures
            final(self).wf(),
            final(self).located() == old(self).located().remove(key@),
            final(self).free() == old(self).free(),
            offset is Some <==> old(self).located().contains_key(key@),
            offset is None ==> final(self).owned() == old(self).owned(),
            offset matches Some(o) ==> o == old(self).located()[key@].offset && final(self).owned()
                == old(self).owned().remove(old(self).located()[key@]),
    {
        match self.accounts.remove(key.as_slice()) {
            Some(row) => {
                self.drop_program(row);
                Some(row.offset)
            },
            None => None,
        }
    }

    /// Moves an account to a new owner tag and keeps its position. Does nothing for an
    /// absent account.
    pub fn update_owner(&mut self, key: &Pubkey, owner: KeyTail)
        requires
            old(self).wf(),
        ensures
            final(self).wf(),
            final(self).free() == old(self).free(),
            !old(self).located().contains_key(key@) ==> final(self).located() == old(self).located()
                && final(self).owned() == old(self).owned(),
            old(self).located().contains_key(key@) ==> {
                let row = old(self).located()[key@];
                let moved = OwnerAndOffset { owner, offset: row.offset };
                &&& final(self).located() == old(self).located().insert(key@, moved)
                &&& final(self).owned() == old(self).owned().remove(row).insert(moved)
            },
    {
        if let Some(row) = self.entry(key) {
            self.drop_program(row);
            let moved = OwnerAndOffset { owner, offset: row.offset };
            self.accounts.insert(key_bytes(key), moved);
            self.put_program(moved);
        }
    }

    /// Moves an account from position `old_offset` to the position in `row`.
    pub fn relocate(&mut self, key: &Pubkey, old_offset: Offset, row: OwnerAndOffset)
        requires
            old(self).wf(),
        ensures
            final(self).wf(),
            final(self).located() == old(self).located().insert(key@, row),
            final(self).owned() == old(self).owned().remove(
                (OwnerAndOffset { owner: row.owner, offset: old_offset }),
            ).insert(row),
            final(self).free() == old(self).free(),
    {
        self.accounts.insert(key_bytes(key), row);
        self.drop_program(OwnerAndOffset { owner: row.owner, offset: old_offset });
        self.put_program(row);
    }

    /// Positions of the images that carry the tag `owner`, in the order in which the table
    /// is walked.
    pub fn program(&self, owner: &KeyTail) -> (offsets: Vec<Offset>)
        requires
            self.wf(),
        ensures
            forall|o: Offset| #[trigger]
                offsets@.contains(o) <==> self.owned().contains(
                    (OwnerAndOffset { owner: *owner, offset: o }),
                ),
            forall|i: int, j: int|
                0 <= i < j < offsets@.len() ==> walks_before(#[trigger] offsets@[i], #[trigger] offsets@[j]),
    {
        let mut offsets: Vec<Offset> = Vec::new();
        proof {
            self.programs.rows_are_entries();
        }
        let mut i: usize = 0;
        let ghost mut from: Seq<int> = Seq::empty();
        while i < self.programs.rows.len()
            invariant
                self.wf(),
                i <= self.programs.rows@.len(),
                from.len() == offsets@.len(),
                forall|j: int|
                    0 <= j < from.len() ==> 0 <= #[trigger] from[j] < i && self.programs.rows@[from[j]].1
                        == (OwnerAndOffset { owner: *owner, offset: offsets@[j] }),
                forall|a: int, b: int|
                    0 <= a < b < from.len() ==> (#[trigger] from[a]) < (#[trigger] from[b]),
                forall|k: int|
                    0 <= k < i && (#[trigger] self.programs.rows@[k]).1.owner == *owner
                        ==> offsets@.contains(self.programs.rows@[k].1.offset),
                forall|j: int|
                    0 <= j < self.programs.rows@.len() ==> self.programs@.contains_key(
                        (#[trigger] self.programs.rows@[j]).0@,
                    ) && self.programs@[self.programs.rows@[j].0@] == self.programs.rows@[j].1,
            decreases self.programs.rows@.len() - i,
        {
            let row = self.programs.rows[i].1;
            let ghost seen = offsets@;
            if crate::bytes::bytes_eq(row.owner.as_slice(), owner.as_slice()) {
                proof {
                    assert(row.owner =~= *owner);
                    from = from.push(i as int);
                }
                offsets.push(row.offset);
                proof {
                    assert(offsets@.last() == row.offset);
                    assert forall|k: int|
                        0 <= k < i + 1 && (#[trigger] self.programs.rows@[k]).1.owner
                            == *owner implies offsets@.contains(self.programs.rows@[k].1.offset) by {
                        if k < i {
                            let o = self.programs.rows@[k].1.offset;
                            assert(seen.contains(o));
                            let at = choose|at: int| 0 <= at < seen.len() && seen[at] == o;
                            assert(offsets@[at] == o);
                        }
                    }
                }
            }
            i += 1;
        }
        proof {
            assert forall|o: Offset| #[trigger] offsets@.contains(o) <==> self.owned().contains(
                (OwnerAndOffset { owner: *owner, offset: o }),
            ) by {
                let row = OwnerAndOffset { owner: *owner, offset: o };
                if offsets@.contains(o) {
                    let j = choose|j: int| 0 <= j < offsets@.len() && offsets@[j] == o;
                    assert(self.programs.rows@[from[j]].1 == row);
                    assert(self.programs@.contains_key(self.programs.rows@[from[j]].0@));
                }
                if self.owned().contains(row) {
                    let k = choose|k: int|
                        self.programs.holds(program_key(row), k) && self.programs@[program_key(row)]
                            == self.programs.rows@[k].1;
                    program_key_injective(self.programs@[program_key(row)], row);
                }
            }
            assert forall|a: int, b: int| 0 <= a < b < offsets@.len() implies walks_before(
                #[trigger] offsets@[a],
                #[trigger] offsets@[b],
            ) by {
                let x = from[a];
                let y = from[b];
                assert(lex_lt(self.programs.rows@[x].0@, self.programs.rows@[y].0@));
                assert(self.programs@.contains_key(self.programs.rows@[x].0@));
                assert(self.programs@.contains_key(self.programs.rows@[y].0@));
                crate::bytes::lex_common_prefix(
                    owner@,
                    le_bytes(offsets@[a] as nat, 4),
                    le_bytes(offsets@[b] as nat, 4),
                );
            }
        }
        offsets
    }
}

} // verus!
