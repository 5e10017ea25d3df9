//! Mapped storage file: metadata header, allocation cursor, and file length.
//!
//! The file reserves a small header at its front, followed by account images. Images
//! are counted in storage units, the file in bytes.

use vstd::prelude::*;

use crate::accountsdb::defrag::Offset;
use crate::accountsdb::AccountsDBError;

verus! {

/// Bytes in one storage unit.
pub const STORAGE_UNIT: u64 = 8;

/// Storage units of one page of memory.
pub const PAGE_UNITS: u32 = 512;

/// Bytes reserved at the front of the file for metadata.
pub const DATABASE_META_RESERVATION: u64 = 256;

/// Growth block of the file.
pub const STORAGE_BLOCK: u64 = 268_435_456;

/// Largest file that can be mapped.
pub const MMAP_SIZE: u64 = 34_359_738_616;

/// Current on-disk format version.
pub const VERSION: u64 = 1;

/// How far and in which steps the file grows.
#[derive(Clone, Copy, PartialEq, Eq, Structural, Debug)]
pub struct Limits {
    /// Growth block in bytes.
    pub block: u64,
    /// Largest file in bytes.
    pub map: u64,
}

impl Limits {
    /// The block is not empty, and sizes stay far from the end of the number range.
    pub open spec fn wf(self) -> bool {
        &&& 0 < self.block <= 0x10_0000_0000
        &&& self.map <= 0x10_0000_0000_0000
    }
}

impl Default for Limits {
    fn default() -> (limits: Limits)
        ensures
            limits.block == STORAGE_BLOCK,
            limits.map == MMAP_SIZE,
            limits.wf(),
    {
        Limits { block: STORAGE_BLOCK, map: MMAP_SIZE }
    }
}

/// One more than `x`, wrapping at the end of the number range.
pub open spec fn bumped(x: u64, by: u64) -> u64 {
    ((x + by) % 0x1_0000_0000_0000_0000) as u64
}

fn bump(x: u64, by: u64) -> (y: u64)
    ensures
        y == bumped(x, by),
{
    x.wrapping_add(by)
}

/// Counters of the persisted backend.
#[derive(Clone, Copy, PartialEq, Eq, Structural, Debug)]
pub struct Stats {
    /// Image loads.
    pub reads: u64,
    /// Images committed in place.
    pub commits: u64,
    /// Fresh allocations at the end of the file.
    pub allocs: u64,
    /// Allocations from the freelist.
    pub reallocs: u64,
    /// Images moved by packing.
    pub compactions: u64,
    /// Images deleted.
    pub removals: u64,
    /// File resizes.
    pub resizes: u64,
}

impl Default for Stats {
    fn default() -> (stats: Stats)
        ensures
            stats == (Stats {
                reads: 0,
                commits: 0,
                allocs: 0,
                reallocs: 0,
                compactions: 0,
                removals: 0,
                resizes: 0,
            }),
    {
        Stats {
            reads: 0,
            commits: 0,
            allocs: 0,
            reallocs: 0,
            compactions: 0,
            removals: 0,
            resizes: 0,
        }
    }
}

impl Stats {
    /// Counts one persisted read.
    pub fn read(&mut self)
        ensures
            *final(self) == (Stats { reads: bumped(old(self).reads, 1), ..*old(self) }),
    {
        self.reads = bump(self.reads, 1);
    }

    /// Counts one image committed in place.
    pub fn commit(&mut self)
        ensures
            *final(self) == (Stats { commits: bumped(old(self).commits, 1), ..*old(self) }),
    {
        self.commits = bump(self.commits, 1);
    }

    /// Counts one fresh allocation.
    pub fn count_alloc(&mut self)
        ensures
            *final(self) == (Stats { allocs: bumped(old(self).allocs, 1), ..*old(self) }),
    {
        self.allocs = bump(self.allocs, 1);
    }

    /// Counts one freelist reuse.
    pub fn realloc(&mut self)
        ensures
            *final(self) == (Stats { reallocs: bumped(old(self).reallocs, 1), ..*old(self) }),
    {
        self.reallocs = bump(self.reallocs, 1);
    }

    /// Counts images moved by packing.
    pub fn compact(&mut self, count: usize)
        ensures
            *final(self) == (Stats {
                compactions: bumped(old(self).compactions, count as u64),
                ..*old(self)
            }),
    {
        self.compactions = bump(self.compactions, count as u64);
    }

    /// Counts one persisted removal.
    pub fn remove(&mut self)
        ensures
            *final(self) == (Stats { removals: bumped(old(self).removals, 1), ..*old(self) }),
    {
        self.removals = bump(self.removals, 1);
    }

    /// Counts one file resize.
    pub fn resize(&mut self)
        ensures
            *final(self) == (Stats { resizes: bumped(old(self).resizes, 1), ..*old(self) }),
    {
        self.resizes = bump(self.resizes, 1);
    }
}

/// Metadata header at the front of the file.
#[derive(Clone, Copy, PartialEq, Eq, Structural, Debug)]
pub struct DatabaseMeta {
    /// On-disk format version.
    pub version: u64,
    /// Checksum stored by the last synchronous flush.
    pub checksum: u64,
    /// Current slot.
    pub slot: u64,
    /// Last sealed superblock.
    pub superblock: u64,
    /// Transactions whose account changes were committed.
    pub transactions: u64,
    /// File length in bytes.
    pub len: u64,
    /// Counters.
    pub stats: Stats,
    /// First unit past the last allocation.
    pub cursor: u32,
}

/// Bytes of a file that ends after `units` storage units.
pub open spec fn byte_len(units: int) -> int {
    units * STORAGE_UNIT + DATABASE_META_RESERVATION
}

/// The smallest multiple of `block` that is not less than `n`.
pub open spec fn rounded(n: int, block: int) -> int {
    (n + block - 1) / block * block
}

/// Header of a file that was just created.
pub open spec fn first_header(limits: Limits) -> DatabaseMeta {
    DatabaseMeta {
        version: VERSION,
        checksum: 0,
        slot: 1,
        superblock: 0,
        transactions: 0,
        len: (limits.block + DATABASE_META_RESERVATION) as u64,
        stats: Stats {
            reads: 0,
            commits: 0,
            allocs: 0,
            reallocs: 0,
            compactions: 0,
            removals: 0,
            resizes: 0,
        },
        cursor: 0,
    }
}

impl DatabaseMeta {
    /// Header of a file that was just created.
    pub fn new(limits: &Limits) -> (meta: DatabaseMeta)
        requires
            limits.wf(),
        ensures
            meta == first_header(*limits),
            meta.fits(),
    {
        DatabaseMeta {
            version: VERSION,
            checksum: 0,
            slot: 1,
            superblock: 0,
            transactions: 0,
            len: limits.block + DATABASE_META_RESERVATION,
            stats: Default::default(),
            cursor: 0,
        }
    }

    /// The allocated units lie within the file.
    pub open spec fn fits(self) -> bool {
        byte_len(self.cursor as int) <= self.len
    }

    /// Checks the format of an opened file.
    pub fn validate(&self) -> (result: Result<(), AccountsDBError>)
        ensures
            result matches Err(AccountsDBError::UnsupportedVersion(v)) <==> self.version != VERSION,
            result matches Err(AccountsDBError::UnsupportedVersion(v)) ==> v == self.version,
            result == Err::<(), AccountsDBError>(AccountsDBError::Corruption) <==> self.version
                == VERSION && !self.fits(),
            result is Ok <==> self.version == VERSION && self.fits(),
    {
        if self.version != VERSION {
            Err(AccountsDBError::UnsupportedVersion(self.version))
        } else if Self::bytes(self.cursor) > self.len {
            Err(AccountsDBError::Corruption)
        } else {
            Ok(())
        }
    }

    /// Bytes of a file that ends after `units` storage units.
    pub fn bytes(units: u32) -> (bytes: u64)
        ensures
            bytes == byte_len(units as int),
    {
        units as u64 * STORAGE_UNIT + DATABASE_META_RESERVATION
    }

    /// Whether `units` more units can be allocated.
    pub open spec fn can_allocate(self, limits: Limits, units: u32) -> bool {
        let end = self.cursor + units;
        &&& end <= u32::MAX
        &&& byte_len(end) <= self.len || rounded(byte_len(end), limits.block as int) <= limits.map
    }

    /// The header after `units` units were allocated at its cursor.
    pub open spec fn allocated(self, limits: Limits, units: u32) -> DatabaseMeta {
        let end = self.cursor + units;
        let grown = byte_len(end) > self.len;
        DatabaseMeta {
            cursor: end as u32,
            len: if grown {
                rounded(byte_len(end), limits.block as int) as u64
            } else {
                self.len
            },
            stats: Stats {
                allocs: bumped(self.stats.allocs, 1),
                resizes: if grown {
                    bumped(self.stats.resizes, 1)
                } else {
                    self.stats.resizes
                },
                ..self.stats
            },
            ..self
        }
    }

    /// Allocates a fresh span of `units` storage units, growing the file as needed.
    pub fn allocate(&mut self, limits: &Limits, units: u32) -> (result: Result<Offset, AccountsDBError>)
        requires
            limits.wf(),
        ensures
            result is Ok <==> old(self).can_allocate(*limits, units),
            result matches Ok(offset) ==> offset == old(self).cursor && *final(self)
                == old(self).allocated(*limits, units),
            result matches Err(e) ==> e == AccountsDBError::Allocation && *final(self) == *old(self),
            old(self).fits() && result is Ok ==> final(self).fits(),
    {
        let offset: u32 = self.cursor;
        let end: u32 = match offset.checked_add(units) {
            Some(end) => end,
            None => {
                return Err(AccountsDBError::Allocation);
            },
        };
        let needed: u64 = Self::bytes(end);
        if needed > self.len {
            match self.grow(limits, needed) {
                Ok(()) => {},
                Err(e) => {
                    return Err(e);
                },
            }
        }
        self.cursor = end;
        self.stats.count_alloc();
        Ok(offset)
    }

    /// Grows the file to at least `len` bytes, rounded up to a growth block.
    pub fn grow(&mut self, limits: &Limits, len: u64) -> (result: Result<(), AccountsDBError>)
        requires
            limits.wf(),
            len <= 0x10_0000_0000,
        ensures
            len <= rounded(len as int, limits.block as int) < len + limits.block,
            rounded(len as int, limits.block as int) > limits.map ==> result
                == Err::<(), AccountsDBError>(AccountsDBError::Allocation) && *final(self) == *old(self),
            rounded(len as int, limits.block as int) <= limits.map ==> result is Ok && *final(self)
                == old(self).resized(rounded(len as int, limits.block as int) as u64, false),
    {
        let block: u64 = limits.block;
        proof {
            round_up_bounds(len as int, block as int);
        }
        let blocks: u64 = (len + block - 1) / block;
        assert(blocks * block <= len + block) by (nonlinear_arith)
            requires
                blocks == (len + block - 1) / (block as int),
                block > 0,
        ;
        let target: u64 = blocks * block;
        if target > limits.map {
            return Err(AccountsDBError::Allocation);
        }
        self.resize(target, false);
        Ok(())
    }

    /// The header after a request for `len` bytes: unchanged if the file is already large
    /// enough, or small enough for `shrink`.
    pub open spec fn resized(self, len: u64, shrink: bool) -> DatabaseMeta {
        if (shrink && self.len <= len) || (!shrink && self.len >= len) {
            self
        } else {
            DatabaseMeta {
                len,
                stats: Stats { resizes: bumped(self.stats.resizes, 1), ..self.stats },
                ..self
            }
        }
    }

    /// Resizes the file unless it already satisfies the request.
    pub fn resize(&mut self, len: u64, shrink: bool)
        ensures
            *final(self) == old(self).resized(len, shrink),
    {
        if (shrink && self.len <= len) || (!shrink && self.len >= len) {
            return ;
        }
        self.len = len;
        self.stats.resize();
    }

    /// Cuts the file off after `units` storage units.
    pub fn shrink(&mut self, units: u32)
        ensures
            *final(self) == (DatabaseMeta {
                cursor: units,
                ..old(self).resized(byte_len(units as int) as u64, true)
            }),
            units <= old(self).cursor && old(self).fits() ==> final(self).fits(),
    {
        self.resize(Self::bytes(units), true);
        self.cursor = units;
    }
}

/// Allocation leaves the allocated units within the file.
pub proof fn allocated_fits(meta: DatabaseMeta, limits: Limits, units: u32)
    requires
        limits.wf(),
        meta.fits(),
        meta.can_allocate(limits, units),
    ensures
        meta.allocated(limits, units).fits(),
        meta.allocated(limits, units).cursor == meta.cursor + units,
{
    round_up_bounds(byte_len(meta.cursor + units), limits.block as int);
}

/// Rounding up goes less than one block past its argument.
proof fn round_up_bounds(n: int, block: int)
    requires
        0 < block,
        0 <= n,
    ensures
        n <= rounded(n, block) < n + block,
{
    let m = n + block - 1;
    assert(m / block * block == m - m % block && 0 <= m % block < block) by (nonlinear_arith)
        requires
            block > 0,
            m >= 0,
    ;
}

} // verus!
