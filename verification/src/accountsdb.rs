//! Account storage: a persisted backend for engine-authoritative accounts and a
//! volatile one for accounts mirrored from another chain.

use vstd::prelude::*;

pub mod checksum;
pub mod compact;
pub mod db;
pub mod defrag;
pub mod index;
pub mod laws;
pub mod layout;
pub mod packing;
pub mod passes;
pub mod readers;
pub mod room;
pub mod snapshot;
pub mod storage;
pub mod store;
pub mod volatile;

verus! {

/// Failures of account storage.
#[derive(Clone, Copy, PartialEq, Eq, Structural, Debug)]
pub enum AccountsDBError {
    /// The allocation would exceed the largest file that can be mapped.
    Allocation,
    /// The file has a format version that is not supported.
    UnsupportedVersion(u64),
    /// The stored state does not match its recorded checksum or length.
    Corruption,
    /// Stored state could not be read or written in its format.
    Serde,
}

} // verus!
