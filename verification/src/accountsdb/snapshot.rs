//! Snapshot names and the state that a snapshot holds.

use vstd::prelude::*;
use vstd::string::StringExecFns;

use crate::accountsdb::compact::is_pass;
use crate::accountsdb::db::AccountsDB;
use crate::accountsdb::defrag::{Defragged, Hole, Offset, Run};
use crate::accountsdb::storage::DatabaseMeta;
use crate::accountsdb::store::StoreState;
use crate::accountsdb::volatile::lists_accounts;
use crate::text::{begins_with, has_prefix, numbered, padded};
use crate::types::{Account, Pubkey};

verus! {

/// Backup of the active database tree.
#[derive(Clone, Copy, Debug, PartialEq, Eq, Structural)]
pub enum BackupOp {
    /// Moves the active tree to its backup path.
    Save,
    /// Moves the saved tree back to the active path.
    Restore,
}

/// Name of the active database directory.
pub fn active_dir() -> (name: &'static str)
    ensures
        name@ == "CURRENT"@,
{
    "CURRENT"
}

/// Name of the directory that a backup is kept in.
pub fn backup_dir() -> (name: String)
    ensures
        name@ == "CURRENT"@ + ".bkp"@,
{
    let mut name = String::from_str(active_dir());
    name.append(".bkp");
    name
}

/// Name of the file that volatile accounts are dumped to.
pub fn volatile_file() -> (name: &'static str)
    ensures
        name@ == "volatile.db"@,
{
    "volatile.db"
}

/// Name of the directory that the snapshot of a superblock is exported to.
pub fn snapshot_name(superblock: u64) -> (name: String)
    ensures
        name@ == "snapshot-"@ + padded(superblock as nat, 9),
{
    numbered("snapshot-", superblock, 9)
}

/// Whether a directory entry is a snapshot export left behind.
pub fn is_snapshot(name: &str) -> (yes: bool)
    ensures
        yes == begins_with(name@, "snapshot-"@),
{
    has_prefix(name, "snapshot-")
}

/// Every export is recognized, and exports of different superblocks have different names.
pub proof fn snapshot_names_are_distinct(a: u64, b: u64)
    ensures
        begins_with("snapshot-"@ + padded(a as nat, 9), "snapshot-"@),
        "snapshot-"@ + padded(a as nat, 9) == "snapshot-"@ + padded(b as nat, 9) ==> a == b,
{
    let p = "snapshot-"@;
    let x = padded(a as nat, 9);
    let y = padded(b as nat, 9);
    assert((p + x).take(p.len() as int) =~= p);
    if p + x == p + y {
        assert((p + x).skip(p.len() as int) =~= x);
        assert((p + y).skip(p.len() as int) =~= y);
        crate::text::padded_is_injective(a as nat, b as nat, 9);
    }
}

/// Directory that a backup operation moves, and the directory that it becomes.
pub fn backup_paths(op: BackupOp) -> (paths: (String, String))
    ensures
        ({
            let active = "CURRENT"@;
            let backup = "CURRENT"@ + ".bkp"@;
            (paths.0@, paths.1@) == match op {
                BackupOp::Save => (active, backup),
                BackupOp::Restore => (backup, active),
            }
        }),
{
    let active = String::from_str(active_dir());
    let backup = backup_dir();
    match op {
        BackupOp::Save => (active, backup),
        BackupOp::Restore => (backup, active),
    }
}

/// A persisted backend with the last sealed superblock recorded.
pub open spec fn marked(state: StoreState, superblock: u64) -> StoreState {
    StoreState { meta: DatabaseMeta { superblock, ..state.meta }, ..state }
}

impl AccountsDB {
    /// What preparing the snapshot of `superblock` leaves: the superblock is recorded, one pass
    /// packed the persisted accounts, and their checksum is recorded.
    pub open spec fn exports(self, superblock: u64, after: AccountsDB) -> bool {
        &&& after.volatile == self.volatile
        &&& after.persisted.state().accounts() == self.persisted.state().accounts()
        &&& after.persisted.meta.superblock == superblock
        &&& after.persisted.meta.slot == self.persisted.meta.slot
        &&& after.persisted.meta.transactions == self.persisted.meta.transactions
        &&& after.persisted.meta.checksum == after.persisted.state().checksum()
        &&& exists|
            holes: Seq<Hole>,
            live: Seq<(u32, u32)>,
            entry: Seq<Run>,
            cut: Offset,
            outcome: Defragged,
            packed: StoreState,
        |
            {
                &&& #[trigger] is_pass(
                    marked(self.persisted.state(), superblock),
                    holes,
                    live,
                    entry,
                    cut,
                    outcome,
                    packed,
                )
                &&& after.persisted.state() == (StoreState {
                    meta: DatabaseMeta { checksum: packed.checksum(), ..packed.meta },
                    ..packed
                })
            }
    }

    /// Prepares the snapshot of `superblock`: records the superblock, packs the persisted
    /// accounts once, and records their checksum. Returns the name of the snapshot and the
    /// volatile accounts that belong into it.
    pub fn snapshot(&mut self, superblock: u64) -> (export: (String, Vec<(Pubkey, Account)>))
        requires
            old(self).wf(),
        ensures
            final(self).wf(),
            old(self).apart() ==> final(self).apart(),
            export.0@ == "snapshot-"@ + padded(superblock as nat, 9),
            lists_accounts(export.1@, old(self).volatile.contents()),
            old(self).exports(superblock, *final(self)),
    {
        let ghost start = self.persisted.state();
        let name = snapshot_name(superblock);
        self.set_superblock(superblock);
        let ghost entered = self.persisted.state();
        let outcome = self.persisted.defragment();
        let ghost packed = self.persisted.state();
        proof {
            let (holes, live, entry, cut) = choose|
                holes: Seq<Hole>,
                live: Seq<(u32, u32)>,
                entry: Seq<Run>,
                cut: Offset,
            |
                is_pass(entered, holes, live, entry, cut, outcome, packed);
            crate::accountsdb::compact::pass_keeps_header(
                entered,
                holes,
                live,
                entry,
                cut,
                outcome,
                packed,
            );
            assert(entered == marked(start, superblock));
            assert(is_pass(marked(start, superblock), holes, live, entry, cut, outcome, packed));
        }
        self.flush(true);
        proof {
            crate::accountsdb::store::header_is_free(start, entered);
            crate::accountsdb::store::header_is_free(packed, self.persisted.state());
            crate::accountsdb::checksum::checksum_ignores_layout(packed, self.persisted.state());
        }
        let dump = self.volatile.dump();
        (name, dump)
    }
}

} // verus!
