//! Keys, slots, accounts, and block boundaries shared by every layer.

use vstd::prelude::*;

verus! {

/// Account address.
pub type Pubkey = [u8; 32];

/// Transaction signature.
pub type Signature = [u8; 64];

/// Block hash.
pub type BlockHash = [u8; 32];

/// Number of a block.
pub type Slot = u64;

/// Lifecycle state of an account.
#[derive(Clone, Copy, PartialEq, Eq, Structural, Debug)]
pub enum AccountMode {
    /// Mirror of an account on another chain.
    ReadOnly,
    /// Known to be absent on the other chain.
    Uninit,
    /// Internal runtime state, such as a sysvar or a program.
    System,
    /// Delegated to the engine.
    Delegated,
    /// Leaving the engine; its delegation is not resolved yet.
    Transient,
    /// Created and owned by the engine.
    Magic,
    /// Removed.
    Closed,
}

impl AccountMode {
    /// Whether the engine decides what the account holds.
    pub open spec fn is_authoritative(self) -> bool {
        match self {
            AccountMode::Delegated | AccountMode::Transient | AccountMode::Magic
            | AccountMode::Closed => true,
            AccountMode::ReadOnly | AccountMode::Uninit | AccountMode::System => false,
        }
    }

    /// Whether the engine decides what the account holds.
    pub fn authoritative(self) -> (yes: bool)
        ensures
            yes == self.is_authoritative(),
    {
        match self {
            AccountMode::Delegated | AccountMode::Transient | AccountMode::Magic
            | AccountMode::Closed => true,
            AccountMode::ReadOnly | AccountMode::Uninit | AccountMode::System => false,
        }
    }

    /// Number of the mode in serialized accounts.
    pub open spec fn number(self) -> u8 {
        match self {
            AccountMode::ReadOnly => 0,
            AccountMode::Uninit => 1,
            AccountMode::System => 2,
            AccountMode::Delegated => 3,
            AccountMode::Transient => 4,
            AccountMode::Magic => 5,
            AccountMode::Closed => 6,
        }
    }

    /// Number of the mode in serialized accounts.
    pub fn tag(self) -> (tag: u8)
        ensures
            tag == self.number(),
    {
        match self {
            AccountMode::ReadOnly => 0,
            AccountMode::Uninit => 1,
            AccountMode::System => 2,
            AccountMode::Delegated => 3,
            AccountMode::Transient => 4,
            AccountMode::Magic => 5,
            AccountMode::Closed => 6,
        }
    }
}

/// Account state.
#[derive(Debug)]
pub struct Account {
    /// Balance.
    pub lamports: u64,
    /// Program that owns the account.
    pub owner: Pubkey,
    /// Lifecycle state.
    pub mode: AccountMode,
    /// Slot of the remote chain at which the state was observed.
    pub slot: Slot,
    /// Whether the account holds a program.
    pub executable: bool,
    /// Size of the serialized account, in storage units.
    pub units: u32,
    /// Account data.
    pub data: Vec<u8>,
}

/// What an account holds.
pub struct AccountView {
    pub lamports: u64,
    pub owner: Pubkey,
    pub mode: AccountMode,
    pub slot: Slot,
    pub executable: bool,
    pub units: u32,
    pub data: Seq<u8>,
}

impl View for Account {
    type V = AccountView;

    open spec fn view(&self) -> AccountView {
        AccountView {
            lamports: self.lamports,
            owner: self.owner,
            mode: self.mode,
            slot: self.slot,
            executable: self.executable,
            units: self.units,
            data: self.data@,
        }
    }
}

impl Clone for Account {
    fn clone(&self) -> (copy: Account)
        ensures
            copy@ == self@,
    {
        let data = self.data.clone();
        assert(data@ =~= self.data@);
        Account {
            lamports: self.lamports,
            owner: self.owner,
            mode: self.mode,
            slot: self.slot,
            executable: self.executable,
            units: self.units,
            data,
        }
    }
}

/// Whether an account to be stored is a view of a stored image or a value of its own.
#[derive(Clone, Copy, PartialEq, Eq, Structural, Debug)]
pub enum CoWAccount {
    /// Changed view of an image that the persisted backend holds.
    Borrowed,
    /// Value of its own.
    Owned,
}

/// Which parts of an account were changed since it was loaded.
#[derive(Clone, Copy, PartialEq, Eq, Structural, Debug)]
pub struct DirtyMarkers {
    /// The owner was changed.
    pub owner: bool,
    /// Anything else was changed.
    pub content: bool,
}

impl DirtyMarkers {
    /// Whether anything was changed.
    pub open spec fn any(self) -> bool {
        self.owner || self.content
    }
}

/// Account on its way into storage.
#[derive(Debug)]
pub struct AccountSharedData {
    /// The account.
    pub account: Account,
    /// Where it came from.
    pub cow: CoWAccount,
    /// What was changed.
    pub markers: DirtyMarkers,
}

/// What an account on its way into storage holds.
pub struct SharedView {
    pub account: AccountView,
    pub cow: CoWAccount,
    pub markers: DirtyMarkers,
}

impl View for AccountSharedData {
    type V = SharedView;

    open spec fn view(&self) -> SharedView {
        SharedView { account: self.account@, cow: self.cow, markers: self.markers }
    }
}

impl Clone for AccountSharedData {
    fn clone(&self) -> (copy: AccountSharedData)
        ensures
            copy@ == self@,
    {
        AccountSharedData {
            account: self.account.clone(),
            cow: self.cow,
            markers: self.markers,
        }
    }
}

/// Account address with its new state.
pub type AccountEntry = (Pubkey, AccountSharedData);

/// What an entry holds.
pub type EntryView = (Pubkey, SharedView);

/// What a batch of entries holds.
pub open spec fn entry_views(entries: Seq<AccountEntry>) -> Seq<EntryView> {
    entries.map_values(|entry: AccountEntry| (entry.0, entry.1@))
}

/// An entry may be kept by the persisted backend: the engine decides about it.
pub open spec fn durable_entry(entry: EntryView) -> bool {
    entry.1.account.mode.is_authoritative()
}

/// Every entry that the persisted backend may keep holds an account with a serialized size.
pub open spec fn entries_ok(entries: Seq<EntryView>) -> bool {
    forall|i: int|
        0 <= i < entries.len() && durable_entry(#[trigger] entries[i])
            ==> entries[i].1.account.units > 0
}

/// Whether two 32-byte keys are equal.
pub fn same_key(a: &Pubkey, b: &Pubkey) -> (same: bool)
    ensures
        same == (a@ == b@),
        same == (*a == *b),
{
    let same = crate::bytes::bytes_eq(a.as_slice(), b.as_slice());
    proof {
        if same {
            assert(*a =~= *b);
        }
    }
    same
}

/// Whether two signatures are equal.
pub fn same_signature(a: &Signature, b: &Signature) -> (same: bool)
    ensures
        same == (a@ == b@),
        same == (*a == *b),
{
    let same = crate::bytes::bytes_eq(a.as_slice(), b.as_slice());
    proof {
        if same {
            assert(*a =~= *b);
        }
    }
    same
}

/// Block boundary.
#[derive(Clone, Copy, Debug, PartialEq, Eq)]
pub struct Block {
    /// Number of the block.
    pub slot: Slot,
    /// Hash of the block.
    pub hash: BlockHash,
    /// Unix time of the block in seconds.
    pub time: i64,
    /// Hash of the block before it.
    pub parent: BlockHash,
}

/// End of a superblock.
#[derive(Clone, Copy, PartialEq, Eq, Structural, Debug)]
pub struct SuperblockSeal {
    /// Superblock that ends.
    pub id: u64,
    /// Checksum of the persisted accounts at its end.
    pub checksum: u64,
    /// Transactions committed since genesis.
    pub transactions: u64,
}

} // verus!
