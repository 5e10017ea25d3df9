//! What a keeper starts with: seeded accounts, cache lifetimes, and retained history.

use vstd::prelude::*;

use crate::accountsdb::db::AccountsDB;
use crate::accountsdb::AccountsDBError;
use crate::bytes::{le_bytes, u64_to_le};
use crate::keeper::accessor::Keeper;
use crate::keeper::cache::{
    history_hashes, history_views, latest_block, no_hash, slots_fit, stored_hashes, zero_hash,
    CacheSeed, Caches, HistoryEntry, HistoryView, SignatureStatus,
};
use crate::keeper::error::KeeperError;
use crate::keeper::features::{features, required_features};
use crate::keeper::sysvar::{
    add_slot_hashes, clock_bytes, decode_slot_hashes, encode_clock, encode_schedule,
    encode_slot_hashes, epoch_schedule, minimum_balance, parse_slot_hashes, schedule_bytes,
    schedule_of, slot_hashes_added, slot_hashes_bytes, slot_hashes_length, Clock, Rent, SlotHash,
    SLOTHASH_ENTRIES,
};
use crate::ledger::error::LedgerError;
use crate::ledger::reader::{read_block, read_blocks, read_status, Ledger, LedgerView};
use crate::ledger::request::{BlockDetails, BlockParams, BlockResponse, BlockResponseView};
use crate::types::{
    Account, AccountEntry, AccountMode, AccountSharedData, AccountView, Block, CoWAccount,
    DirtyMarkers, Pubkey, Signature, Slot,
};

verus! {

/// Balance of the account that pays for new accounts.
pub const SPONSOR_INIT_BALANCE: u64 = 9223372036854775807;

/// Nanoseconds for which processed signatures are remembered.
pub const SIGNATURE_CACHE_WINDOW: u64 = 75000000000;

/// Nanoseconds for which block hashes are accepted.
pub const BLOCK_CACHE_WINDOW: u64 = 60000000000;

/// Bytes of the largest seeded state.
pub const LARGEST_STATE: usize = 20488;

/// Addresses that the runtime fixes.
#[derive(Clone, Copy, Debug)]
pub struct Addresses {
    /// Owner of sysvars.
    pub sysvar: Pubkey,
    /// Owner of builtin programs.
    pub native_loader: Pubkey,
    /// Owner of loaded programs.
    pub loader: Pubkey,
    /// Owner of feature accounts.
    pub feature_gate: Pubkey,
    /// Owner of plain accounts.
    pub system: Pubkey,
    /// Slot hashes.
    pub slot_hashes: Pubkey,
    /// Clock.
    pub clock: Pubkey,
    /// Rent.
    pub rent: Pubkey,
    /// Fees.
    pub fees: Pubkey,
    /// Last restart slot.
    pub last_restart_slot: Pubkey,
    /// Instructions of the running transaction.
    pub instructions: Pubkey,
    /// Epoch schedule.
    pub epoch_schedule: Pubkey,
    /// Epoch rewards.
    pub epoch_rewards: Pubkey,
}

/// Account that is stored before anything is served.
#[derive(Debug)]
pub struct AccountSeed {
    /// Its address.
    pub pubkey: Pubkey,
    /// Its balance.
    pub lamports: u64,
    /// Program that owns it.
    pub owner: Pubkey,
    /// Its mode.
    pub mode: AccountMode,
    /// Whether it holds a program.
    pub executable: bool,
    /// Its data.
    pub data: Vec<u8>,
}

/// What a seeded account holds.
pub struct SeedView {
    pub pubkey: Pubkey,
    pub lamports: u64,
    pub owner: Pubkey,
    pub mode: AccountMode,
    pub executable: bool,
    pub data: Seq<u8>,
}

impl View for AccountSeed {
    type V = SeedView;

    open spec fn view(&self) -> SeedView {
        SeedView {
            pubkey: self.pubkey,
            lamports: self.lamports,
            owner: self.owner,
            mode: self.mode,
            executable: self.executable,
            data: self.data@,
        }
    }
}

/// What several seeded accounts hold.
pub open spec fn seed_views(list: Seq<AccountSeed>) -> Seq<SeedView> {
    list.map_values(|seed: AccountSeed| seed@)
}

impl AccountSeed {
    /// The account to be stored, given its serialized size in storage units.
    pub fn entry(self, units: u32) -> (entry: AccountEntry)
        ensures
            entry.0 == self.pubkey,
            entry.1@.cow == CoWAccount::Owned,
            entry.1@.markers == (DirtyMarkers { owner: true, content: true }),
            entry.1@.account == (AccountView {
                lamports: self.lamports,
                owner: self.owner,
                mode: self.mode,
                slot: 0,
                executable: self.executable,
                units,
                data: self.data@,
            }),
    {
        (
            self.pubkey,
            AccountSharedData {
                account: Account {
                    lamports: self.lamports,
                    owner: self.owner,
                    mode: self.mode,
                    slot: 0,
                    executable: self.executable,
                    units,
                    data: self.data,
                },
                cow: CoWAccount::Owned,
                markers: DirtyMarkers { owner: true, content: true },
            },
        )
    }
}

/// Slots that a window of time takes.
pub open spec fn slots_of(window: u64, blocktime: u64) -> u64 {
    if blocktime == 0 {
        u64::MAX
    } else if window % blocktime == 0 {
        window / blocktime
    } else {
        (window / blocktime + 1) as u64
    }
}

/// Slots that a window of time takes: as many as are needed to cover it, and no more.
pub fn ttl(window: u64, blocktime: u64) -> (slots: u64)
    ensures
        slots == slots_of(window, blocktime),
        blocktime > 0 ==> window <= slots * blocktime,
        blocktime > 0 && slots > 0 ==> (slots - 1) * blocktime < window,
{
    if blocktime == 0 {
        return u64::MAX;
    }
    let whole: u64 = window / blocktime;
    let rest: u64 = window % blocktime;
    proof {
        vstd::arithmetic::div_mod::lemma_fundamental_div_mod(window as int, blocktime as int);
        assert(window == blocktime * whole + rest);
        assert(blocktime * whole == whole * blocktime) by (nonlinear_arith);
        assert((whole - 1) * blocktime == whole * blocktime - blocktime) by (nonlinear_arith);
        assert((whole + 1) * blocktime == whole * blocktime + blocktime) by (nonlinear_arith);
        assert(whole == u64::MAX ==> rest == 0) by (nonlinear_arith)
            requires
                window == blocktime * whole + rest,
                blocktime > 0,
                window <= u64::MAX,
        ;
    }
    if rest == 0 {
        whole
    } else {
        whole + 1
    }
}

/// What startup rests on.
#[derive(Debug)]
pub struct Survey {
    /// Stored slot hashes, if there are any.
    pub slot_hashes: Option<Vec<SlotHash>>,
    /// Retained blocks, newest first.
    pub history: Vec<HistoryEntry>,
    /// Whether the paying account exists.
    pub sponsored: bool,
}

/// Settings of a keeper.
pub struct KeeperBuilder {
    /// Address of the authority.
    pub authority: Pubkey,
    /// Whether blocks come from elsewhere.
    pub follower: bool,
    /// Nanoseconds from block to block.
    pub blocktime: u64,
    /// Blocks of a superblock; zero if superblocks are not sealed by slot.
    pub superblock: u64,
    /// Accounts that are remembered as recent.
    pub lru_capacity: usize,
    /// Rent.
    pub rent: Rent,
    /// Addresses that the runtime fixes.
    pub addresses: Addresses,
    /// Builtin programs.
    pub builtins: Vec<Pubkey>,
    /// Loaded programs.
    pub programs: Vec<(Pubkey, Vec<u8>)>,
    /// Plain accounts to be seeded.
    pub accounts: Vec<AccountSeed>,
}

/// Data of a feature that is active from slot zero on.
pub open spec fn feature_bytes() -> Seq<u8> {
    seq![1u8] + le_bytes(0, 8)
}

/// As many zeros.
pub open spec fn zeros(n: nat) -> Seq<u8> {
    Seq::new(n, |i: int| 0u8)
}

fn zero_bytes(n: usize) -> (bytes: Vec<u8>)
    ensures
        bytes@ == zeros(n as nat),
{
    let mut bytes: Vec<u8> = Vec::new();
    let mut i: usize = 0;
    while i < n
        invariant
            i <= n,
            bytes@ == zeros(i as nat),
        decreases n - i,
    {
        bytes.push(0u8);
        assert(bytes@ =~= zeros((i + 1) as nat));
        i += 1;
    }
    bytes
}

/// Rent that covers some bytes covers fewer.
proof fn covers_fewer(rent: Rent, more: nat, fewer: nat)
    requires
        rent.covers(more),
        fewer <= more,
    ensures
        rent.covers(fewer),
{
    assert((128 + fewer) * rent.lamports_per_byte <= (128 + more) * rent.lamports_per_byte)
        by (nonlinear_arith)
        requires
            fewer <= more,
            rent.lamports_per_byte >= 0,
    ;
}

impl KeeperBuilder {
    /// Rent is known for everything that is seeded.
    pub open spec fn wf(self) -> bool {
        &&& self.rent.covers(LARGEST_STATE as nat)
        &&& forall|i: int|
            0 <= i < self.programs@.len() ==> self.rent.covers(
                (#[trigger] self.programs@[i]).1@.len(),
            )
    }

    /// Whether rent is known for everything that is seeded.
    pub fn rent_is_known(&self) -> (known: bool)
        ensures
            known == self.wf(),
    {
        if !self.rent.is_known(LARGEST_STATE) {
            return false;
        }
        let mut i: usize = 0;
        while i < self.programs.len()
            invariant
                i <= self.programs@.len(),
                self.rent.covers(LARGEST_STATE as nat),
                forall|k: int|
                    0 <= k < i ==> self.rent.covers((#[trigger] self.programs@[k]).1@.len()),
            decreases self.programs@.len() - i,
        {
            if !self.rent.is_known(self.programs[i].1.len()) {
                assert(!self.rent.covers(self.programs@[i as int].1@.len()));
                return false;
            }
            i += 1;
        }
        true
    }

    /// Account that holds runtime state.
    pub open spec fn state_seed(
        self,
        pubkey: Pubkey,
        owner: Pubkey,
        executable: bool,
        data: Seq<u8>,
    ) -> SeedView {
        SeedView {
            pubkey,
            lamports: self.rent.minimum(data.len()),
            owner,
            mode: AccountMode::System,
            executable,
            data,
        }
    }

    /// Builds an account that holds runtime state and pays no rent.
    fn account(&self, pubkey: Pubkey, owner: Pubkey, executable: bool, data: Vec<u8>) -> (seed:
        AccountSeed)
        requires
            self.rent.covers(data@.len()),
        ensures
            seed@ == self.state_seed(pubkey, owner, executable, data@),
    {
        AccountSeed {
            pubkey,
            lamports: minimum_balance(&self.rent, data.len()),
            owner,
            mode: AccountMode::System,
            executable,
            data,
        }
    }

    /// Accounts of the first `n` features.
    pub open spec fn feature_seeds(self, n: nat) -> Seq<SeedView> {
        Seq::new(
            n,
            |i: int|
                self.state_seed(
                    required_features()[i],
                    self.addresses.feature_gate,
                    false,
                    feature_bytes(),
                ),
        )
    }

    /// Accounts of the first `n` builtin programs.
    pub open spec fn builtin_seeds(self, n: nat) -> Seq<SeedView> {
        Seq::new(
            n,
            |i: int|
                self.state_seed(
                    self.builtins@[i],
                    self.addresses.native_loader,
                    true,
                    Seq::empty(),
                ),
        )
    }

    /// Accounts of the first `n` loaded programs.
    pub open spec fn program_seeds(self, n: nat) -> Seq<SeedView> {
        Seq::new(
            n,
            |i: int|
                self.state_seed(
                    self.programs@[i].0,
                    self.addresses.loader,
                    true,
                    self.programs@[i].1@,
                ),
        )
    }

    /// Seeds an account for each feature that the engine needs.
    pub fn seed_featureset(&self, accounts: &mut Vec<AccountSeed>)
        requires
            self.wf(),
        ensures
            seed_views(final(accounts)@) == seed_views(old(accounts)@) + self.feature_seeds(
                required_features().len(),
            ),
    {
        let required = features();
        let ghost before = seed_views(accounts@);
        let mut i: usize = 0;
        assert(seed_views(accounts@) =~= before + self.feature_seeds(0));
        while i < required.len()
            invariant
                self.wf(),
                i <= required@.len(),
                required@ == required_features(),
                seed_views(accounts@) == before + self.feature_seeds(i as nat),
            decreases required@.len() - i,
        {
            let mut data: Vec<u8> = vec![1u8];
            data.extend_from_slice(u64_to_le(0).as_slice());
            assert(data@ =~= feature_bytes());
            proof {
                crate::bytes::widths();
                crate::bytes::le_bytes_spell(0, 8);
                covers_fewer(self.rent, LARGEST_STATE as nat, 9);
            }
            let seed = self.account(required[i], self.addresses.feature_gate, false, data);
            let ghost list = accounts@;
            accounts.push(seed);
            assert(seed_views(accounts@) =~= seed_views(list).push(seed@));
            assert(seed_views(accounts@) =~= before + self.feature_seeds((i + 1) as nat));
            i += 1;
        }
    }

    /// Seeds accounts for builtin and loaded programs.
    pub fn seed_programs(&self, accounts: &mut Vec<AccountSeed>)
        requires
            self.wf(),
        ensures
            seed_views(final(accounts)@) == seed_views(old(accounts)@) + self.builtin_seeds(
                self.builtins@.len(),
            ) + self.program_seeds(self.programs@.len()),
    {
        let ghost before = seed_views(accounts@);
        let mut i: usize = 0;
        assert(seed_views(accounts@) =~= before + self.builtin_seeds(0));
        while i < self.builtins.len()
            invariant
                self.wf(),
                i <= self.builtins@.len(),
                seed_views(accounts@) == before + self.builtin_seeds(i as nat),
            decreases self.builtins@.len() - i,
        {
            let data: Vec<u8> = Vec::new();
            proof {
                covers_fewer(self.rent, LARGEST_STATE as nat, 0);
            }
            let seed = self.account(self.builtins[i], self.addresses.native_loader, true, data);
            let ghost list = accounts@;
            accounts.push(seed);
            assert(seed@.data =~= Seq::<u8>::empty());
            assert(seed_views(accounts@) =~= seed_views(list).push(seed@));
            assert(seed_views(accounts@) =~= before + self.builtin_seeds((i + 1) as nat));
            i += 1;
        }
        let ghost middle = seed_views(accounts@);
        let mut k: usize = 0;
        assert(seed_views(accounts@) =~= middle + self.program_seeds(0));
        while k < self.programs.len()
            invariant
                self.wf(),
                k <= self.programs@.len(),
                seed_views(accounts@) == middle + self.program_seeds(k as nat),
            decreases self.programs@.len() - k,
        {
            let elf = self.programs[k].1.clone();
            assert(elf@ =~= self.programs@[k as int].1@);
            let seed = self.account(self.programs[k].0, self.addresses.loader, true, elf);
            let ghost list = accounts@;
            accounts.push(seed);
            assert(seed_views(accounts@) =~= seed_views(list).push(seed@));
            assert(seed_views(accounts@) =~= middle + self.program_seeds((k + 1) as nat));
            k += 1;
        }
    }

    /// Slots whose blocks are read back at startup.
    pub open spec fn retained(self) -> u64 {
        let blocks = slots_of(BLOCK_CACHE_WINDOW, self.blocktime);
        let signatures = slots_of(SIGNATURE_CACHE_WINDOW, self.blocktime);
        let longer = if blocks < signatures {
            signatures
        } else {
            blocks
        };
        if longer < SLOTHASH_ENTRIES {
            SLOTHASH_ENTRIES as u64
        } else {
            longer
        }
    }

    /// First slot that is read back, and the one after the last, if account storage is at
    /// `slot`.
    pub open spec fn retained_slots(self, slot: Slot) -> (Slot, Slot) {
        (
            if slot >= self.retained() - 1 {
                (slot - (self.retained() - 1)) as u64
            } else {
                0
            },
            if slot < u64::MAX {
                (slot + 1) as u64
            } else {
                u64::MAX
            },
        )
    }

    /// First slot that is read back, and the one after the last, if account storage is at
    /// `slot`.
    pub fn retained_range(&self, slot: Slot) -> (range: (Slot, Slot))
        ensures
            range == self.retained_slots(slot),
    {
        let blocks: u64 = ttl(BLOCK_CACHE_WINDOW, self.blocktime);
        let signatures: u64 = ttl(SIGNATURE_CACHE_WINDOW, self.blocktime);
        let longer: u64 = if blocks < signatures {
            signatures
        } else {
            blocks
        };
        let retained: u64 = if longer < SLOTHASH_ENTRIES as u64 {
            SLOTHASH_ENTRIES as u64
        } else {
            longer
        };
        (slot.saturating_sub(retained - 1), slot.saturating_add(1))
    }

    /// Slot hashes as they are first stored.
    pub open spec fn first_hashes(history: Seq<HistoryView>) -> Seq<SlotHash> {
        let blocks = history_hashes(history);
        slot_hashes_added(
            Seq::new(SLOTHASH_ENTRIES as nat, |i: int| (0u64, zero_hash())),
            blocks,
            if blocks.len() < SLOTHASH_ENTRIES {
                blocks.len()
            } else {
                SLOTHASH_ENTRIES as nat
            },
        )
    }

    /// The clock after a block.
    pub open spec fn clock_after(latest: Block) -> Clock {
        Clock {
            slot: (latest.slot + 1) as u64,
            epoch_start_timestamp: 0,
            epoch: 0,
            leader_schedule_epoch: 0,
            unix_timestamp: latest.time,
        }
    }

    /// The clock after a block: one slot ahead of it, at its time.
    pub fn clock(latest: &Block) -> (clock: Clock)
        requires
            latest.slot < u64::MAX,
        ensures
            clock == Self::clock_after(*latest),
    {
        Clock {
            slot: latest.slot + 1,
            epoch_start_timestamp: 0,
            epoch: 0,
            leader_schedule_epoch: 0,
            unix_timestamp: latest.time,
        }
    }

    /// Accounts of the sysvars.
    pub open spec fn sysvar_seeds(
        self,
        history: Seq<HistoryView>,
        stored: Option<Seq<SlotHash>>,
    ) -> Seq<SeedView> {
        let owner = self.addresses.sysvar;
        let hashes = if stored is None {
            seq![
                self.state_seed(
                    self.addresses.slot_hashes,
                    owner,
                    false,
                    slot_hashes_bytes(Self::first_hashes(history)),
                ),
            ]
        } else {
            Seq::<SeedView>::empty()
        };
        hashes.push(
            self.state_seed(
                self.addresses.clock,
                owner,
                false,
                clock_bytes(Self::clock_after(latest_block(history, stored))),
            ),
        ).push(self.state_seed(self.addresses.rent, owner, false, self.rent.bytes())).push(
            self.state_seed(self.addresses.fees, owner, false, zeros(8)),
        ).push(self.state_seed(self.addresses.last_restart_slot, owner, false, zeros(8))).push(
            self.state_seed(self.addresses.instructions, owner, false, Seq::empty()),
        ).push(
            self.state_seed(
                self.addresses.epoch_schedule,
                owner,
                false,
                schedule_bytes(schedule_of(self.superblock)),
            ),
        ).push(self.state_seed(self.addresses.epoch_rewards, owner, false, zeros(81)))
    }

    /// Adds the account of one sysvar.
    fn seed_sysvar(&self, accounts: &mut Vec<AccountSeed>, pubkey: Pubkey, data: Vec<u8>)
        requires
            self.rent.covers(data@.len()),
        ensures
            seed_views(final(accounts)@) == seed_views(old(accounts)@).push(
                self.state_seed(pubkey, self.addresses.sysvar, false, data@),
            ),
    {
        let ghost list = accounts@;
        let seed = self.account(pubkey, self.addresses.sysvar, false, data);
        accounts.push(seed);
        assert(seed_views(accounts@) =~= seed_views(list).push(seed@));
    }

    /// Spells the slot hashes that are first stored.
    fn first_hashes_data(history: &Vec<HistoryEntry>) -> (data: Vec<u8>)
        ensures
            data@ == slot_hashes_bytes(Self::first_hashes(history_views(history@))),
            data@.len() <= LARGEST_STATE,
    {
        let ghost views = history_views(history@);
        let ghost blocks = history_hashes(views);
        let zero = no_hash();
        let mut start: Vec<SlotHash> = Vec::new();
        let mut i: usize = 0;
        while i < SLOTHASH_ENTRIES
            invariant
                i <= SLOTHASH_ENTRIES,
                zero == zero_hash(),
                start@ == Seq::new(i as nat, |k: int| (0u64, zero_hash())),
            decreases SLOTHASH_ENTRIES - i,
        {
            start.push((0u64, zero));
            assert(start@ =~= Seq::new((i + 1) as nat, |k: int| (0u64, zero_hash())));
            i += 1;
        }
        let mut newest: Vec<SlotHash> = Vec::new();
        let mut k: usize = 0;
        assert(newest@ =~= blocks.take(0));
        while k < history.len() && k < SLOTHASH_ENTRIES
            invariant
                k <= history@.len(),
                k <= SLOTHASH_ENTRIES,
                views == history_views(history@),
                blocks == history_hashes(views),
                newest@ == blocks.take(k as int),
            decreases history@.len() - k,
        {
            newest.push((history[k].block.slot, history[k].block.hash));
            assert(views[k as int] == history@[k as int]@);
            assert(newest@ =~= blocks.take(k + 1));
            k += 1;
        }
        let added = add_slot_hashes(start, &newest);
        proof {
            same_additions(start@, newest@, blocks, k as nat);
            slot_hashes_length(added@);
        }
        encode_slot_hashes(&added)
    }

    /// Seeds the sysvars, given the stored slot hashes if there are any and the retained
    /// blocks, newest first, and says what the caches begin with.
    pub fn seed_sysvars(
        &self,
        slot_hashes: Option<Vec<SlotHash>>,
        history: Vec<HistoryEntry>,
        accounts: &mut Vec<AccountSeed>,
    ) -> (seed: CacheSeed)
        requires
            self.wf(),
            latest_block(history_views(history@), stored_hashes(slot_hashes)).slot < u64::MAX,
        ensures
            seed_views(final(accounts)@) == seed_views(old(accounts)@) + self.sysvar_seeds(
                history_views(history@),
                stored_hashes(slot_hashes),
            ),
            ({
                let blocks = history_views(history@);
                let stored = stored_hashes(slot_hashes);
                &&& seed.latest == latest_block(blocks, stored)
                &&& seed.hashes@ == crate::keeper::cache::known_hashes(blocks, stored).reverse()
                &&& seed.history == history
            }),
    {
        let ghost before = seed_views(accounts@);
        let ghost blocks = history_views(history@);
        let ghost stored = stored_hashes(slot_hashes);
        proof {
            covers_fewer(self.rent, LARGEST_STATE as nat, 0);
            covers_fewer(self.rent, LARGEST_STATE as nat, 8);
            covers_fewer(self.rent, LARGEST_STATE as nat, 17);
            covers_fewer(self.rent, LARGEST_STATE as nat, 33);
            covers_fewer(self.rent, LARGEST_STATE as nat, 40);
            covers_fewer(self.rent, LARGEST_STATE as nat, 81);
        }
        if slot_hashes.is_none() {
            let data = Self::first_hashes_data(&history);
            proof {
                covers_fewer(self.rent, LARGEST_STATE as nat, data@.len());
            }
            self.seed_sysvar(accounts, self.addresses.slot_hashes, data);
        }
        let seed = CacheSeed::new(history, slot_hashes);
        let latest = seed.latest();
        let clock = Self::clock(&latest);
        self.seed_sysvar(accounts, self.addresses.clock, encode_clock(&clock));
        self.seed_sysvar(accounts, self.addresses.rent, self.rent.encode());
        self.seed_sysvar(accounts, self.addresses.fees, zero_bytes(8));
        self.seed_sysvar(accounts, self.addresses.last_restart_slot, zero_bytes(8));
        let none: Vec<u8> = Vec::new();
        assert(none@ =~= Seq::<u8>::empty());
        self.seed_sysvar(accounts, self.addresses.instructions, none);
        let schedule = epoch_schedule(self.superblock);
        self.seed_sysvar(accounts, self.addresses.epoch_schedule, encode_schedule(&schedule));
        self.seed_sysvar(accounts, self.addresses.epoch_rewards, zero_bytes(81));
        assert(seed_views(accounts@) =~= before + self.sysvar_seeds(blocks, stored));
        seed
    }

    /// The account that pays for new accounts.
    pub open spec fn sponsor_seed(self) -> SeedView {
        SeedView {
            pubkey: self.authority,
            lamports: SPONSOR_INIT_BALANCE,
            owner: self.addresses.system,
            mode: AccountMode::Magic,
            executable: false,
            data: Seq::empty(),
        }
    }

    /// All accounts that are stored before anything is served.
    pub open spec fn all_seeds(
        self,
        history: Seq<HistoryView>,
        stored: Option<Seq<SlotHash>>,
        sponsored: bool,
    ) -> Seq<SeedView> {
        self.feature_seeds(required_features().len()) + self.builtin_seeds(self.builtins@.len())
            + self.program_seeds(self.programs@.len()) + self.sysvar_seeds(history, stored)
            + self.sponsor_seeds(sponsored) + seed_views(self.accounts@)
    }

    /// The paying account, unless it exists.
    pub open spec fn sponsor_seeds(self, sponsored: bool) -> Seq<SeedView> {
        if sponsored {
            Seq::empty()
        } else {
            seq![self.sponsor_seed()]
        }
    }

    /// The slot hashes that the account holds, if it exists.
    pub open spec fn surveyed_hashes(self, stored: Option<AccountView>) -> Result<
        Option<Seq<SlotHash>>,
        KeeperError,
    > {
        match stored {
            None => Ok(None),
            Some(account) => match parse_slot_hashes(account.data) {
                Some(list) => Ok(Some(list)),
                None => Err(KeeperError::AccountsDB(AccountsDBError::Serde)),
            },
        }
    }

    /// Reads what startup rests on: the stored slot hashes, the blocks that the ledger retains,
    /// newest first, and whether the paying account exists.
    pub fn survey(&self, accountsdb: &mut AccountsDB, ledger: &Ledger) -> (result: Result<
        Survey,
        KeeperError,
    >)
        requires
            old(accountsdb).wf(),
            ledger.wf(),
        ensures
            final(accountsdb).wf(),
            final(accountsdb).same_accounts(*old(accountsdb)),
            ({
                let hashes = self.surveyed_hashes(
                    old(accountsdb).lookup(self.addresses.slot_hashes@),
                );
                let range = self.retained_slots(old(accountsdb).persisted.meta.slot);
                let blocks = read_retained(ledger@, range.0, range.1);
                match result {
                    Ok(survey) => {
                        &&& hashes == Ok::<Option<Seq<SlotHash>>, KeeperError>(
                            stored_hashes(survey.slot_hashes),
                        )
                        &&& blocks == Ok::<Seq<HistoryView>, LedgerError>(
                            history_views(survey.history@),
                        )
                        &&& survey.sponsored == (old(accountsdb).lookup(self.authority@) is Some)
                    },
                    Err(error) => match hashes {
                        Err(e) => error == e,
                        Ok(_) => blocks matches Err(e) && error == KeeperError::Ledger(e),
                    },
                }
            }),
    {
        let slot: Slot = accountsdb.slot();
        let slot_hashes = match accountsdb.loader().load(&self.addresses.slot_hashes) {
            Some(account) => match decode_slot_hashes(account.data.as_slice()) {
                Some(list) => Some(list),
                None => {
                    return Err(KeeperError::AccountsDB(AccountsDBError::Serde));
                },
            },
            None => None,
        };
        let range = self.retained_range(slot);
        let history = match retained_history(ledger, range.0, range.1) {
            Ok(history) => history,
            Err(error) => {
                return Err(KeeperError::Ledger(error));
            },
        };
        let sponsored = accountsdb.loader().load(&self.authority).is_some();
        Ok(Survey { slot_hashes, history, sponsored })
    }

    /// Seeds all accounts that are stored before anything is served, and says what the caches
    /// begin with. The paying account is seeded unless it exists. The plain accounts come last
    /// and are handed over.
    pub fn prepopulate(&mut self, survey: Survey) -> (seeded: (CacheSeed, Vec<AccountSeed>))
        requires
            old(self).wf(),
            latest_block(
                history_views(survey.history@),
                stored_hashes(survey.slot_hashes),
            ).slot < u64::MAX,
        ensures
            final(self).accounts@ == Seq::<AccountSeed>::empty(),
            *final(self) == (KeeperBuilder { accounts: final(self).accounts, ..*old(self) }),
            seed_views(seeded.1@) == old(self).all_seeds(
                history_views(survey.history@),
                stored_hashes(survey.slot_hashes),
                survey.sponsored,
            ),
            ({
                let blocks = history_views(survey.history@);
                let stored = stored_hashes(survey.slot_hashes);
                &&& seeded.0.latest == latest_block(blocks, stored)
                &&& seeded.0.hashes@ == crate::keeper::cache::known_hashes(
                    blocks,
                    stored,
                ).reverse()
                &&& seeded.0.history == survey.history
            }),
    {
        let ghost blocks = history_views(survey.history@);
        let ghost stored = stored_hashes(survey.slot_hashes);
        let ghost given = *self;
        let mut accounts: Vec<AccountSeed> = Vec::new();
        assert(seed_views(accounts@) =~= Seq::<SeedView>::empty());
        self.seed_featureset(&mut accounts);
        self.seed_programs(&mut accounts);
        let seed = self.seed_sysvars(survey.slot_hashes, survey.history, &mut accounts);
        let ghost list = accounts@;
        if !survey.sponsored {
            let sponsor = AccountSeed {
                pubkey: self.authority,
                lamports: SPONSOR_INIT_BALANCE,
                owner: self.addresses.system,
                mode: AccountMode::Magic,
                executable: false,
                data: Vec::new(),
            };
            accounts.push(sponsor);
            assert(sponsor@.data =~= Seq::<u8>::empty());
            assert(seed_views(accounts@) =~= seed_views(list).push(sponsor@));
        }
        let ghost runtime = accounts@;
        accounts.append(&mut self.accounts);
        assert(seed_views(accounts@) =~= seed_views(runtime) + seed_views(given.accounts@));
        assert(seed_views(accounts@) =~= given.all_seeds(blocks, stored, survey.sponsored));
        (seed, accounts)
    }

    /// Builds the caches. Signatures and block hashes live as long as the windows of time
    /// demand.
    pub fn caches(&self, seed: CacheSeed) -> (caches: Caches)
        requires
            seed.latest.slot + slots_of(BLOCK_CACHE_WINDOW, self.blocktime) <= u64::MAX,
            slots_fit(seed.hashes@, slots_of(BLOCK_CACHE_WINDOW, self.blocktime)),
            forall|i: int|
                0 <= i < seed.history@.len() ==> (#[trigger] seed.history@[i]).block.slot
                    + slots_of(SIGNATURE_CACHE_WINDOW, self.blocktime) <= u64::MAX,
        ensures
            caches.starts_as(
                seed,
                slots_of(BLOCK_CACHE_WINDOW, self.blocktime),
                slots_of(SIGNATURE_CACHE_WINDOW, self.blocktime),
                self.lru_capacity,
                !self.follower,
            ),
    {
        Caches::new(
            seed,
            ttl(BLOCK_CACHE_WINDOW, self.blocktime),
            ttl(SIGNATURE_CACHE_WINDOW, self.blocktime),
            self.lru_capacity,
            !self.follower,
        )
    }

    /// A keeper over opened account storage in which everything is seeded.
    pub fn build(self, accountsdb: AccountsDB, seed: CacheSeed) -> (keeper: Keeper)
        requires
            accountsdb.wf(),
            accountsdb.volatile.mirrors(),
            seed.latest.slot + slots_of(BLOCK_CACHE_WINDOW, self.blocktime) <= u64::MAX,
            slots_fit(seed.hashes@, slots_of(BLOCK_CACHE_WINDOW, self.blocktime)),
            forall|i: int|
                0 <= i < seed.history@.len() ==> (#[trigger] seed.history@[i]).block.slot
                    + slots_of(SIGNATURE_CACHE_WINDOW, self.blocktime) <= u64::MAX,
        ensures
            keeper.wf(),
            keeper.authority == self.authority,
            keeper.addresses == self.addresses,
            keeper.featureset@ == required_features(),
            keeper.rent == self.rent,
            keeper.accountsdb == accountsdb,
            keeper.subscriptions.silent(),
            keeper.caches.starts_as(
                seed,
                slots_of(BLOCK_CACHE_WINDOW, self.blocktime),
                slots_of(SIGNATURE_CACHE_WINDOW, self.blocktime),
                self.lru_capacity,
                !self.follower,
            ),
    {
        let caches = self.caches(seed);
        Keeper::new(self.authority, self.addresses, features(), self.rent, accountsdb, caches)
    }
}

proof fn same_additions(
    list: Seq<SlotHash>,
    some: Seq<SlotHash>,
    all: Seq<SlotHash>,
    n: nat,
)
    requires
        n <= all.len(),
        some == all.take(n as int),
    ensures
        slot_hashes_added(list, some, n) == slot_hashes_added(list, all, n),
    decreases n,
{
    same_first_additions(list, some, all, n);
}

proof fn same_first_additions(
    list: Seq<SlotHash>,
    some: Seq<SlotHash>,
    all: Seq<SlotHash>,
    n: nat,
)
    requires
        n <= some.len() <= all.len(),
        some == all.take(some.len() as int),
    ensures
        slot_hashes_added(list, some, n) == slot_hashes_added(list, all, n),
    decreases n,
{
    if n > 0 {
        same_first_additions(list, some, all, (n - 1) as nat);
        assert(some[n - 1] == all[n - 1]);
    }
}

/// Statuses of the first `n` signatures.
pub open spec fn statuses(view: LedgerView, signatures: Seq<Signature>, n: nat) -> Result<
    Seq<SignatureStatus>,
    LedgerError,
>
    decreases n,
{
    if n == 0 {
        Ok(Seq::empty())
    } else {
        match statuses(view, signatures, (n - 1) as nat) {
            Ok(list) => match read_status(view.superblocks, view.oldest(), signatures[n - 1]) {
                Ok(status) => Ok(
                    list.push(SignatureStatus { signature: signatures[n - 1], status }),
                ),
                Err(error) => Err(error),
            },
            Err(error) => Err(error),
        }
    }
}

/// Signatures of the transactions of a block.
pub open spec fn block_signatures(view: LedgerView, slot: Slot) -> Result<
    Seq<Signature>,
    LedgerError,
> {
    if slot == 0 || !(view.meta.range.start <= slot <= view.meta.range.end) {
        Ok(Seq::empty())
    } else {
        match read_block(
            view.superblocks,
            view.oldest(),
            BlockParams { slot, details: BlockDetails::Signatures },
            view.dictionary,
        ) {
            Ok(Some(BlockResponseView::WithSignatures(_, list))) => Ok(list),
            Ok(_) => Ok(Seq::empty()),
            Err(error) => Err(error),
        }
    }
}

/// A retained block with the statuses of its transactions.
pub open spec fn retained_block(view: LedgerView, block: Block) -> Result<
    HistoryView,
    LedgerError,
> {
    match block_signatures(view, block.slot) {
        Ok(list) => match statuses(view, list, list.len()) {
            Ok(signatures) => Ok(HistoryView { block, signatures }),
            Err(error) => Err(error),
        },
        Err(error) => Err(error),
    }
}

/// The first `n` of the blocks, with the statuses of their transactions.
pub open spec fn retained_blocks(view: LedgerView, blocks: Seq<Block>, n: nat) -> Result<
    Seq<HistoryView>,
    LedgerError,
>
    decreases n,
{
    if n == 0 {
        Ok(Seq::empty())
    } else {
        match retained_blocks(view, blocks, (n - 1) as nat) {
            Ok(list) => match retained_block(view, blocks[n - 1]) {
                Ok(entry) => Ok(list.push(entry)),
                Err(error) => Err(error),
            },
            Err(error) => Err(error),
        }
    }
}

/// Blocks with slots from `from` on and below `to`, newest first, with the statuses of their
/// transactions.
pub open spec fn read_retained(view: LedgerView, from: Slot, to: Slot) -> Result<
    Seq<HistoryView>,
    LedgerError,
> {
    match read_blocks(view.superblocks, view.oldest(), from as int, to as int, Seq::empty()) {
        Ok(blocks) => retained_blocks(view, blocks, blocks.len()),
        Err(error) => Err(error),
    }
}

fn retain_block(ledger: &Ledger, block: Block) -> (result: Result<HistoryEntry, LedgerError>)
    requires
        ledger.wf(),
    ensures
        match result {
            Ok(entry) => retained_block(ledger@, block) == Ok::<HistoryView, LedgerError>(entry@),
            Err(error) => retained_block(ledger@, block) == Err::<HistoryView, LedgerError>(error),
        },
{
    let mut list: Vec<Signature> = Vec::new();
    if block.slot > 0 {
        let params = BlockParams { slot: block.slot, details: BlockDetails::Signatures };
        match ledger.block(params) {
            Ok(Some(BlockResponse::WithSignatures(found))) => {
                list = found.signatures;
            },
            Ok(_) => {},
            Err(error) => {
                return Err(error);
            },
        }
    }
    assert(block_signatures(ledger@, block.slot) matches Ok(found) && found =~= list@);
    let mut signatures: Vec<SignatureStatus> = Vec::new();
    let mut i: usize = 0;
    assert(signatures@ =~= Seq::<SignatureStatus>::empty());
    while i < list.len()
        invariant
            i <= list@.len(),
            ledger.wf(),
            block_signatures(ledger@, block.slot) == Ok::<Seq<Signature>, LedgerError>(list@),
            statuses(ledger@, list@, i as nat) == Ok::<Seq<SignatureStatus>, LedgerError>(
                signatures@,
            ),
        decreases list@.len() - i,
    {
        match ledger.transaction_status(&list[i]) {
            Ok(status) => {
                signatures.push(SignatureStatus { signature: list[i], status });
            },
            Err(error) => {
                proof {
                    failed_statuses(ledger@, list@, (i + 1) as nat, list@.len(), error);
                }
                return Err(error);
            },
        }
        i += 1;
    }
    Ok(HistoryEntry { block, signatures })
}

proof fn failed_statuses(
    view: LedgerView,
    signatures: Seq<Signature>,
    n: nat,
    all: nat,
    error: LedgerError,
)
    requires
        n <= all,
        statuses(view, signatures, n) == Err::<Seq<SignatureStatus>, LedgerError>(error),
    ensures
        statuses(view, signatures, all) == Err::<Seq<SignatureStatus>, LedgerError>(error),
    decreases all,
{
    if n < all {
        failed_statuses(view, signatures, n, (all - 1) as nat, error);
    }
}

proof fn failed_blocks(
    view: LedgerView,
    blocks: Seq<Block>,
    n: nat,
    all: nat,
    error: LedgerError,
)
    requires
        n <= all,
        retained_blocks(view, blocks, n) == Err::<Seq<HistoryView>, LedgerError>(error),
    ensures
        retained_blocks(view, blocks, all) == Err::<Seq<HistoryView>, LedgerError>(error),
    decreases all,
{
    if n < all {
        failed_blocks(view, blocks, n, (all - 1) as nat, error);
    }
}

/// Reads the blocks with slots from `from` on and below `to`, newest first, with the statuses
/// of their transactions. A transaction that was not executed has no status.
pub fn retained_history(ledger: &Ledger, from: Slot, to: Slot) -> (result: Result<
    Vec<HistoryEntry>,
    LedgerError,
>)
    requires
        ledger.wf(),
    ensures
        match result {
            Ok(history) => read_retained(ledger@, from, to) == Ok::<Seq<HistoryView>, LedgerError>(
                history_views(history@),
            ),
            Err(error) => read_retained(ledger@, from, to) == Err::<Seq<HistoryView>, LedgerError>(
                error,
            ),
        },
{
    let found = match ledger.blocks(from, to) {
        Ok(found) => found,
        Err(error) => {
            return Err(error);
        },
    };
    let ghost blocks = found@.reverse();
    proof {
        let answer = read_blocks(
            ledger@.superblocks,
            ledger@.oldest(),
            from as int,
            to as int,
            Seq::empty(),
        );
        assert(answer matches Ok(list) && blocks =~= list);
    }
    let mut history: Vec<HistoryEntry> = Vec::new();
    let mut i: usize = found.len();
    assert(history_views(history@) =~= Seq::<HistoryView>::empty());
    while i > 0
        invariant
            i <= found@.len(),
            ledger.wf(),
            blocks == found@.reverse(),
            read_retained(ledger@, from, to) == retained_blocks(ledger@, blocks, blocks.len()),
            retained_blocks(ledger@, blocks, (found@.len() - i) as nat) == Ok::<
                Seq<HistoryView>,
                LedgerError,
            >(history_views(history@)),
        decreases i,
    {
        let ghost n = found@.len() - i;
        i -= 1;
        assert(blocks[n] == found@[i as int]);
        match retain_block(ledger, found[i]) {
            Ok(entry) => {
                let ghost list = history@;
                history.push(entry);
                assert(history_views(history@) =~= history_views(list).push(entry@));
            },
            Err(error) => {
                proof {
                    failed_blocks(ledger@, blocks, (n + 1) as nat, blocks.len(), error);
                }
                return Err(error);
            },
        }
    }
    Ok(history)
}

} // verus!
