//! Read-side caches: recent signatures, recent block hashes, and account recency.

use ahash::RandomState;
use vstd::prelude::*;

use crate::keeper::expiring::{
    has_key, hash_key, key_of_hash, key_of_signature, pushed, signature_key, ExpiringCache,
    ExpiringRecord,
};
use crate::ledger::request::TransactionStatus;
use crate::types::{AccountMode, Block, BlockHash, Pubkey, Signature, Slot};

verus! {

/// Signature of a retained transaction, and its status if the transaction was executed.
#[derive(Clone, Copy, Debug, PartialEq, Eq)]
pub struct SignatureStatus {
    /// The signature.
    pub signature: Signature,
    /// The status.
    pub status: Option<TransactionStatus>,
}

/// Retained block with the signatures of its transactions.
#[derive(Debug)]
pub struct HistoryEntry {
    /// The block.
    pub block: Block,
    /// The signatures, in order.
    pub signatures: Vec<SignatureStatus>,
}

/// What a retained block holds.
pub struct HistoryView {
    pub block: Block,
    pub signatures: Seq<SignatureStatus>,
}

impl View for HistoryEntry {
    type V = HistoryView;

    open spec fn view(&self) -> HistoryView {
        HistoryView { block: self.block, signatures: self.signatures@ }
    }
}

/// What several retained blocks hold.
pub open spec fn history_views(history: Seq<HistoryEntry>) -> Seq<HistoryView> {
    history.map_values(|entry: HistoryEntry| entry@)
}

/// Slots and hashes of retained blocks.
pub open spec fn history_hashes(history: Seq<HistoryView>) -> Seq<(Slot, BlockHash)> {
    history.map_values(|entry: HistoryView| (entry.block.slot, entry.block.hash))
}

/// A hash of zeros.
pub open spec fn zero_hash() -> BlockHash {
    choose|hash: BlockHash| hash@ == Seq::new(32, |i: int| 0u8)
}

/// The block before the first one.
pub open spec fn genesis_block() -> Block {
    Block { slot: 0, hash: zero_hash(), time: 0, parent: zero_hash() }
}

/// A hash of zeros.
pub fn no_hash() -> (hash: BlockHash)
    ensures
        hash == zero_hash(),
{
    let hash: [u8; 32] = [0u8; 32];
    assert(hash@ =~= Seq::new(32, |i: int| 0u8));
    assert(zero_hash()@ == hash@);
    assert(hash =~= zero_hash());
    hash
}

/// The stored slot hashes, if there are any.
pub open spec fn stored_hashes(list: Option<Vec<(Slot, BlockHash)>>) -> Option<
    Seq<(Slot, BlockHash)>,
> {
    match list {
        Some(hashes) => Some(hashes@),
        None => None,
    }
}

/// All known hashes, newest first: those of the stored slot hashes, and those of blocks that
/// go further back.
pub open spec fn known_hashes(
    history: Seq<HistoryView>,
    slot_hashes: Option<Seq<(Slot, BlockHash)>>,
) -> Seq<(Slot, BlockHash)> {
    match slot_hashes {
        None => history_hashes(history),
        Some(stored) => if stored.len() < history.len() {
            stored + history_hashes(history).skip(stored.len() as int)
        } else {
            stored
        },
    }
}

/// The latest block at startup. Stored slot hashes decide; the ledger adds the time.
pub open spec fn latest_block(
    history: Seq<HistoryView>,
    slot_hashes: Option<Seq<(Slot, BlockHash)>>,
) -> Block {
    let hashes = known_hashes(history, slot_hashes);
    match slot_hashes {
        None => if history.len() > 0 {
            history[0].block
        } else {
            genesis_block()
        },
        Some(_) => if hashes.len() > 0 {
            Block {
                slot: hashes[0].0,
                hash: hashes[0].1,
                time: if history.len() > 0 {
                    history[0].block.time
                } else {
                    0
                },
                parent: if hashes.len() > 1 {
                    hashes[1].1
                } else {
                    zero_hash()
                },
            }
        } else {
            genesis_block()
        },
    }
}

/// Blocks and signatures that the caches begin with.
pub struct CacheSeed {
    /// Latest block.
    pub latest: Block,
    /// Known slots and hashes, oldest first.
    pub hashes: Vec<(Slot, BlockHash)>,
    /// Retained blocks, newest first.
    pub history: Vec<HistoryEntry>,
}

impl CacheSeed {
    /// Reconciles retained blocks, newest first, with the stored slot hashes, newest first.
    pub fn new(
        history: Vec<HistoryEntry>,
        slot_hashes: Option<Vec<(Slot, BlockHash)>>,
    ) -> (seed: CacheSeed)
        ensures
            ({
                let blocks = history_views(history@);
                let stored = stored_hashes(slot_hashes);
                &&& seed.latest == latest_block(blocks, stored)
                &&& seed.hashes@ == known_hashes(blocks, stored).reverse()
                &&& seed.history == history
            }),
    {
        let ghost blocks = history_views(history@);
        let ghost stored = stored_hashes(slot_hashes);
        let anchored = slot_hashes.is_some();
        let mut all: Vec<(Slot, BlockHash)> = match slot_hashes {
            Some(list) => list,
            None => Vec::new(),
        };
        let ghost front = all@;
        let mut i: usize = all.len();
        assert(all@ =~= front + history_hashes(blocks).skip(i as int).take(0));
        while i < history.len()
            invariant
                front.len() <= i,
                blocks == history_views(history@),
                i <= history@.len() || i == front.len(),
                all@.len() == i,
                forall|k: int| 0 <= k < front.len() ==> all@[k] == front[k],
                forall|k: int|
                    front.len() <= k < i ==> all@[k] == (
                        blocks[k].block.slot,
                        blocks[k].block.hash,
                    ),
            decreases history@.len() - i,
        {
            assert(blocks[i as int] == history@[i as int]@);
            all.push((history[i].block.slot, history[i].block.hash));
            i += 1;
        }
        assert(all@ =~= known_hashes(blocks, stored));
        let latest = if anchored {
            if all.len() > 0 {
                Block {
                    slot: all[0].0,
                    hash: all[0].1,
                    time: if history.len() > 0 {
                        history[0].block.time
                    } else {
                        0
                    },
                    parent: if all.len() > 1 {
                        all[1].1
                    } else {
                        no_hash()
                    },
                }
            } else {
                Block { slot: 0, hash: no_hash(), time: 0, parent: no_hash() }
            }
        } else if history.len() > 0 {
            history[0].block
        } else {
            Block { slot: 0, hash: no_hash(), time: 0, parent: no_hash() }
        };
        let mut hashes: Vec<(Slot, BlockHash)> = Vec::new();
        let mut k: usize = all.len();
        while k > 0
            invariant
                k <= all@.len(),
                hashes@.len() == all@.len() - k,
                forall|j: int| 0 <= j < hashes@.len() ==> hashes@[j] == all@[all@.len() - 1 - j],
            decreases k,
        {
            k -= 1;
            hashes.push((all[k].0, all[k].1));
        }
        assert(hashes@ =~= all@.reverse());
        CacheSeed { latest, hashes, history }
    }

    /// Latest block.
    pub fn latest(&self) -> (latest: Block)
        ensures
            latest == self.latest,
    {
        self.latest
    }
}

/// Latest block and recent block hashes.
pub struct BlocksCache {
    /// Latest block.
    pub latest: Block,
    /// Slots by block hash.
    pub history: ExpiringCache<Slot>,
}

/// Records after the first `n` hashes were pushed.
pub open spec fn pushed_hashes(
    records: Seq<ExpiringRecord<Slot>>,
    hashes: Seq<(Slot, BlockHash)>,
    ttl: Slot,
    n: nat,
) -> Seq<ExpiringRecord<Slot>>
    decreases n,
{
    if n == 0 {
        records
    } else {
        let (slot, hash) = hashes[n - 1];
        pushed(
            pushed_hashes(records, hashes, ttl, (n - 1) as nat),
            hash_key(hash),
            slot,
            slot,
            ttl,
        )
    }
}

/// Every slot can be added to `ttl`.
pub open spec fn slots_fit(hashes: Seq<(Slot, BlockHash)>, ttl: Slot) -> bool {
    forall|i: int| 0 <= i < hashes.len() ==> (#[trigger] hashes[i]).0 + ttl <= u64::MAX
}

impl BlocksCache {
    /// A cache that begins with known hashes, oldest first, or with the latest block if none
    /// are given.
    pub fn new(latest: Block, history: &Vec<(Slot, BlockHash)>, ttl: Slot) -> (cache: BlocksCache)
        requires
            latest.slot + ttl <= u64::MAX,
            slots_fit(history@, ttl),
        ensures
            cache.history.wf(),
            cache.latest == latest,
            cache.history.ttl == ttl,
            cache.history.queue@ == if history@.len() == 0 {
                pushed(Seq::empty(), hash_key(latest.hash), latest.slot, latest.slot, ttl)
            } else {
                pushed_hashes(Seq::empty(), history@, ttl, history@.len())
            },
    {
        let mut cache: ExpiringCache<Slot> = ExpiringCache::new(ttl);
        if history.len() == 0 {
            let _ = cache.push(key_of_hash(&latest.hash), latest.slot, latest.slot);
        } else {
            let mut i: usize = 0;
            while i < history.len()
                invariant
                    cache.wf(),
                    cache.ttl == ttl,
                    i <= history@.len(),
                    slots_fit(history@, ttl),
                    cache.queue@ == pushed_hashes(Seq::empty(), history@, ttl, i as nat),
                decreases history@.len() - i,
            {
                let (slot, hash) = (history[i].0, history[i].1);
                assert(history@[i as int].0 + ttl <= u64::MAX);
                let _ = cache.push(key_of_hash(&hash), slot, slot);
                i += 1;
            }
        }
        BlocksCache { latest, history: cache }
    }

    /// Makes `block` the latest one and adds its hash.
    pub fn push(&mut self, block: Block)
        requires
            old(self).history.wf(),
            block.slot + old(self).history.ttl <= u64::MAX,
        ensures
            final(self).history.wf(),
            final(self).latest == block,
            final(self).history.ttl == old(self).history.ttl,
            final(self).history.queue@ == pushed(
                old(self).history.queue@,
                hash_key(block.hash),
                block.slot,
                block.slot,
                old(self).history.ttl,
            ),
    {
        self.latest = block;
        let _ = self.history.push(key_of_hash(&block.hash), block.slot, block.slot);
    }

    /// Whether a hash is among the recent ones.
    pub fn is_valid(&self, hash: &BlockHash) -> (valid: bool)
        requires
            self.history.wf(),
        ensures
            valid == has_key(self.history.queue@, hash_key(*hash)),
    {
        self.history.contains(&key_of_hash(hash))
    }
}

/// Signatures of retained blocks, oldest block first, as they are pushed.
pub open spec fn pushed_block(
    records: Seq<ExpiringRecord<Option<TransactionStatus>>>,
    entry: HistoryView,
    ttl: Slot,
    n: nat,
) -> Seq<ExpiringRecord<Option<TransactionStatus>>>
    decreases n,
{
    if n == 0 {
        records
    } else {
        let item = entry.signatures[n - 1];
        pushed(
            pushed_block(records, entry, ttl, (n - 1) as nat),
            signature_key(item.signature),
            item.status,
            entry.block.slot,
            ttl,
        )
    }
}

/// Records after the signatures of the blocks from `i` on were pushed, the last one first.
pub open spec fn pushed_history(history: Seq<HistoryView>, ttl: Slot, i: int) -> Seq<
    ExpiringRecord<Option<TransactionStatus>>,
>
    decreases history.len() - i,
{
    if i < 0 || i >= history.len() {
        Seq::empty()
    } else {
        pushed_block(
            pushed_history(history, ttl, i + 1),
            history[i],
            ttl,
            history[i].signatures.len(),
        )
    }
}

/// Caches of recent signatures, blocks, and accounts.
pub struct Caches {
    /// Statuses by signature; a status is absent until its transaction was executed.
    pub signatures: ExpiringCache<Option<TransactionStatus>>,
    /// Recent blocks.
    pub blocks: BlocksCache,
    /// Account recency, and who is allowed to change an account.
    pub accounts: AccountCache,
}

impl Caches {
    /// Well-formed parts.
    pub open spec fn wf(self) -> bool {
        self.signatures.wf() && self.blocks.history.wf()
    }

    /// What caches hold that begin with what is known at startup.
    pub open spec fn starts_as(
        self,
        seed: CacheSeed,
        block_ttl: Slot,
        signature_ttl: Slot,
        account_capacity: usize,
        leader: bool,
    ) -> bool {
        &&& self.wf()
        &&& self.accounts.recent() == Set::<Seq<u8>>::empty()
        &&& self.accounts.held() == Set::<Seq<u8>>::empty()
        &&& recent_limit(self.accounts.lru) == account_capacity
        &&& self.blocks.latest == seed.latest
        &&& self.blocks.history.ttl == block_ttl
        &&& self.signatures.ttl == signature_ttl
        &&& self.blocks.history.queue@ == if leader || seed.hashes@.len() == 0 {
            pushed(
                Seq::empty(),
                hash_key(seed.latest.hash),
                seed.latest.slot,
                seed.latest.slot,
                block_ttl,
            )
        } else {
            pushed_hashes(Seq::empty(), seed.hashes@, block_ttl, seed.hashes@.len())
        }
        &&& self.signatures.queue@ == pushed_history(
            history_views(seed.history@),
            signature_ttl,
            0,
        )
    }

    /// Caches that begin with what is known at startup. A leader accepts the latest block
    /// hash alone; a follower accepts every known one.
    pub fn new(
        seed: CacheSeed,
        block_ttl: Slot,
        signature_ttl: Slot,
        account_capacity: usize,
        leader: bool,
    ) -> (caches: Caches)
        requires
            seed.latest.slot + block_ttl <= u64::MAX,
            slots_fit(seed.hashes@, block_ttl),
            forall|i: int|
                0 <= i < seed.history@.len() ==> (#[trigger] seed.history@[i]).block.slot
                    + signature_ttl <= u64::MAX,
        ensures
            caches.starts_as(seed, block_ttl, signature_ttl, account_capacity, leader),
    {
        let blocks = if leader {
            BlocksCache::new(seed.latest, &Vec::new(), block_ttl)
        } else {
            BlocksCache::new(seed.latest, &seed.hashes, block_ttl)
        };
        let ghost history = history_views(seed.history@);
        let mut signatures: ExpiringCache<Option<TransactionStatus>> = ExpiringCache::new(
            signature_ttl,
        );
        let mut i: usize = seed.history.len();
        while i > 0
            invariant
                i <= seed.history@.len(),
                history == history_views(seed.history@),
                signatures.wf(),
                signatures.ttl == signature_ttl,
                signatures.queue@ == pushed_history(history, signature_ttl, i as int),
                forall|k: int|
                    0 <= k < seed.history@.len() ==> (#[trigger] seed.history@[k]).block.slot
                        + signature_ttl <= u64::MAX,
            decreases i,
        {
            i -= 1;
            let entry = &seed.history[i];
            assert(history[i as int] == entry@);
            assert(seed.history@[i as int].block.slot + signature_ttl <= u64::MAX);
            let mut k: usize = 0;
            while k < entry.signatures.len()
                invariant
                    k <= entry.signatures@.len(),
                    signatures.wf(),
                    signatures.ttl == signature_ttl,
                    entry.block.slot + signature_ttl <= u64::MAX,
                    signatures.queue@ == pushed_block(
                        pushed_history(history, signature_ttl, i + 1),
                        entry@,
                        signature_ttl,
                        k as nat,
                    ),
                decreases entry.signatures@.len() - k,
            {
                let item = entry.signatures[k];
                let _ = signatures.push(
                    key_of_signature(&item.signature),
                    item.status,
                    entry.block.slot,
                );
                k += 1;
            }
        }
        Caches { signatures, blocks, accounts: AccountCache::new(account_capacity) }
    }
}

/// A leader that has just started accepts exactly the latest block hash.
pub proof fn leader_accepts_the_latest_hash(latest: Block, ttl: Slot, hash: BlockHash)
    ensures
        has_key(
            pushed(
                Seq::<ExpiringRecord<Slot>>::empty(),
                hash_key(latest.hash),
                latest.slot,
                latest.slot,
                ttl,
            ),
            hash_key(hash),
        ) <==> hash == latest.hash,
{
    let none = Seq::<ExpiringRecord<Slot>>::empty();
    let records = pushed(none, hash_key(latest.hash), latest.slot, latest.slot, ttl);
    assert(crate::keeper::expiring::swept(
        none,
        latest.slot,
        crate::keeper::expiring::EVICTION_LIMIT as nat,
    ) == none);
    assert(records.len() == 1 && records[0].key == hash_key(latest.hash));
    crate::keeper::expiring::hash_keys_identify(hash, latest.hash);
    if has_key(records, hash_key(hash)) {
        let i = choose|i: int| 0 <= i < records.len() && (#[trigger] records[i]).key == hash_key(hash);
    }
    if hash == latest.hash {
        assert(records[0].key == hash_key(hash));
    }
}

/// Concurrent cache of recently loaded accounts.
pub type RecencyMap = scc::HashCache<Pubkey, (), RandomState>;

/// Keys that an `scc::HashCache` of accounts holds.
pub uninterp spec fn recent_keys(cache: RecencyMap) -> Set<Seq<u8>>;

/// How many keys an `scc::HashCache` of accounts was asked to hold at most when it was made. The
/// cache rounds this up to a power of two, and each of its buckets evicts for itself.
pub uninterp spec fn recent_limit(cache: RecencyMap) -> usize;

/// An empty cache with room for `minimum` keys at first and `maximum` keys at most, by
/// `scc::HashCache::with_capacity_and_hasher`.
#[verifier::external_body]
fn recency_new(minimum: usize, maximum: usize) -> (cache: RecencyMap)
    requires
        minimum <= 65536,
    ensures
        recent_keys(cache) == Set::<Seq<u8>>::empty(),
        recent_limit(cache) == maximum,
{
    scc::HashCache::with_capacity_and_hasher(minimum, maximum, RandomState::default())
}

/// Adds a key that is not there, by `scc::HashCache::put_sync`, and returns the key that had
/// to leave for it. Which key leaves, and when, depends on how the keys are hashed.
#[verifier::external_body]
fn recency_put(cache: &mut RecencyMap, key: Pubkey) -> (evicted: Option<Pubkey>)
    ensures
        recent_keys(*final(cache)).contains(key@),
        evicted is None ==> recent_keys(*final(cache)) == recent_keys(*old(cache)).insert(key@),
        evicted matches Some(e) ==> recent_keys(*old(cache)).contains(e@) && e@ != key@
            && recent_keys(*final(cache)) == recent_keys(*old(cache)).remove(e@).insert(key@),
        recent_keys(*old(cache)).contains(key@) ==> evicted is None,
        recent_limit(*final(cache)) == recent_limit(*old(cache)),
{
    cache.put_sync(key, ()).ok().flatten().map(|(evicted, _)| evicted)
}

/// Marks a key as recently used if it is there, by `scc::HashCache::get_sync`.
#[verifier::external_body]
fn recency_promote(cache: &mut RecencyMap, key: &Pubkey) -> (found: bool)
    ensures
        found == recent_keys(*old(cache)).contains(key@),
        recent_keys(*final(cache)) == recent_keys(*old(cache)),
        recent_limit(*final(cache)) == recent_limit(*old(cache)),
{
    cache.get_sync(key).is_some()
}

/// Removes a key, by `scc::HashCache::remove_sync`.
#[verifier::external_body]
fn recency_remove(cache: &mut RecencyMap, key: &Pubkey)
    ensures
        recent_keys(*final(cache)) == recent_keys(*old(cache)).remove(key@),
        recent_limit(*final(cache)) == recent_limit(*old(cache)),
{
    cache.remove_sync(key);
}

/// Whether a key is there, by `scc::HashCache::contains_sync`.
#[verifier::external_body]
fn recency_contains(cache: &RecencyMap, key: &Pubkey) -> (found: bool)
    ensures
        found == recent_keys(*cache).contains(key@),
{
    cache.contains_sync(key)
}

/// Accounts that someone is loading or changing.
pub type ReservationMap = scc::HashMap<Pubkey, (), RandomState>;

/// Keys that an `scc::HashMap` of reservations holds.
pub uninterp spec fn reserved_keys(map: ReservationMap) -> Set<Seq<u8>>;

/// An empty map, by `scc::HashMap::default`.
#[verifier::external_body]
fn reservations_new() -> (map: ReservationMap)
    ensures
        reserved_keys(map) == Set::<Seq<u8>>::empty(),
{
    scc::HashMap::default()
}

/// Adds a key, by `scc::HashMap::insert_sync`, and says whether it was not there.
#[verifier::external_body]
fn reservations_insert(map: &mut ReservationMap, key: Pubkey) -> (inserted: bool)
    ensures
        inserted == !reserved_keys(*old(map)).contains(key@),
        reserved_keys(*final(map)) == reserved_keys(*old(map)).insert(key@),
{
    map.insert_sync(key, ()).is_ok()
}

/// Removes a key, by `scc::HashMap::remove_sync`, and says whether it was there.
#[verifier::external_body]
fn reservations_remove(map: &mut ReservationMap, key: &Pubkey) -> (removed: bool)
    ensures
        removed == reserved_keys(*old(map)).contains(key@),
        reserved_keys(*final(map)) == reserved_keys(*old(map)).remove(key@),
{
    map.remove_sync(key).is_some()
}

/// Room for accounts at first.
pub const RECENCY_CAPACITY: usize = 256;

/// Account recency, and who is allowed to change an account.
pub struct AccountCache {
    /// Accounts that were loaded recently and that the engine does not decide about.
    pub lru: RecencyMap,
    /// Accounts that someone is loading or changing.
    pub reservations: ReservationMap,
}

/// Right to load one account.
#[derive(Debug)]
pub struct AccountLoad {
    /// The account.
    pub pubkey: Pubkey,
}

/// An account that someone else is loading.
#[derive(Debug)]
pub struct AccountWait {
    /// The account.
    pub pubkey: Pubkey,
}

/// What those who wait for an account are told.
#[derive(Clone, Copy, Debug, PartialEq, Eq, Structural)]
pub enum Wakeup {
    /// The account was loaded.
    Loaded,
    /// The load was given up.
    Abandoned,
}

/// What is to be done about a missing account.
#[derive(Debug)]
pub enum MissingAccount {
    /// The caller loads it.
    Load(AccountLoad),
    /// The caller waits for someone else.
    Wait(AccountWait),
}

/// Right to change one account.
#[derive(Debug)]
pub struct AccountLease {
    /// The account.
    pub pubkey: Pubkey,
    /// Mode and remote slot that the account had when the right was granted, if it existed.
    pub observed: Option<(AccountMode, Slot)>,
}

impl AccountLease {
    /// Whether the account existed when the right was granted.
    pub fn is_present(&self) -> (yes: bool)
        ensures
            yes == (self.observed is Some),
    {
        self.observed.is_some()
    }

    /// Whether the account existed and the engine does not decide about it.
    pub fn evictable(&self) -> (yes: bool)
        ensures
            yes == (self.observed matches Some((mode, _)) && !mode.is_authoritative()),
    {
        match self.observed {
            Some((mode, _)) => !mode.authoritative(),
            None => false,
        }
    }

    /// The mode that the account keeps if an image is not to be applied: one that is older
    /// than the account, or that has its slot and mode.
    pub fn skipped(&self, mode: AccountMode, slot: Slot) -> (kept: Option<AccountMode>)
        ensures
            kept == match self.observed {
                Some((local, at)) => if slot < at || (slot == at && mode == local) {
                    Some(local)
                } else {
                    None
                },
                None => None,
            },
    {
        match self.observed {
            Some((local, at)) => if slot < at || (slot == at && mode == local) {
                Some(local)
            } else {
                None
            },
            None => None,
        }
    }
}

impl AccountLoad {
    /// Ends the load, and says what those who wait are told and which account has to leave. An
    /// account that the engine does not decide about counts as recent from now on.
    pub fn complete(self, cache: &mut AccountCache, mode: AccountMode) -> (outcome: (
        Option<Wakeup>,
        Option<Pubkey>,
    ))
        ensures
            final(cache).held() == old(cache).held().remove(self.pubkey@),
            recent_limit(final(cache).lru) == recent_limit(old(cache).lru),
            outcome.0 == if old(cache).held().contains(self.pubkey@) {
                Some(Wakeup::Loaded)
            } else {
                None
            },
            if old(cache).held().contains(self.pubkey@) && !mode.is_authoritative() {
                admits(old(cache).recent(), self.pubkey, outcome.1, final(cache).recent())
            } else {
                outcome.1 is None && final(cache).recent() == old(cache).recent()
            },
    {
        if !reservations_remove(&mut cache.reservations, &self.pubkey) {
            return (None, None);
        }
        if mode.authoritative() {
            return (Some(Wakeup::Loaded), None);
        }
        (Some(Wakeup::Loaded), recency_put(&mut cache.lru, self.pubkey))
    }
}

impl AccountWait {
    /// The account that was waited for, and whether it was loaded.
    pub fn wait(self, wakeup: Wakeup) -> (outcome: (Pubkey, bool))
        ensures
            outcome.0 == self.pubkey,
            outcome.1 == (wakeup is Loaded),
    {
        match wakeup {
            Wakeup::Loaded => (self.pubkey, true),
            Wakeup::Abandoned => (self.pubkey, false),
        }
    }
}

impl AccountCache {
    /// Accounts that were loaded recently.
    pub open spec fn recent(self) -> Set<Seq<u8>> {
        recent_keys(self.lru)
    }

    /// Accounts that someone is loading or changing.
    pub open spec fn held(self) -> Set<Seq<u8>> {
        reserved_keys(self.reservations)
    }

    /// An empty cache.
    pub fn new(capacity: usize) -> (cache: AccountCache)
        ensures
            cache.recent() == Set::<Seq<u8>>::empty(),
            cache.held() == Set::<Seq<u8>>::empty(),
            recent_limit(cache.lru) == capacity,
    {
        AccountCache {
            lru: recency_new(RECENCY_CAPACITY, capacity),
            reservations: reservations_new(),
        }
    }

    /// Marks an account as recently used if it was loaded before.
    pub fn promote(&mut self, pubkey: &Pubkey) -> (found: bool)
        ensures
            final(self).recent() == old(self).recent(),
            recent_limit(final(self).lru) == recent_limit(old(self).lru),
            final(self).reservations == old(self).reservations,
            found == old(self).recent().contains(pubkey@),
    {
        recency_promote(&mut self.lru, pubkey)
    }

    /// Lets one caller load a missing account and all others wait.
    pub fn reserve(&mut self, pubkey: Pubkey) -> (missing: MissingAccount)
        ensures
            final(self).lru == old(self).lru,
            final(self).held() == old(self).held().insert(pubkey@),
            match missing {
                MissingAccount::Load(load) => load.pubkey == pubkey && !old(self).held().contains(
                    pubkey@,
                ),
                MissingAccount::Wait(wait) => wait.pubkey == pubkey && old(self).held().contains(
                    pubkey@,
                ),
            },
    {
        if reservations_insert(&mut self.reservations, pubkey) {
            MissingAccount::Load(AccountLoad { pubkey })
        } else {
            MissingAccount::Wait(AccountWait { pubkey })
        }
    }

    /// Gives a load up, and says what those who wait are told.
    pub fn cancel(&mut self, load: AccountLoad) -> (wakeup: Option<Wakeup>)
        ensures
            final(self).lru == old(self).lru,
            final(self).held() == old(self).held().remove(load.pubkey@),
            wakeup == if old(self).held().contains(load.pubkey@) {
                Some(Wakeup::Abandoned)
            } else {
                None
            },
    {
        if reservations_remove(&mut self.reservations, &load.pubkey) {
            Some(Wakeup::Abandoned)
        } else {
            None
        }
    }

    /// Grants the right to change an account, given its mode and remote slot if it exists, or
    /// `None` if someone else has it.
    pub fn lock(&mut self, pubkey: Pubkey, observed: Option<(AccountMode, Slot)>) -> (lease: Option<
        AccountLease,
    >)
        ensures
            final(self).lru == old(self).lru,
            final(self).held() == old(self).held().insert(pubkey@),
            match lease {
                Some(l) => l.pubkey == pubkey && l.observed == observed
                    && !old(self).held().contains(pubkey@),
                None => old(self).held().contains(pubkey@),
            },
    {
        if reservations_insert(&mut self.reservations, pubkey) {
            Some(AccountLease { pubkey, observed })
        } else {
            None
        }
    }

    /// Gives the right to change an account back.
    pub fn release(&mut self, lease: AccountLease)
        ensures
            final(self).lru == old(self).lru,
            final(self).held() == old(self).held().remove(lease.pubkey@),
    {
        let _ = reservations_remove(&mut self.reservations, &lease.pubkey);
    }

    /// Records that an account was written, and says which account has to leave. One that the
    /// engine does not decide about counts as recent from now on; any other one does not.
    pub fn materialized(&mut self, lease: &AccountLease, mode: AccountMode) -> (evicted: Option<
        Pubkey,
    >)
        ensures
            final(self).reservations == old(self).reservations,
            recent_limit(final(self).lru) == recent_limit(old(self).lru),
            mode.is_authoritative() ==> evicted is None && final(self).recent()
                == old(self).recent().remove(lease.pubkey@),
            !mode.is_authoritative() ==> admits(
                old(self).recent(),
                lease.pubkey,
                evicted,
                final(self).recent(),
            ),
    {
        if mode.authoritative() {
            recency_remove(&mut self.lru, &lease.pubkey);
            return None;
        }
        recency_put(&mut self.lru, lease.pubkey)
    }

    /// Records that an account was deleted.
    pub fn deleted(&mut self, lease: &AccountLease)
        ensures
            final(self).reservations == old(self).reservations,
            recent_limit(final(self).lru) == recent_limit(old(self).lru),
            final(self).recent() == old(self).recent().remove(lease.pubkey@),
    {
        recency_remove(&mut self.lru, &lease.pubkey);
    }

    /// Whether an account that had to leave is still to be evicted: it exists, the engine
    /// does not decide about it, and it was not loaded again.
    pub fn cached_eviction_applies(&self, lease: &AccountLease) -> (yes: bool)
        ensures
            yes == ((lease.observed matches Some((mode, _)) && !mode.is_authoritative())
                && !self.recent().contains(lease.pubkey@)),
    {
        lease.evictable() && !recency_contains(&self.lru, &lease.pubkey)
    }
}

/// `key` becomes recent, and `evicted` leaves for it.
pub open spec fn admits(
    before: Set<Seq<u8>>,
    key: Pubkey,
    evicted: Option<Pubkey>,
    after: Set<Seq<u8>>,
) -> bool {
    &&& after.contains(key@)
    &&& before.contains(key@) ==> evicted is None
    &&& match evicted {
        Some(e) => before.contains(e@) && e@ != key@ && after == before.remove(e@).insert(key@),
        None => after == before.insert(key@),
    }
}

} // verus!
