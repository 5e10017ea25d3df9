//! Runtime state that lives in accounts: slot hashes, the clock, the epoch schedule, and rent.

use solana_hash::Hash as OutsideHash;
use solana_slot_hashes::SlotHashes;
use vstd::prelude::*;

use crate::accountsdb::AccountsDBError;
use crate::bytes::{bytes_eq, le_bytes, le_bytes_spell, u64_to_le, widths};
use crate::ledger::codec::{
    array32, bits_of_time, read_hash, read_u64, time_bits, time_of_bits, time_roundtrip, wide_at,
};
use crate::types::{BlockHash, Slot};

verus! {

/// Slot and hash of a block.
pub type SlotHash = (Slot, BlockHash);

/// Hashes that the slot hashes hold at most.
pub const SLOTHASH_ENTRIES: usize = 512;

/// Slot hashes after one was added.
pub uninterp spec fn slot_hash_added(list: Seq<SlotHash>, slot: Slot, hash: BlockHash) -> Seq<
    SlotHash,
>;

/// Slots do not ascend.
pub open spec fn newest_first(list: Seq<SlotHash>) -> bool {
    forall|i: int, j: int| 0 <= i < j < list.len() ==> (#[trigger] list[i]).0 >= (#[trigger] list[j]).0
}

/// A list, cut at the greatest length of slot hashes.
pub open spec fn cut(list: Seq<SlotHash>) -> Seq<SlotHash> {
    if list.len() <= SLOTHASH_ENTRIES {
        list
    } else {
        list.take(SLOTHASH_ENTRIES as int)
    }
}

/// `added` is `list` with a hash at position `at`: in the place of another hash of its slot, or
/// between newer and older ones.
pub open spec fn placed_at(
    list: Seq<SlotHash>,
    slot: Slot,
    hash: BlockHash,
    added: Seq<SlotHash>,
    at: int,
) -> bool {
    if exists|i: int| 0 <= i < list.len() && (#[trigger] list[i]).0 == slot {
        0 <= at < list.len() && list[at].0 == slot && added == cut(list.update(at, (slot, hash)))
    } else {
        &&& 0 <= at <= list.len()
        &&& forall|i: int| 0 <= i < at ==> (#[trigger] list[i]).0 > slot
        &&& forall|i: int| at <= i < list.len() ==> (#[trigger] list[i]).0 < slot
        &&& added == cut(list.insert(at, (slot, hash)))
    }
}

/// Adds a hash to a list that begins with the newest slot, by
/// `solana_slot_hashes::SlotHashes::add`: in the place of a hash of its slot if there is one,
/// else between newer and older ones; the list is cut at its greatest length. Which of several
/// hashes of its slot is replaced, and what becomes of a list whose slots ascend somewhere, is
/// not said. The greatest length is the one that the outside crate starts with, and only a
/// setter that it has for tests changes it; nothing here calls that setter.
#[verifier::external_body]
fn add_slot_hash(list: Vec<SlotHash>, slot: Slot, hash: BlockHash) -> (added: Vec<SlotHash>)
    ensures
        added@ == slot_hash_added(list@, slot, hash),
        newest_first(list@) ==> exists|at: int| placed_at(list@, slot, hash, added@, at),
        added@.len() <= SLOTHASH_ENTRIES,
{
    let outside = |(slot, hash): SlotHash| (slot, OutsideHash::new_from_array(hash));
    let mut hashes: SlotHashes = list.into_iter().map(outside).collect();
    hashes.add(slot, OutsideHash::new_from_array(hash));
    hashes.slot_hashes().iter().map(|entry| (entry.slot, entry.hash.to_bytes())).collect()
}

/// Slot hashes after the blocks in `blocks` were added, the first one first.
pub open spec fn slot_hashes_added(list: Seq<SlotHash>, blocks: Seq<SlotHash>, n: nat) -> Seq<
    SlotHash,
>
    decreases n,
{
    if n == 0 {
        list
    } else {
        slot_hash_added(
            slot_hashes_added(list, blocks, (n - 1) as nat),
            blocks[n - 1].0,
            blocks[n - 1].1,
        )
    }
}

/// Adds blocks to the slot hashes, the first one first.
pub fn add_slot_hashes(list: Vec<SlotHash>, blocks: &Vec<SlotHash>) -> (added: Vec<SlotHash>)
    ensures
        added@ == slot_hashes_added(list@, blocks@, blocks@.len()),
        blocks@.len() > 0 ==> added@.len() <= SLOTHASH_ENTRIES,
{
    let ghost start = list@;
    let mut added = list;
    let mut i: usize = 0;
    while i < blocks.len()
        invariant
            i <= blocks@.len(),
            added@ == slot_hashes_added(start, blocks@, i as nat),
            i > 0 ==> added@.len() <= SLOTHASH_ENTRIES,
        decreases blocks@.len() - i,
    {
        added = add_slot_hash(added, blocks[i].0, blocks[i].1);
        i += 1;
    }
    added
}

/// One stored slot hash.
pub open spec fn slot_hash_bytes(item: SlotHash) -> Seq<u8> {
    le_bytes(item.0 as nat, 8) + item.1@
}

/// The first `n` slot hashes, one after the other.
pub open spec fn slot_hash_run(list: Seq<SlotHash>, n: nat) -> Seq<u8>
    decreases n,
{
    if n == 0 {
        Seq::empty()
    } else {
        slot_hash_run(list, (n - 1) as nat) + slot_hash_bytes(list[n - 1])
    }
}

/// Stored slot hashes: how many there are, and one after the other.
pub open spec fn slot_hashes_bytes(list: Seq<SlotHash>) -> Seq<u8> {
    le_bytes(list.len(), 8) + slot_hash_run(list, list.len())
}

/// The slot hash at position `i` of stored ones.
pub open spec fn slot_hash_at(bytes: Seq<u8>, i: int) -> SlotHash {
    (wide_at(bytes, 8 + 40 * i), array32(bytes.subrange(16 + 40 * i, 48 + 40 * i)))
}

/// Reads stored slot hashes. What follows them is not looked at.
pub open spec fn parse_slot_hashes(bytes: Seq<u8>) -> Option<Seq<SlotHash>> {
    if bytes.len() < 8 || 8 + 40 * wide_at(bytes, 0) > bytes.len() {
        None
    } else {
        Some(Seq::new(wide_at(bytes, 0) as nat, |i: int| slot_hash_at(bytes, i)))
    }
}

/// Spells slot hashes.
pub fn encode_slot_hashes(list: &Vec<SlotHash>) -> (bytes: Vec<u8>)
    ensures
        bytes@ == slot_hashes_bytes(list@),
{
    let mut bytes: Vec<u8> = Vec::new();
    let count = u64_to_le(list.len() as u64);
    bytes.extend_from_slice(count.as_slice());
    assert(bytes@ =~= le_bytes(list@.len(), 8) + slot_hash_run(list@, 0));
    let mut i: usize = 0;
    while i < list.len()
        invariant
            i <= list@.len(),
            bytes@ == le_bytes(list@.len(), 8) + slot_hash_run(list@, i as nat),
        decreases list@.len() - i,
    {
        let ghost before = bytes@;
        let slot = u64_to_le(list[i].0);
        bytes.extend_from_slice(slot.as_slice());
        bytes.extend_from_slice(list[i].1.as_slice());
        assert(bytes@ =~= before + slot_hash_bytes(list@[i as int]));
        assert(bytes@ =~= le_bytes(list@.len(), 8) + slot_hash_run(list@, (i + 1) as nat));
        i += 1;
    }
    bytes
}

/// Reads stored slot hashes.
pub fn decode_slot_hashes(bytes: &[u8]) -> (list: Option<Vec<SlotHash>>)
    ensures
        match list {
            Some(l) => parse_slot_hashes(bytes@) == Some(l@),
            None => parse_slot_hashes(bytes@) is None,
        },
{
    let end: usize = bytes.len();
    if end < 8 {
        return None;
    }
    let count: u64 = read_u64(bytes, 0);
    if count > ((end - 8) / 40) as u64 {
        return None;
    }
    let n: usize = count as usize;
    let mut list: Vec<SlotHash> = Vec::new();
    let mut i: usize = 0;
    while i < n
        invariant
            i <= n,
            end == bytes@.len(),
            8 + 40 * n <= end,
            list@ == Seq::new(i as nat, |k: int| slot_hash_at(bytes@, k)),
        decreases n - i,
    {
        let ghost before = list@;
        let at: usize = 8 + 40 * i;
        list.push((read_u64(bytes, at), read_hash(bytes, at + 8)));
        assert(list@ =~= Seq::new((i + 1) as nat, |k: int| slot_hash_at(bytes@, k)));
        i += 1;
    }
    Some(list)
}

proof fn slot_hash_run_places(list: Seq<SlotHash>, n: nat)
    requires
        n <= list.len(),
    ensures
        slot_hash_run(list, n).len() == 40 * n,
        forall|i: int|
            0 <= i < n ==> (#[trigger] slot_hash_run(list, n).subrange(40 * i, 40 * i + 40))
                == slot_hash_bytes(list[i]),
    decreases n,
{
    if n > 0 {
        slot_hash_run_places(list, (n - 1) as nat);
        let rest = slot_hash_run(list, (n - 1) as nat);
        let run = slot_hash_run(list, n);
        widths();
        le_bytes_spell(list[n - 1].0 as nat, 8);
        assert(slot_hash_bytes(list[n - 1]).len() == 40);
        assert forall|i: int| 0 <= i < n implies (#[trigger] run.subrange(40 * i, 40 * i + 40))
            == slot_hash_bytes(list[i]) by {
            if i < n - 1 {
                assert(run.subrange(40 * i, 40 * i + 40) =~= rest.subrange(40 * i, 40 * i + 40));
            } else {
                assert(run.subrange(40 * i, 40 * i + 40) =~= slot_hash_bytes(list[n - 1]));
            }
        }
    }
}

/// How long stored slot hashes are.
pub proof fn slot_hashes_length(list: Seq<SlotHash>)
    requires
        list.len() <= u64::MAX,
    ensures
        slot_hashes_bytes(list).len() == 8 + 40 * list.len(),
{
    widths();
    le_bytes_spell(list.len(), 8);
    slot_hash_run_places(list, list.len());
}

/// Slot hashes are read back as they were written, whatever follows them.
pub proof fn slot_hashes_roundtrip(list: Seq<SlotHash>, tail: Seq<u8>)
    requires
        list.len() <= u64::MAX,
    ensures
        parse_slot_hashes(slot_hashes_bytes(list) + tail) == Some(list),
{
    let bytes = slot_hashes_bytes(list) + tail;
    let run = slot_hash_run(list, list.len());
    widths();
    le_bytes_spell(list.len(), 8);
    slot_hash_run_places(list, list.len());
    assert(bytes.subrange(0, 8) =~= le_bytes(list.len(), 8));
    assert(wide_at(bytes, 0) == list.len());
    let read = Seq::new(list.len(), |i: int| slot_hash_at(bytes, i));
    assert forall|i: int| 0 <= i < list.len() implies read[i] == list[i] by {
        let item = slot_hash_bytes(list[i]);
        assert(run.subrange(40 * i, 40 * i + 40) == item);
        le_bytes_spell(list[i].0 as nat, 8);
        assert(bytes.subrange(8 + 40 * i, 16 + 40 * i) =~= item.take(8)) by {
            assert(bytes.subrange(8 + 40 * i, 16 + 40 * i) =~= run.subrange(
                40 * i,
                40 * i + 40,
            ).take(8));
        }
        assert(item.take(8) =~= le_bytes(list[i].0 as nat, 8));
        assert(bytes.subrange(16 + 40 * i, 48 + 40 * i) =~= run.subrange(
            40 * i,
            40 * i + 40,
        ).skip(8));
        assert(item.skip(8) =~= list[i].1@);
        let hash = array32(list[i].1@);
        assert(hash@ == list[i].1@);
        assert(hash =~= list[i].1);
    }
    assert(read =~= list);
}

/// Clock of the runtime.
#[derive(Clone, Copy, Debug, PartialEq, Eq, Structural)]
pub struct Clock {
    /// Current slot.
    pub slot: Slot,
    /// Time of the first slot of the epoch.
    pub epoch_start_timestamp: i64,
    /// Current epoch.
    pub epoch: u64,
    /// Epoch for which a leader schedule is known.
    pub leader_schedule_epoch: u64,
    /// Time of the current slot.
    pub unix_timestamp: i64,
}

/// Stored clock.
pub open spec fn clock_bytes(clock: Clock) -> Seq<u8> {
    le_bytes(clock.slot as nat, 8) + le_bytes(time_bits(clock.epoch_start_timestamp) as nat, 8)
        + le_bytes(clock.epoch as nat, 8) + le_bytes(clock.leader_schedule_epoch as nat, 8)
        + le_bytes(time_bits(clock.unix_timestamp) as nat, 8)
}

/// Spells a clock.
pub fn encode_clock(clock: &Clock) -> (bytes: Vec<u8>)
    ensures
        bytes@ == clock_bytes(*clock),
        bytes@.len() == 40,
{
    let mut bytes: Vec<u8> = Vec::new();
    bytes.extend_from_slice(u64_to_le(clock.slot).as_slice());
    bytes.extend_from_slice(u64_to_le(bits_of_time(clock.epoch_start_timestamp)).as_slice());
    bytes.extend_from_slice(u64_to_le(clock.epoch).as_slice());
    bytes.extend_from_slice(u64_to_le(clock.leader_schedule_epoch).as_slice());
    bytes.extend_from_slice(u64_to_le(bits_of_time(clock.unix_timestamp)).as_slice());
    proof {
        widths();
        le_bytes_spell(clock.slot as nat, 8);
        le_bytes_spell(time_bits(clock.epoch_start_timestamp) as nat, 8);
        le_bytes_spell(clock.epoch as nat, 8);
        le_bytes_spell(clock.leader_schedule_epoch as nat, 8);
        le_bytes_spell(time_bits(clock.unix_timestamp) as nat, 8);
        assert(bytes@ =~= clock_bytes(*clock));
    }
    bytes
}

/// How slots are grouped into epochs.
#[derive(Clone, Copy, Debug, PartialEq, Eq, Structural)]
pub struct EpochSchedule {
    /// Slots of an epoch.
    pub slots_per_epoch: u64,
    /// Slots before an epoch at which its leaders are known.
    pub leader_schedule_slot_offset: u64,
    /// Whether the first epochs are shorter.
    pub warmup: bool,
    /// First epoch of full length.
    pub first_normal_epoch: u64,
    /// First slot of that epoch.
    pub first_normal_slot: u64,
}

/// Slots of an epoch if superblocks are not sealed by slot.
pub const DEFAULT_SLOTS_PER_EPOCH: u64 = 432000;

/// The schedule for superblocks of `interval` slots: epochs are as long as superblocks, from
/// the first one on.
pub open spec fn schedule_of(interval: u64) -> EpochSchedule {
    let slots = if interval == 0 {
        DEFAULT_SLOTS_PER_EPOCH
    } else {
        interval
    };
    EpochSchedule {
        slots_per_epoch: slots,
        leader_schedule_slot_offset: slots,
        warmup: false,
        first_normal_epoch: 0,
        first_normal_slot: 0,
    }
}

/// The schedule for superblocks of `interval` slots.
pub fn epoch_schedule(interval: u64) -> (schedule: EpochSchedule)
    ensures
        schedule == schedule_of(interval),
{
    let slots: u64 = if interval == 0 {
        DEFAULT_SLOTS_PER_EPOCH
    } else {
        interval
    };
    EpochSchedule {
        slots_per_epoch: slots,
        leader_schedule_slot_offset: slots,
        warmup: false,
        first_normal_epoch: 0,
        first_normal_slot: 0,
    }
}

/// Stored schedule.
pub open spec fn schedule_bytes(schedule: EpochSchedule) -> Seq<u8> {
    le_bytes(schedule.slots_per_epoch as nat, 8) + le_bytes(
        schedule.leader_schedule_slot_offset as nat,
        8,
    ) + seq![if schedule.warmup {
        1u8
    } else {
        0u8
    }] + le_bytes(schedule.first_normal_epoch as nat, 8) + le_bytes(
        schedule.first_normal_slot as nat,
        8,
    )
}

/// Spells a schedule.
pub fn encode_schedule(schedule: &EpochSchedule) -> (bytes: Vec<u8>)
    ensures
        bytes@ == schedule_bytes(*schedule),
        bytes@.len() == 33,
{
    let mut bytes: Vec<u8> = Vec::new();
    bytes.extend_from_slice(u64_to_le(schedule.slots_per_epoch).as_slice());
    bytes.extend_from_slice(u64_to_le(schedule.leader_schedule_slot_offset).as_slice());
    bytes.push(
        if schedule.warmup {
            1u8
        } else {
            0u8
        },
    );
    bytes.extend_from_slice(u64_to_le(schedule.first_normal_epoch).as_slice());
    bytes.extend_from_slice(u64_to_le(schedule.first_normal_slot).as_slice());
    proof {
        widths();
        le_bytes_spell(schedule.slots_per_epoch as nat, 8);
        le_bytes_spell(schedule.leader_schedule_slot_offset as nat, 8);
        le_bytes_spell(schedule.first_normal_epoch as nat, 8);
        le_bytes_spell(schedule.first_normal_slot as nat, 8);
        assert(bytes@ =~= schedule_bytes(*schedule));
    }
    bytes
}

/// What an account has to hold so that it costs no rent.
#[derive(Clone, Copy, Debug, PartialEq, Eq)]
pub struct Rent {
    /// Price of a byte.
    pub lamports_per_byte: u64,
    /// Factor of the price, as the bytes of a floating-point number.
    pub exemption_threshold: [u8; 8],
    /// Percentage of the rent that is destroyed.
    pub burn_percent: u8,
}

/// Largest account that rent is known for.
pub const MAX_RENTED_DATA: usize = 10485760;

/// The bytes of the factor one.
pub open spec fn factor_one() -> Seq<u8> {
    seq![0u8, 0u8, 0u8, 0u8, 0u8, 0u8, 240u8, 63u8]
}

/// The bytes of the factor two.
pub open spec fn factor_two() -> Seq<u8> {
    seq![0u8, 0u8, 0u8, 0u8, 0u8, 0u8, 0u8, 64u8]
}

impl Rent {
    /// The balance for `len` bytes of data can be computed.
    pub open spec fn covers(self, len: nat) -> bool {
        &&& len <= MAX_RENTED_DATA
        &&& self.exemption_threshold@ == factor_one() ==> self.lamports_per_byte <= 1759197129867
        &&& self.exemption_threshold@ == factor_two() ==> self.lamports_per_byte <= 879598564933
        &&& self.exemption_threshold@ != factor_one() && self.exemption_threshold@ != factor_two()
            ==> (128 + len) * self.lamports_per_byte <= u64::MAX
    }

    /// Whether the balance for `len` bytes of data can be computed.
    pub fn is_known(&self, len: usize) -> (known: bool)
        ensures
            known == self.covers(len as nat),
    {
        if len > MAX_RENTED_DATA {
            return false;
        }
        let factor = self.exemption_threshold.as_slice();
        let one: [u8; 8] = [0, 0, 0, 0, 0, 0, 240, 63];
        let two: [u8; 8] = [0, 0, 0, 0, 0, 0, 0, 64];
        proof {
            assert(one@ =~= factor_one());
            assert(two@ =~= factor_two());
            assert(factor_one()[6] != factor_two()[6]);
        }
        if bytes_eq(factor, one.as_slice()) {
            return self.lamports_per_byte <= 1759197129867;
        }
        if bytes_eq(factor, two.as_slice()) {
            return self.lamports_per_byte <= 879598564933;
        }
        assert((128 + len) * self.lamports_per_byte <= u128::MAX) by (nonlinear_arith)
            requires
                len <= MAX_RENTED_DATA,
                self.lamports_per_byte <= u64::MAX,
        ;
        (128 + len as u128) * self.lamports_per_byte as u128 <= u64::MAX as u128
    }

    /// Balance that `len` bytes of data need.
    pub open spec fn minimum(self, len: nat) -> u64 {
        rent_minimum(self.lamports_per_byte, self.exemption_threshold@, len)
    }

    /// Stored rent.
    pub open spec fn bytes(self) -> Seq<u8> {
        (le_bytes(self.lamports_per_byte as nat, 8) + self.exemption_threshold@).push(
            self.burn_percent,
        )
    }

    /// Spells rent.
    pub fn encode(&self) -> (bytes: Vec<u8>)
        ensures
            bytes@ == self.bytes(),
            bytes@.len() == 17,
    {
        let mut bytes: Vec<u8> = Vec::new();
        bytes.extend_from_slice(u64_to_le(self.lamports_per_byte).as_slice());
        bytes.extend_from_slice(self.exemption_threshold.as_slice());
        bytes.push(self.burn_percent);
        proof {
            widths();
            le_bytes_spell(self.lamports_per_byte as nat, 8);
            assert(bytes@ =~= self.bytes());
        }
        bytes
    }
}

/// Balance that some bytes of data need, given the price and the factor.
pub uninterp spec fn rent_minimum(lamports_per_byte: u64, factor: Seq<u8>, len: nat) -> u64;

/// Balance that `len` bytes of data need, by `solana_rent::Rent::minimum_balance`. With the
/// factor one it is the price of the data and of 128 bytes more, and with the factor two it is
/// twice that. With another factor the product is rounded as floating-point numbers are.
#[verifier::external_body]
pub(crate) fn minimum_balance(rent: &Rent, len: usize) -> (lamports: u64)
    requires
        rent.covers(len as nat),
    ensures
        lamports == rent_minimum(rent.lamports_per_byte, rent.exemption_threshold@, len as nat),
        rent.exemption_threshold@ == factor_one() ==> lamports == (128 + len) * rent.lamports_per_byte,
        rent.exemption_threshold@ == factor_two() ==> lamports == 2 * (128 + len)
            * rent.lamports_per_byte,
{
    #[allow(deprecated)]
    let outside = solana_rent::Rent {
        lamports_per_byte: rent.lamports_per_byte,
        exemption_threshold: rent.exemption_threshold,
        burn_percent: rent.burn_percent,
    };
    outside.minimum_balance(len)
}

/// Account data after a state was written over its beginning.
pub open spec fn overwritten(data: Seq<u8>, state: Seq<u8>) -> Seq<u8> {
    state + data.skip(state.len() as int)
}

/// Writes a state over the beginning of account data that has room for it.
fn overwrite(data: &Vec<u8>, state: Vec<u8>) -> (result: Vec<u8>)
    requires
        state@.len() <= data@.len(),
    ensures
        result@ == overwritten(data@, state@),
{
    let mut result = state;
    let ghost start = result@;
    let mut i: usize = result.len();
    assert(result@ =~= start + data@.subrange(i as int, i as int));
    while i < data.len()
        invariant
            start.len() <= i <= data@.len(),
            result@ == start + data@.subrange(start.len() as int, i as int),
        decreases data@.len() - i,
    {
        result.push(data[i]);
        assert(result@ =~= start + data@.subrange(start.len() as int, i + 1));
        i += 1;
    }
    assert(data@.subrange(start.len() as int, i as int) =~= data@.skip(start.len() as int));
    result
}

/// Slot hashes in account data after a block was added to them.
pub open spec fn recorded_hashes(data: Seq<u8>, slot: Slot, hash: BlockHash) -> Option<Seq<u8>> {
    match parse_slot_hashes(data) {
        Some(list) => {
            let state = slot_hashes_bytes(slot_hash_added(list, slot, hash));
            if state.len() <= data.len() {
                Some(overwritten(data, state))
            } else {
                None
            }
        },
        None => None,
    }
}

/// What is read of slot hashes once a block was added to them that is newer than all others: it
/// comes first, and the others follow it as they did, up to 512 in all.
pub open spec fn follows(before: Seq<u8>, slot: Slot, hash: BlockHash, after: Seq<u8>) -> bool {
    &&& after.len() == before.len()
    &&& parse_slot_hashes(before) matches Some(list) && parse_slot_hashes(after) matches Some(read)
        && {
        newest_first(list) && (list.len() == 0 || list[0].0 < slot) ==> {
            &&& read.len() == if list.len() < 512 {
                list.len() + 1
            } else {
                512
            }
            &&& read[0] == (slot, hash)
            &&& forall|i: int| 0 < i < read.len() ==> #[trigger] read[i] == list[i - 1]
        }
    }
}

/// Adds a block to slot hashes in account data. Data that is malformed, or has no room, is
/// refused. A block that is newer than all others is read back as the first one, in front of
/// those that were there, as far as there is room for them.
pub fn record_hash(data: &Vec<u8>, slot: Slot, hash: BlockHash) -> (result: Result<
    Vec<u8>,
    AccountsDBError,
>)
    ensures
        match result {
            Ok(bytes) => recorded_hashes(data@, slot, hash) == Some(bytes@),
            Err(error) => recorded_hashes(data@, slot, hash) is None && error
                == AccountsDBError::Serde,
        },
        match (result, parse_slot_hashes(data@)) {
            (Ok(bytes), Some(list)) => newest_first(list) && (list.len() == 0 || list[0].0 < slot)
                ==> (parse_slot_hashes(bytes@) matches Some(read) && read.len() > 0 && read[0] == (slot, hash)),
            _ => true,
        },
        result matches Ok(bytes) ==> follows(data@, slot, hash, bytes@),
        parse_slot_hashes(data@) is Some && data@.len() >= 20_488 ==> result is Ok,
{
    let list = match decode_slot_hashes(data.as_slice()) {
        Some(list) => list,
        None => {
            return Err(AccountsDBError::Serde);
        },
    };
    let ghost before = list@;
    let added = add_slot_hash(list, slot, hash);
    let state = encode_slot_hashes(&added);
    proof {
        slot_hashes_length(added@);
    }
    if state.len() > data.len() {
        return Err(AccountsDBError::Serde);
    }
    let ghost written = state@;
    let bytes = overwrite(data, state);
    proof {
        slot_hashes_roundtrip(added@, data@.skip(written.len() as int));
        if newest_first(before) && (before.len() == 0 || before[0].0 < slot) {
            let at = choose|at: int| placed_at(before, slot, hash, added@, at);
            assert(placed_at(before, slot, hash, added@, at));
            assert forall|i: int| 0 <= i < before.len() implies (#[trigger] before[i]).0
                < slot by {
                if i > 0 {
                    assert(before[0].0 >= before[i].0);
                }
            }
            if at > 0 {
                assert(before[0].0 > slot);
            }
            assert(added@[0] == (slot, hash));
            assert(at == 0);
            assert(forall|i: int| 0 < i < added@.len() ==> #[trigger] added@[i] == before[i - 1]);
        }
        slot_hashes_length(added@);
        assert(bytes@.len() == data@.len());
    }
    Ok(bytes)
}

/// Clock in account data after a block ended.
pub open spec fn recorded_clock(data: Seq<u8>, slot: Slot, time: i64) -> Option<Seq<u8>> {
    if data.len() < 40 {
        None
    } else {
        Some(
            le_bytes(slot as nat, 8) + data.subrange(8, 32) + le_bytes(time_bits(time) as nat, 8)
                + data.skip(40),
        )
    }
}

/// Sets the slot and the time of a clock in account data, and leaves the rest alone. Data that
/// is too short is refused.
pub fn record_clock(data: &Vec<u8>, slot: Slot, time: i64) -> (result: Result<
    Vec<u8>,
    AccountsDBError,
>)
    ensures
        match result {
            Ok(bytes) => recorded_clock(data@, slot, time) == Some(bytes@),
            Err(error) => recorded_clock(data@, slot, time) is None && error
                == AccountsDBError::Serde,
        },
{
    if data.len() < 40 {
        return Err(AccountsDBError::Serde);
    }
    let mut state: Vec<u8> = Vec::new();
    let ghost given = data@;
    state.extend_from_slice(u64_to_le(slot).as_slice());
    let mut i: usize = 8;
    assert(state@ =~= le_bytes(slot as nat, 8) + given.subrange(8, 8));
    while i < 32
        invariant
            8 <= i <= 32,
            data@ == given,
            given.len() >= 40,
            state@ == le_bytes(slot as nat, 8) + given.subrange(8, i as int),
        decreases 32 - i,
    {
        state.push(data[i]);
        assert(state@ =~= le_bytes(slot as nat, 8) + given.subrange(8, i + 1));
        i += 1;
    }
    state.extend_from_slice(u64_to_le(bits_of_time(time)).as_slice());
    proof {
        widths();
        le_bytes_spell(slot as nat, 8);
        le_bytes_spell(time_bits(time) as nat, 8);
        assert(state@.len() == 40);
    }
    let ghost written = state@;
    let bytes = overwrite(data, state);
    assert(bytes@ =~= le_bytes(slot as nat, 8) + given.subrange(8, 32) + le_bytes(
        time_bits(time) as nat,
        8,
    ) + given.skip(40));
    Ok(bytes)
}

/// The clock at the beginning of account data.
pub open spec fn clock_at(data: Seq<u8>) -> Clock {
    Clock {
        slot: wide_at(data, 0),
        epoch_start_timestamp: time_of_bits(wide_at(data, 8)),
        epoch: wide_at(data, 16),
        leader_schedule_epoch: wide_at(data, 24),
        unix_timestamp: time_of_bits(wide_at(data, 32)),
    }
}

/// A clock is read back as it was stored, whatever follows it.
pub proof fn clocks_are_read_back(clock: Clock, tail: Seq<u8>)
    ensures
        clock_bytes(clock).len() == 40,
        clock_at(clock_bytes(clock) + tail) == clock,
{
    let data = clock_bytes(clock) + tail;
    let start = time_bits(clock.epoch_start_timestamp);
    let time = time_bits(clock.unix_timestamp);
    widths();
    le_bytes_spell(clock.slot as nat, 8);
    le_bytes_spell(start as nat, 8);
    le_bytes_spell(clock.epoch as nat, 8);
    le_bytes_spell(clock.leader_schedule_epoch as nat, 8);
    le_bytes_spell(time as nat, 8);
    assert(data.subrange(0, 8) =~= le_bytes(clock.slot as nat, 8));
    assert(data.subrange(8, 16) =~= le_bytes(start as nat, 8));
    assert(data.subrange(16, 24) =~= le_bytes(clock.epoch as nat, 8));
    assert(data.subrange(24, 32) =~= le_bytes(clock.leader_schedule_epoch as nat, 8));
    assert(data.subrange(32, 40) =~= le_bytes(time as nat, 8));
    time_roundtrip(clock.epoch_start_timestamp);
    time_roundtrip(clock.unix_timestamp);
}

/// The end of a block sets the slot and the time of the stored clock to those of the block and
/// leaves everything else as it was: the epochs, and whatever follows the clock. It is refused
/// only if there is no room for a clock.
pub proof fn blocks_set_the_clock(data: Seq<u8>, slot: Slot, time: i64)
    ensures
        (recorded_clock(data, slot, time) is None) == (data.len() < 40),
        recorded_clock(data, slot, time) matches Some(bytes) ==> {
            &&& bytes.len() == data.len()
            &&& clock_at(bytes) == (Clock { slot, unix_timestamp: time, ..clock_at(data) })
            &&& forall|i: int|
                8 <= i < 32 || 40 <= i < data.len() ==> #[trigger] bytes[i] == data[i]
        },
{
    if let Some(bytes) = recorded_clock(data, slot, time) {
        widths();
        le_bytes_spell(slot as nat, 8);
        le_bytes_spell(time_bits(time) as nat, 8);
        assert(bytes.subrange(0, 8) =~= le_bytes(slot as nat, 8));
        assert(bytes.subrange(8, 16) =~= data.subrange(8, 16));
        assert(bytes.subrange(16, 24) =~= data.subrange(16, 24));
        assert(bytes.subrange(24, 32) =~= data.subrange(24, 32));
        assert(bytes.subrange(32, 40) =~= le_bytes(time_bits(time) as nat, 8));
        time_roundtrip(time);
    }
}

/// Blocks with different times leave different clocks, and so do blocks with different slots.
pub proof fn different_blocks_leave_different_clocks(
    data: Seq<u8>,
    slot: Slot,
    time: i64,
    other_slot: Slot,
    other_time: i64,
)
    requires
        data.len() >= 40,
        slot != other_slot || time != other_time,
    ensures
        recorded_clock(data, slot, time) != recorded_clock(data, other_slot, other_time),
{
    blocks_set_the_clock(data, slot, time);
    blocks_set_the_clock(data, other_slot, other_time);
}

/// Of two blocks, the stored clock shows the later one.
pub proof fn last_block_sets_the_clock(
    data: Seq<u8>,
    slot: Slot,
    time: i64,
    next_slot: Slot,
    next_time: i64,
)
    requires
        data.len() >= 40,
    ensures
        recorded_clock(recorded_clock(data, slot, time)->0, next_slot, next_time)
            == recorded_clock(data, next_slot, next_time),
{
    blocks_set_the_clock(data, slot, time);
    let first = recorded_clock(data, slot, time)->0;
    assert(first.subrange(8, 32) =~= data.subrange(8, 32));
    assert(first.skip(40) =~= data.skip(40));
}

/// The schedule at the beginning of account data.
pub open spec fn schedule_at(data: Seq<u8>) -> EpochSchedule {
    EpochSchedule {
        slots_per_epoch: wide_at(data, 0),
        leader_schedule_slot_offset: wide_at(data, 8),
        warmup: data[16] != 0,
        first_normal_epoch: wide_at(data, 17),
        first_normal_slot: wide_at(data, 25),
    }
}

/// A schedule is read back as it was stored.
pub proof fn schedules_are_read_back(schedule: EpochSchedule, tail: Seq<u8>)
    ensures
        schedule_bytes(schedule).len() == 33,
        schedule_at(schedule_bytes(schedule) + tail) == schedule,
{
    let data = schedule_bytes(schedule) + tail;
    widths();
    le_bytes_spell(schedule.slots_per_epoch as nat, 8);
    le_bytes_spell(schedule.leader_schedule_slot_offset as nat, 8);
    le_bytes_spell(schedule.first_normal_epoch as nat, 8);
    le_bytes_spell(schedule.first_normal_slot as nat, 8);
    assert(data.subrange(0, 8) =~= le_bytes(schedule.slots_per_epoch as nat, 8));
    assert(data.subrange(8, 16) =~= le_bytes(schedule.leader_schedule_slot_offset as nat, 8));
    assert(data.subrange(17, 25) =~= le_bytes(schedule.first_normal_epoch as nat, 8));
    assert(data.subrange(25, 33) =~= le_bytes(schedule.first_normal_slot as nat, 8));
}

/// Epochs are as long as superblocks, or 432000 slots where superblocks are not sealed by slot.
/// They have that length from the first one on, so that a slot lies in the epoch of its quotient,
/// and the leaders of an epoch are known one epoch before.
pub proof fn epochs_are_superblocks(interval: u64)
    ensures
        interval > 0 ==> schedule_of(interval).slots_per_epoch == interval,
        schedule_of(0).slots_per_epoch == 432000,
        schedule_of(interval).leader_schedule_slot_offset == schedule_of(interval).slots_per_epoch,
        !schedule_of(interval).warmup,
        schedule_of(interval).first_normal_epoch == 0,
        schedule_of(interval).first_normal_slot == 0,
{
}

/// Rent is stored as its price, its factor, and its percentage, and is read back so.
pub proof fn rent_is_read_back(rent: Rent, tail: Seq<u8>)
    ensures
        rent.bytes().len() == 17,
        wide_at(rent.bytes() + tail, 0) == rent.lamports_per_byte,
        (rent.bytes() + tail).subrange(8, 16) == rent.exemption_threshold@,
        (rent.bytes() + tail)[16] == rent.burn_percent,
{
    let data = rent.bytes() + tail;
    widths();
    le_bytes_spell(rent.lamports_per_byte as nat, 8);
    assert(data.subrange(0, 8) =~= le_bytes(rent.lamports_per_byte as nat, 8));
    assert(data.subrange(8, 16) =~= rent.exemption_threshold@);
}

/// Slot hashes in account data are read back with the block that was added to them, and what
/// stands behind them in the data is left alone. They are refused exactly if what was there cannot
/// be read, or there is no room.
pub proof fn blocks_are_added_to_the_hashes(data: Seq<u8>, slot: Slot, hash: BlockHash)
    requires
        parse_slot_hashes(data) matches Some(list) ==> slot_hash_added(list, slot, hash).len()
            <= SLOTHASH_ENTRIES,
    ensures
        match parse_slot_hashes(data) {
            None => recorded_hashes(data, slot, hash) is None,
            Some(list) => {
                let added = slot_hash_added(list, slot, hash);
                &&& recorded_hashes(data, slot, hash) is Some <==> 8 + 40 * added.len()
                    <= data.len()
                &&& recorded_hashes(data, slot, hash) matches Some(bytes) ==> {
                    &&& parse_slot_hashes(bytes) == Some(added)
                    &&& bytes.len() == data.len()
                    &&& forall|i: int|
                        8 + 40 * added.len() <= i < data.len() ==> #[trigger] bytes[i] == data[i]
                }
            },
        },
{
    if let Some(list) = parse_slot_hashes(data) {
        let added = slot_hash_added(list, slot, hash);
        slot_hashes_length(added);
        slot_hashes_roundtrip(added, data.skip(slot_hashes_bytes(added).len() as int));
    }
}

} // verus!
