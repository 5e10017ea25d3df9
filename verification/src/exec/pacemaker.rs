//! Block pacing: which blocks end a superblock or get a checkpoint, and how pacing stops.
//!
//! The caller waits for ticks and for blocks from elsewhere, and performs what is decided here.

use vstd::prelude::*;

use crate::types::{Block, Slot};

verus! {

/// Where blocks come from.
#[derive(Clone, Copy, Debug, PartialEq, Eq, Structural)]
pub enum Pacing {
    /// From elsewhere.
    External,
    /// From a clock.
    Internal,
}

/// A block on its way in.
#[derive(Clone, Copy, Debug, PartialEq, Eq)]
pub enum BlockInput {
    /// A new block.
    Production(Block),
    /// A block that was recorded before.
    Replay(Block),
}

impl BlockInput {
    /// The block.
    pub open spec fn block(self) -> Block {
        match self {
            BlockInput::Production(block) => block,
            BlockInput::Replay(block) => block,
        }
    }

    /// The block.
    pub fn payload(&self) -> (block: Block)
        ensures
            block == self.block(),
    {
        match self {
            BlockInput::Production(block) => *block,
            BlockInput::Replay(block) => *block,
        }
    }
}

/// What is to be done at a block.
#[derive(Clone, Copy, Debug, PartialEq, Eq)]
pub enum BoundaryAction {
    /// Hand the block on.
    Publish(BlockInput),
    /// Hand the block on, hold execution, and record the checksum of the accounts.
    Checkpoint(Block),
    /// Hand the block on, hold execution, and seal the superblock.
    Seal {
        /// The block.
        block: Block,
        /// Whether the seal before has to be durable first.
        wait: bool,
    },
}

/// Whether a block is the last of an interval. No block is if the interval is zero.
pub open spec fn ends_interval(slot: Slot, interval: u64) -> bool {
    interval != 0 && slot % interval == 0
}

fn due(slot: Slot, interval: u64) -> (yes: bool)
    ensures
        yes == ends_interval(slot, interval),
{
    interval != 0 && slot % interval == 0
}

/// Paces blocks.
#[derive(Clone, Copy, Debug, PartialEq, Eq, Structural)]
pub struct PaceMaker {
    /// Where blocks come from.
    pub pacing: Pacing,
    /// Next slot, if blocks come from a clock.
    pub slot: Slot,
    /// Blocks of a superblock; zero if superblocks are not sealed.
    pub superblock: u64,
    /// Blocks from checkpoint to checkpoint; zero if there are none.
    pub checkpoint: u64,
    /// Whether a seal was queued that is not known to be durable.
    pub sealed: bool,
}

/// What is to be done at a block.
pub open spec fn boundary(pacer: PaceMaker, input: BlockInput) -> BoundaryAction {
    let block = input.block();
    if input is Replay {
        BoundaryAction::Publish(input)
    } else if ends_interval(block.slot, pacer.superblock) {
        BoundaryAction::Seal { block, wait: pacer.sealed }
    } else if ends_interval(block.slot, pacer.checkpoint) {
        BoundaryAction::Checkpoint(block)
    } else {
        BoundaryAction::Publish(input)
    }
}

/// What is to be done when pacing stops.
#[derive(Clone, Copy, Debug)]
pub struct Stop {
    /// The last block, if blocks come from a clock.
    pub last: Option<Block>,
    /// Whether mirrored accounts are written out for the next start.
    pub dump: bool,
}

impl PaceMaker {
    /// Starts pacing at `slot`, the slot that is being built. If blocks come from a clock, the
    /// accounts mirrored from another chain are dropped at that slot first.
    pub fn spawn(pacing: Pacing, slot: Slot, superblock: u64, checkpoint: u64) -> (started: (
        PaceMaker,
        Option<Slot>,
    ))
        ensures
            started.0 == (PaceMaker { pacing, slot, superblock, checkpoint, sealed: false }),
            started.1 == match pacing {
                Pacing::Internal => Some(slot),
                Pacing::External => None,
            },
    {
        let pacer = PaceMaker { pacing, slot, superblock, checkpoint, sealed: false };
        match pacing {
            Pacing::Internal => (pacer, Some(slot)),
            Pacing::External => (pacer, None),
        }
    }

    /// The next slot of the clock, which goes on to the one after it.
    pub fn tick(&mut self) -> (slot: Slot)
        requires
            old(self).slot < u64::MAX,
        ensures
            slot == old(self).slot,
            *final(self) == (PaceMaker { slot: (slot + 1) as u64, ..*old(self) }),
    {
        let slot: Slot = self.slot;
        self.slot = slot + 1;
        slot
    }

    /// What is to be done at a block: a recorded one, and one that ends no interval, is handed
    /// on; the last one of a superblock seals it; the last one before a checkpoint is followed
    /// by it, unless it seals a superblock.
    pub fn handle(&mut self, input: BlockInput) -> (action: BoundaryAction)
        ensures
            action == boundary(*old(self), input),
            *final(self) == (PaceMaker {
                sealed: old(self).sealed || action is Seal,
                ..*old(self)
            }),
    {
        let block = input.payload();
        match input {
            BlockInput::Replay(_) => {
                return BoundaryAction::Publish(input);
            },
            BlockInput::Production(_) => {},
        }
        if due(block.slot, self.superblock) {
            let wait = self.sealed;
            self.sealed = true;
            return BoundaryAction::Seal { block, wait };
        }
        if due(block.slot, self.checkpoint) {
            return BoundaryAction::Checkpoint(block);
        }
        BoundaryAction::Publish(input)
    }

    /// What is to be done when pacing stops, given what a block of the clock would hold. A
    /// clock gives one block more; blocks from elsewhere leave their mirrored accounts for the
    /// next start.
    pub fn stop(&mut self, last: Block) -> (stop: Stop)
        requires
            old(self).slot < u64::MAX,
            last.slot == old(self).slot,
        ensures
            stop == (match old(self).pacing {
                Pacing::Internal => Stop { last: Some(last), dump: false },
                Pacing::External => Stop { last: None, dump: true },
            }),
            *final(self) == (match old(self).pacing {
                Pacing::Internal => PaceMaker { slot: (old(self).slot + 1) as u64, ..*old(self) },
                Pacing::External => *old(self),
            }),
    {
        match self.pacing {
            Pacing::Internal => {
                let _ = self.tick();
                Stop { last: Some(last), dump: false }
            },
            Pacing::External => Stop { last: None, dump: true },
        }
    }
}

/// A superblock is sealed exactly at each new block that ends one, and a checkpoint is recorded
/// exactly at each new block that ends an interval of checkpoints and no superblock.
pub proof fn boundaries_do_not_overlap(pacer: PaceMaker, block: Block)
    ensures
        boundary(pacer, BlockInput::Production(block)) is Seal <==> ends_interval(
            block.slot,
            pacer.superblock,
        ),
        boundary(pacer, BlockInput::Production(block)) is Checkpoint <==> ends_interval(
            block.slot,
            pacer.checkpoint,
        ) && !ends_interval(block.slot, pacer.superblock),
{
}

/// Recorded blocks seal nothing and get no checkpoint.
pub proof fn recorded_blocks_are_handed_on(pacer: PaceMaker, block: Block)
    ensures
        boundary(pacer, BlockInput::Replay(block)) == BoundaryAction::Publish(
            BlockInput::Replay(block),
        ),
{
}

/// Checkpoints do not depend on how long superblocks are, but where both end together.
pub proof fn intervals_are_independent(
    superblock: u64,
    other: u64,
    checkpoint: u64,
    slot: Slot,
    pacer: PaceMaker,
    block: Block,
)
    requires
        block.slot == slot,
        !ends_interval(slot, superblock),
        !ends_interval(slot, other),
    ensures
        boundary(
            PaceMaker { superblock, checkpoint, ..pacer },
            BlockInput::Production(block),
        ) == boundary(
            PaceMaker { superblock: other, checkpoint, ..pacer },
            BlockInput::Production(block),
        ),
{
}

/// A new block seals its superblock exactly if the length of superblocks divides its slot, and
/// never if that length is zero. It is handed on in the action, whatever the action is.
pub proof fn seals_follow_slots(pacer: PaceMaker, block: Block)
    ensures
        ({
            let action = boundary(pacer, BlockInput::Production(block));
            let seals = pacer.superblock > 0 && block.slot % pacer.superblock == 0;
            let checks = pacer.checkpoint > 0 && block.slot % pacer.checkpoint == 0;
            &&& seals ==> action == (BoundaryAction::Seal { block, wait: pacer.sealed })
            &&& !seals && checks ==> action == BoundaryAction::Checkpoint(block)
            &&& !seals && !checks ==> action == BoundaryAction::Publish(
                BlockInput::Production(block),
            )
        }),
{
}

/// Of as many slots in a row as a superblock is long, exactly one seals it.
pub proof fn superblocks_are_sealed_in_turn(interval: u64, from: u64)
    requires
        interval > 0,
        from + interval <= u64::MAX,
    ensures
        exists|slot: Slot|
            from <= slot < from + interval && #[trigger] ends_interval(slot, interval),
        forall|a: Slot, b: Slot|
            from <= a < from + interval && from <= b < from + interval && #[trigger] ends_interval(
                a,
                interval,
            ) && #[trigger] ends_interval(b, interval) ==> a == b,
{
    let rest = from % interval;
    let slot: Slot = if rest == 0 {
        from
    } else {
        (from + (interval - rest)) as u64
    };
    vstd::arithmetic::div_mod::lemma_fundamental_div_mod(from as int, interval as int);
    assert(ends_interval(slot, interval)) by {
        if rest != 0 {
            let whole = from as int / interval as int;
            assert(slot == interval * whole + interval);
            assert(interval * whole + interval == interval * (whole + 1)) by (nonlinear_arith);
            vstd::arithmetic::div_mod::lemma_mod_multiples_basic(whole + 1, interval as int);
            assert((whole + 1) * interval == interval * (whole + 1)) by (nonlinear_arith);
        }
    }
    assert forall|a: Slot, b: Slot|
        from <= a < from + interval && from <= b < from + interval && #[trigger] ends_interval(
            a,
            interval,
        ) && #[trigger] ends_interval(b, interval) implies a == b by {
        vstd::arithmetic::div_mod::lemma_fundamental_div_mod(a as int, interval as int);
        vstd::arithmetic::div_mod::lemma_fundamental_div_mod(b as int, interval as int);
        let x = a as int / interval as int;
        let y = b as int / interval as int;
        assert(x == y) by (nonlinear_arith)
            requires
                a == interval * x,
                b == interval * y,
                -(interval as int) < a - b < interval as int,
                interval > 0,
        ;
    }
}

} // verus!
