//! Reader admission for relocation of mapped images.
//!
//! A reader announces itself in its own slot and reads the barrier afterwards; the compactor
//! closes the barrier and reads the slots afterwards. Whatever the order, one of them sees the
//! other.

use vstd::prelude::*;

verus! {

/// What a reader that wants to enter is told.
#[derive(Clone, Copy, PartialEq, Eq, Structural, Debug)]
pub enum Admission {
    /// The scope has begun.
    Admitted,
    /// The reader has withdrawn: wake the compactor, wait for the end of maintenance, and
    /// enter again.
    Withdrawn,
}

/// What a compactor that wants to relocate images is told.
#[derive(Clone, Copy, PartialEq, Eq, Structural, Debug)]
pub enum PauseOutcome {
    /// The barrier is closed; wait until all slots are idle.
    Closed,
    /// Another maintenance is running; wait for its end and ask again.
    Busy,
    /// The calling thread holds a reader scope and would wait for itself.
    WouldBlock,
}

/// Admission state of one database.
#[derive(Debug)]
pub struct Readers {
    /// Nesting depth of each registered thread; zero means inactive.
    pub depths: Vec<usize>,
    /// The barrier: whether new outer scopes are turned away.
    pub closed: bool,
    /// Whether maintenance is running.
    pub maintenance: bool,
}

impl Readers {
    /// The barrier is closed only during maintenance.
    pub open spec fn wf(self) -> bool {
        self.closed ==> self.maintenance
    }

    /// No thread is in a reader scope.
    pub open spec fn idle(self) -> bool {
        forall|i: int| 0 <= i < self.depths@.len() ==> #[trigger] self.depths@[i] == 0
    }

    /// Images may be relocated: the barrier is closed and no thread is in a reader scope.
    pub open spec fn granted(self) -> bool {
        self.closed && self.idle()
    }

    /// Opens admission.
    pub fn new() -> (readers: Readers)
        ensures
            readers.wf(),
            readers.depths@ == Seq::<usize>::empty(),
            !readers.closed,
            !readers.maintenance,
    {
        Readers { depths: Vec::new(), closed: false, maintenance: false }
    }

    /// Registers a thread and returns its slot, or `None` during maintenance: the slots that
    /// a compactor looks at stay the same throughout.
    pub fn register(&mut self) -> (slot: Option<usize>)
        requires
            old(self).wf(),
        ensures
            final(self).wf(),
            final(self).closed == old(self).closed,
            final(self).maintenance == old(self).maintenance,
            slot == if old(self).maintenance {
                None
            } else {
                Some(old(self).depths.len())
            },
            final(self).depths@ == if old(self).maintenance {
                old(self).depths@
            } else {
                old(self).depths@.push(0)
            },
    {
        if self.maintenance {
            return None;
        }
        let slot: usize = self.depths.len();
        self.depths.push(0);
        Some(slot)
    }

    /// Announces a scope in the slot of the calling thread and says whether it is nested in
    /// another one.
    pub fn announce(&mut self, slot: usize) -> (nested: bool)
        requires
            old(self).wf(),
            slot < old(self).depths@.len(),
            old(self).depths@[slot as int] < usize::MAX,
        ensures
            final(self).wf(),
            final(self).closed == old(self).closed,
            final(self).maintenance == old(self).maintenance,
            final(self).depths@ == old(self).depths@.update(
                slot as int,
                (old(self).depths@[slot as int] + 1) as usize,
            ),
            nested == (old(self).depths@[slot as int] > 0),
    {
        let depth: usize = self.depths[slot];
        self.depths.set(slot, depth + 1);
        depth != 0
    }

    /// Reads the barrier for a scope that was announced. A nested scope inherits the admission
    /// of the outer one; an outer scope that meets a closed barrier is withdrawn.
    pub fn pass_barrier(&mut self, slot: usize, nested: bool) -> (admission: Admission)
        requires
            old(self).wf(),
            slot < old(self).depths@.len(),
            old(self).depths@[slot as int] > 0,
        ensures
            final(self).wf(),
            final(self).closed == old(self).closed,
            final(self).maintenance == old(self).maintenance,
            admission == if nested || !old(self).closed {
                Admission::Admitted
            } else {
                Admission::Withdrawn
            },
            final(self).depths@ == if admission == Admission::Admitted {
                old(self).depths@
            } else {
                old(self).depths@.update(slot as int, (old(self).depths@[slot as int] - 1) as usize)
            },
    {
        if nested {
            return Admission::Admitted;
        }
        light_fence();
        if !self.closed {
            return Admission::Admitted;
        }
        let depth: usize = self.depths[slot];
        self.depths.set(slot, depth - 1);
        Admission::Withdrawn
    }

    /// Enters a scope, or withdraws.
    pub fn enter(&mut self, slot: usize) -> (admission: Admission)
        requires
            old(self).wf(),
            slot < old(self).depths@.len(),
            old(self).depths@[slot as int] < usize::MAX,
        ensures
            final(self).wf(),
            final(self).closed == old(self).closed,
            final(self).maintenance == old(self).maintenance,
            admission == if old(self).depths@[slot as int] > 0 || !old(self).closed {
                Admission::Admitted
            } else {
                Admission::Withdrawn
            },
            final(self).depths@ == if admission == Admission::Admitted {
                old(self).depths@.update(
                    slot as int,
                    (old(self).depths@[slot as int] + 1) as usize,
                )
            } else {
                old(self).depths@
            },
    {
        let ghost before = self.depths@;
        let nested = self.announce(slot);
        let admission = self.pass_barrier(slot, nested);
        proof {
            if admission == Admission::Withdrawn {
                assert(self.depths@ =~= before);
            }
        }
        admission
    }

    /// Leaves a scope and says whether the compactor has to be woken: the outermost scope of
    /// the thread has ended and the barrier is closed.
    pub fn exit(&mut self, slot: usize) -> (notify: bool)
        requires
            old(self).wf(),
            slot < old(self).depths@.len(),
            old(self).depths@[slot as int] > 0,
        ensures
            final(self).wf(),
            final(self).closed == old(self).closed,
            final(self).maintenance == old(self).maintenance,
            final(self).depths@ == old(self).depths@.update(
                slot as int,
                (old(self).depths@[slot as int] - 1) as usize,
            ),
            notify == (old(self).depths@[slot as int] == 1 && old(self).closed),
    {
        let depth: usize = self.depths[slot];
        self.depths.set(slot, depth - 1);
        if depth != 1 {
            return false;
        }
        light_fence();
        self.closed
    }

    /// Closes the barrier for the calling thread, whose slot is given if it has one.
    pub fn pause(&mut self, slot: Option<usize>) -> (outcome: PauseOutcome)
        requires
            old(self).wf(),
            slot matches Some(i) ==> i < old(self).depths@.len(),
        ensures
            final(self).wf(),
            final(self).depths@ == old(self).depths@,
            outcome == if slot is Some && old(self).depths@[slot->0 as int] > 0 {
                PauseOutcome::WouldBlock
            } else if old(self).maintenance {
                PauseOutcome::Busy
            } else {
                PauseOutcome::Closed
            },
            outcome == PauseOutcome::Closed ==> final(self).closed && final(self).maintenance,
            outcome != PauseOutcome::Closed ==> *final(self) == *old(self),
    {
        if let Some(i) = slot {
            if self.depths[i] != 0 {
                return PauseOutcome::WouldBlock;
            }
        }
        if self.maintenance {
            return PauseOutcome::Busy;
        }
        self.maintenance = true;
        self.closed = true;
        PauseOutcome::Closed
    }

    /// Whether no thread is in a reader scope any more.
    pub fn drained(&self) -> (yes: bool)
        ensures
            yes == self.idle(),
    {
        let mut i: usize = 0;
        while i < self.depths.len()
            invariant
                i <= self.depths@.len(),
                forall|j: int| 0 <= j < i ==> #[trigger] self.depths@[j] == 0,
            decreases self.depths@.len() - i,
        {
            if self.depths[i] != 0 {
                assert(self.depths@[i as int] != 0);
                return false;
            }
            i += 1;
        }
        true
    }

    /// Ends maintenance: opens the barrier, before anyone else can begin maintenance.
    pub fn reopen(&mut self)
        requires
            old(self).wf(),
        ensures
            final(self).wf(),
            !final(self).closed,
            !final(self).maintenance,
            final(self).depths@ == old(self).depths@,
    {
        self.closed = false;
        self.maintenance = false;
    }
}

/// Depths after a scope was announced in `slot`.
pub open spec fn announced(depths: Seq<usize>, slot: int) -> Seq<usize> {
    depths.update(slot, (depths[slot] + 1) as usize)
}

/// Relocation waits for readers: as long as one slot is in a scope it is not granted, whether
/// the scope was announced before or after the barrier was closed.
pub proof fn active_reader_blocks_relocation(state: Readers, slot: int)
    requires
        0 <= slot < state.depths@.len(),
        state.depths@[slot] > 0,
    ensures
        !state.granted(),
{
}

/// While relocation is granted no outer scope is admitted and no thread registers, so it
/// stays granted until it is over: this is what `enter` and `register` promise of such a
/// state.
pub proof fn granted_admits_nobody(before: Readers, slot: int)
    requires
        before.wf(),
        before.granted(),
        0 <= slot < before.depths@.len(),
    ensures
        before.maintenance,
        !(before.depths@[slot] > 0 || !before.closed),
{
}

/// Leaving undoes entering.
pub proof fn exit_undoes_enter(depths: Seq<usize>, slot: int)
    requires
        0 <= slot < depths.len(),
        depths[slot] < usize::MAX,
    ensures
        announced(depths, slot).update(slot, (announced(depths, slot)[slot] - 1) as usize)
            == depths,
{
    assert(announced(depths, slot).update(slot, (announced(depths, slot)[slot] - 1) as usize)
        =~= depths);
}

/// Orders the announcement in a slot before the reading of the barrier, on every platform:
/// `fence` of std with sequentially consistent ordering. Nothing is claimed of it.
#[verifier::external_body]
fn light_fence() {
    std::sync::atomic::fence(std::sync::atomic::Ordering::SeqCst);
}

} // verus!
