//! What replay gives back of what was appended.

use vstd::prelude::*;

use crate::ledger::appender::{AppenderState, EventView};
use crate::ledger::codec::entry_fits;
use crate::ledger::error::LedgerError;
use crate::ledger::laws::{stream, stream_grows, stream_is_replayed};
use crate::ledger::reader::{genesis, ids_grow, published, read_replay};
use crate::ledger::schema::EntryView;
use crate::ledger::superblock::SuperblockView;
use crate::ledger::trace::{
    earlier_is_reached, is_seal, published_keeps, reached, seals, sound, step_keeps, step_seals,
    ways_are_sound, wrote_keeps,
};

verus! {

/// What an event adds to the entries of the active superblock.
pub open spec fn recorded(event: EventView) -> Option<EntryView> {
    match event {
        EventView::Transaction(_, payload) => Some(EntryView::Transaction(payload)),
        EventView::Execution(_, _) => None,
        EventView::Block(block) => Some(EntryView::Block(block)),
        EventView::Superblock(seal) => Some(EntryView::Superblock(seal)),
        EventView::Bootstrap(seal) => Some(EntryView::Superblock(seal)),
        EventView::Reset(slot) => Some(EntryView::Reset(slot)),
        EventView::Checkpoint(checksum) => Some(EntryView::Checkpoint(checksum)),
        EventView::Sync(_) => None,
    }
}

/// Entries with what an event adds.
pub open spec fn extended(log: Seq<EntryView>, event: EventView) -> Seq<EntryView> {
    match recorded(event) {
        Some(entry) => log.push(entry),
        None => log,
    }
}

/// The blockstore file of a superblock holds exactly these entries.
pub open spec fn holds(sb: SuperblockView, log: Seq<EntryView>) -> bool {
    &&& sb.blockstore.contents == stream(log)
    &&& forall|i: int| 0 <= i < log.len() ==> entry_fits(#[trigger] log[i])
}

/// The blockstore file of a superblock is published as a whole.
pub open spec fn closed(sb: SuperblockView) -> bool {
    &&& sb.blockstore.written() == sb.blockstore.contents
    &&& sb.meta.cursors.blockstore == sb.blockstore.contents.len()
}

/// Each superblock holds its entries, and all but the active one are published as a whole.
pub open spec fn logged(s: AppenderState, logs: Seq<Seq<EntryView>>) -> bool {
    let list = s.ledger.superblocks;
    &&& logs.len() == list.len()
    &&& forall|i: int| 0 <= i < list.len() ==> holds(#[trigger] list[i], logs[i])
    &&& forall|i: int| 0 <= i < list.len() - 1 ==> closed(#[trigger] list[i])
}

/// A new ledger has one superblock without entries.
pub proof fn new_ledgers_are_empty(s: AppenderState, dictionary: Seq<u8>)
    requires
        s.ledger == genesis(dictionary),
    ensures
        logged(s, seq![Seq::empty()]),
{
    assert(s.head().blockstore.contents =~= stream(Seq::empty()));
}

/// Entries by superblock after an event: the active superblock takes what the event adds, a seal
/// opens another one, and the oldest ones may be dropped so that `kept` are left.
pub open spec fn logs_after(
    logs: Seq<Seq<EntryView>>,
    event: EventView,
    kept: nat,
) -> Seq<Seq<EntryView>> {
    let grown = logs.drop_last().push(extended(logs.last(), event));
    let opened = if is_seal(event) {
        grown.push(Seq::empty())
    } else {
        grown
    };
    opened.skip(opened.len() - kept)
}

/// What an event other than a seal appends to the active superblock.
proof fn step_appends(s: AppenderState, event: EventView, used: u64, log: Seq<EntryView>)
    requires
        s.wf(),
        s.accepts(event),
        !is_seal(event),
        s.step(event, used) is Ok,
        holds(s.head(), log),
    ensures
        holds(s.step(event, used)->Ok_0.head(), extended(log, event)),
{
    let t = s.step(event, used)->Ok_0;
    if let Some(entry) = recorded(event) {
        wrote_keeps(s, entry);
        stream_grows(log, entry);
        let (written, span) = s.wrote(entry)->Ok_0;
        match event {
            EventView::Block(block) => {
                published_keeps(written, Some(block.slot));
                let published = written.published(Some(block.slot))->Ok_0;
                let indexed = published.indexed(block.slot, span);
                assert(indexed.head().blockstore == published.head().blockstore);
                if used >= s.size_limit {
                    step_keeps(s, event, used);
                    assert(t.head().blockstore.contents == indexed.head().blockstore.contents) by {
                        let synced = indexed.published(None)->Ok_0;
                        assert(synced.head().blockstore.contents
                            == indexed.head().blockstore.contents);
                        let list = synced.ledger.superblocks;
                        if list.first().id < synced.ledger.meta.head {
                            if list.len() == 1 {
                                assert(list.first() == list.last());
                            }
                            assert(list.drop_first().last() == list.last());
                        }
                    }
                }
            },
            EventView::Transaction(_, _) => {
                assert(t.head() == written.head());
            },
            _ => {
                published_keeps(written, None);
            },
        }
    } else {
        match event {
            EventView::Sync(_) => {
                published_keeps(s, None);
            },
            EventView::Execution(_, _) => {
                assert(t.head().blockstore == s.head().blockstore);
            },
            _ => {},
        }
    }
}

/// What a seal appends, and what it opens.
proof fn seal_appends(s: AppenderState, event: EventView, used: u64, log: Seq<EntryView>)
    requires
        s.wf(),
        s.accepts(event),
        is_seal(event),
        s.step(event, used) is Ok,
        holds(s.head(), log),
    ensures
        ({
            let t = s.step(event, used)->Ok_0;
            let n = s.ledger.superblocks.len() as int;
            &&& seals(s, t)
            &&& holds(t.ledger.superblocks[n - 1], extended(log, event))
            &&& closed(t.ledger.superblocks[n - 1])
            &&& holds(t.ledger.superblocks[n], Seq::empty())
        }),
{
    let t = s.step(event, used)->Ok_0;
    let entry = recorded(event)->0;
    ids_grow(s.ledger.superblocks, s.ledger.superblocks.len() - 1);
    step_seals(s, event, used);
    wrote_keeps(s, entry);
    stream_grows(log, entry);
    let (written, _) = s.wrote(entry)->Ok_0;
    published_keeps(written, None);
    let n = s.ledger.superblocks.len() as int;
    let sb = t.ledger.superblocks[n - 1];
    let synced = written.published(None)->Ok_0;
    assert(sb.blockstore == synced.head().blockstore.finalized());
    assert(sb.meta == synced.head().meta);
    assert(sb.blockstore.written() =~= sb.blockstore.contents);
    assert(written.head().blockstore.wf());
}

/// Entries by superblock follow the events.
proof fn step_logs(s: AppenderState, event: EventView, used: u64, logs: Seq<Seq<EntryView>>)
    requires
        s.wf(),
        s.accepts(event),
        s.step(event, used) is Ok,
        logged(s, logs),
    ensures
        ({
            let t = s.step(event, used)->Ok_0;
            logged(t, logs_after(logs, event, t.ledger.superblocks.len()))
        }),
{
    let t = s.step(event, used)->Ok_0;
    let old_list = s.ledger.superblocks;
    let new_list = t.ledger.superblocks;
    let next = logs_after(logs, event, new_list.len());
    let last = old_list.len() - 1;
    assert(holds(old_list[last], logs[last]));
    if is_seal(event) {
        seal_appends(s, event, used, logs.last());
        assert forall|i: int| 0 <= i < new_list.len() implies holds(
            #[trigger] new_list[i],
            next[i],
        ) by {
            if i < last {
                assert(new_list[i] == old_list[i]);
            }
        }
        assert forall|i: int| 0 <= i < new_list.len() - 1 implies closed(#[trigger] new_list[i]) by {
            if i < last {
                assert(new_list[i] == old_list[i]);
            }
        }
    } else {
        step_keeps(s, event, used);
        step_appends(s, event, used, logs.last());
        let gone = old_list.len() - new_list.len();
        assert forall|i: int| 0 <= i < new_list.len() implies holds(
            #[trigger] new_list[i],
            next[i],
        ) by {
            if i < new_list.len() - 1 {
                assert(new_list[i] == old_list[i + gone]);
            }
        }
        assert forall|i: int| 0 <= i < new_list.len() - 1 implies closed(#[trigger] new_list[i]) by {
            assert(new_list[i] == old_list[i + gone]);
        }
    }
}

/// Entries by superblock after the first `n` events.
pub open spec fn logs_at(
    s: AppenderState,
    events: Seq<(EventView, u64)>,
    logs: Seq<Seq<EntryView>>,
    n: nat,
) -> Seq<Seq<EntryView>>
    decreases n,
{
    if n == 0 {
        logs
    } else {
        logs_after(
            logs_at(s, events, logs, (n - 1) as nat),
            events[n - 1].0,
            reached(s, events, n)->Ok_0.ledger.superblocks.len(),
        )
    }
}

proof fn logs_follow(
    s: AppenderState,
    events: Seq<(EventView, u64)>,
    logs: Seq<Seq<EntryView>>,
    n: nat,
)
    requires
        s.wf(),
        sound(s, events),
        logged(s, logs),
        n <= events.len(),
        reached(s, events, n) is Ok,
    ensures
        logged(reached(s, events, n)->Ok_0, logs_at(s, events, logs, n)),
    decreases n,
{
    if n > 0 {
        let k = (n - 1) as nat;
        earlier_is_reached(s, events, k, n);
        logs_follow(s, events, logs, k);
        ways_are_sound(s, events, k);
        let state = reached(s, events, k)->Ok_0;
        step_logs(state, events[k as int].0, events[k as int].1, logs_at(s, events, logs, k));
    }
}

/// The entries of all superblocks behind one, oldest first.
pub open spec fn behind_seal(
    list: Seq<SuperblockView>,
    logs: Seq<Seq<EntryView>>,
    after: u64,
) -> Seq<EntryView>
    decreases list.len(),
{
    if list.len() == 0 {
        Seq::empty()
    } else if list.first().id <= after {
        behind_seal(list.drop_first(), logs.drop_first(), after)
    } else {
        logs.first() + behind_seal(list.drop_first(), logs.drop_first(), after)
    }
}

proof fn logs_are_replayed(
    list: Seq<SuperblockView>,
    logs: Seq<Seq<EntryView>>,
    after: u64,
    so_far: Seq<EntryView>,
)
    requires
        logs.len() == list.len(),
        forall|i: int| 0 <= i < list.len() ==> holds(#[trigger] list[i], logs[i]) && closed(list[i]),
    ensures
        read_replay(list, after, so_far) == (
            so_far + behind_seal(list, logs, after),
            Ok::<(), LedgerError>(()),
        ),
    decreases list.len(),
{
    if list.len() == 0 {
        assert(so_far + Seq::<EntryView>::empty() =~= so_far);
    } else {
        let rest = list.drop_first();
        let more = logs.drop_first();
        assert forall|i: int| 0 <= i < rest.len() implies holds(#[trigger] rest[i], more[i])
            && closed(rest[i]) by {
            assert(rest[i] == list[i + 1] && more[i] == logs[i + 1]);
        }
        let sb = list[0];
        assert(holds(sb, logs[0]) && closed(sb));
        if sb.id <= after {
            logs_are_replayed(rest, more, after, so_far);
        } else {
            assert(published(sb) =~= stream(logs[0]));
            stream_is_replayed(logs[0], so_far);
            logs_are_replayed(rest, more, after, so_far + logs[0]);
            assert((so_far + logs[0]) + behind_seal(rest, more, after) =~= so_far + (logs[0]
                + behind_seal(rest, more, after)));
        }
    }
}

/// Replay gives back what was appended: after any events, once everything was published, it
/// gives exactly the entries that they added to the retained superblocks behind the one that
/// is named, in the order in which they were appended.
pub proof fn appended_entries_are_replayed(
    s: AppenderState,
    events: Seq<(EventView, u64)>,
    logs: Seq<Seq<EntryView>>,
    after: u64,
)
    requires
        s.wf(),
        sound(s, events),
        logged(s, logs),
        reached(s, events, events.len()) is Ok,
        reached(s, events, events.len())->Ok_0.published(None) is Ok,
    ensures
        ({
            let end = reached(s, events, events.len())->Ok_0.published(None)->Ok_0;
            let list = end.ledger.superblocks;
            read_replay(list, after, Seq::empty()) == (
                behind_seal(list, logs_at(s, events, logs, events.len()), after),
                Ok::<(), LedgerError>(()),
            )
        }),
{
    let n = events.len();
    let state = reached(s, events, n)->Ok_0;
    let kept = logs_at(s, events, logs, n);
    ways_are_sound(s, events, n);
    logs_follow(s, events, logs, n);
    published_keeps(state, None);
    let end = state.published(None)->Ok_0;
    let old_list = state.ledger.superblocks;
    let list = end.ledger.superblocks;
    let last = list.len() - 1;
    assert(old_list[last].blockstore.wf());
    assert forall|i: int| 0 <= i < list.len() implies holds(#[trigger] list[i], kept[i]) && closed(
        list[i],
    ) by {
        assert(holds(old_list[i], kept[i]));
        if i < last {
            assert(list[i] == old_list[i]);
        } else {
            assert(list[last] == end.head());
        }
    }
    let none = Seq::<EntryView>::empty();
    logs_are_replayed(list, kept, after, none);
    assert(none + behind_seal(list, kept, after) =~= behind_seal(list, kept, after));
}

} // verus!
