//! What is recorded of an execution.

use std::sync::Arc;

use vstd::prelude::*;

use crate::ledger::appender::EventView;
use crate::ledger::outcome::{TransactionError, TransactionResult};
use crate::ledger::request::TransactionStatus;
use crate::ledger::schema::{
    Balances, CompiledInstruction, Cpis, Event, Execution, ExecutionDetails, ExecutionHeader,
    Instruction, ReturnData,
};
use crate::types::{AccountEntry, EntryView, Pubkey, Signature, Slot};
use crate::view::TransactionView;

verus! {

/// Instruction that a program invoked, as the runtime reports it.
#[derive(Debug)]
pub struct InnerInstruction {
    /// Position of the program.
    pub program_index: u8,
    /// Positions of the accounts.
    pub accounts: Vec<u8>,
    /// Instruction data.
    pub data: Vec<u8>,
    /// Height of the invocation stack.
    pub stack_height: u8,
}

/// Transaction that the runtime executed.
#[derive(Debug)]
pub struct ExecutedTransaction {
    /// Outcome.
    pub status: TransactionResult,
    /// Accounts of the transaction after the execution.
    pub accounts: Vec<AccountEntry>,
    /// Fee.
    pub fee: u64,
    /// Log lines, if they were recorded.
    pub logs: Option<Arc<Vec<String>>>,
    /// Compute units consumed.
    pub executed_units: u64,
    /// What the last program returned.
    pub return_data: Option<(Pubkey, Vec<u8>)>,
    /// Instructions that programs invoked, by transaction-level instruction, if they were
    /// recorded.
    pub inner_instructions: Option<Vec<Vec<InnerInstruction>>>,
}

/// Execution of one transaction, or the reason why it was not executed.
#[derive(Debug)]
pub struct ExecutionRecord {
    /// Slot in which it took place.
    pub slot: Slot,
    /// The execution.
    pub result: Result<ExecutedTransaction, TransactionError>,
    /// Balances before and after, if they were recorded.
    pub balances: Option<(Vec<u64>, Vec<u64>)>,
}

/// What an invoked instruction holds.
pub struct InstructionView {
    pub program_index: u8,
    pub accounts: Seq<u8>,
    pub data: Seq<u8>,
    pub stack_height: u8,
}

impl View for InnerInstruction {
    type V = InstructionView;

    open spec fn view(&self) -> InstructionView {
        InstructionView {
            program_index: self.program_index,
            accounts: self.accounts@,
            data: self.data@,
            stack_height: self.stack_height,
        }
    }
}

impl View for Instruction {
    type V = InstructionView;

    open spec fn view(&self) -> InstructionView {
        InstructionView {
            program_index: self.compiled.program_index,
            accounts: self.compiled.accounts@,
            data: self.compiled.data@,
            stack_height: self.stack_height,
        }
    }
}

/// What one group of invoked instructions holds.
pub open spec fn inner_group(group: Seq<InnerInstruction>) -> Seq<InstructionView> {
    group.map_values(|ix: InnerInstruction| ix@)
}

/// What several groups of invoked instructions hold.
pub open spec fn inner_groups(groups: Seq<Vec<InnerInstruction>>) -> Seq<Seq<InstructionView>> {
    groups.map_values(|group: Vec<InnerInstruction>| inner_group(group@))
}

/// What one recorded group holds.
pub open spec fn recorded_group(group: Seq<Instruction>) -> Seq<InstructionView> {
    group.map_values(|ix: Instruction| ix@)
}

/// What several recorded groups hold.
pub open spec fn recorded_groups(groups: Seq<Cpis>) -> Seq<Seq<InstructionView>> {
    groups.map_values(|group: Cpis| recorded_group(group.0@))
}

/// Records one invoked instruction.
pub fn instruction(ix: &InnerInstruction) -> (recorded: Instruction)
    ensures
        recorded@ == ix@,
{
    let accounts = ix.accounts.clone();
    let data = ix.data.clone();
    assert(accounts@ =~= ix.accounts@);
    assert(data@ =~= ix.data@);
    Instruction {
        stack_height: ix.stack_height,
        compiled: CompiledInstruction { program_index: ix.program_index, accounts, data },
    }
}

/// Records invoked instructions.
pub fn cpis(groups: &Vec<Vec<InnerInstruction>>) -> (recorded: Vec<Cpis>)
    ensures
        recorded_groups(recorded@) == inner_groups(groups@),
{
    let mut recorded: Vec<Cpis> = Vec::new();
    let mut i: usize = 0;
    while i < groups.len()
        invariant
            i <= groups@.len(),
            recorded_groups(recorded@) == inner_groups(groups@).take(i as int),
        decreases groups@.len() - i,
    {
        let group = &groups[i];
        let mut list: Vec<Instruction> = Vec::new();
        let mut k: usize = 0;
        while k < group.len()
            invariant
                k <= group@.len(),
                recorded_group(list@) == inner_group(group@).take(k as int),
            decreases group@.len() - k,
        {
            let ghost before = list@;
            let ix = instruction(&group[k]);
            list.push(ix);
            assert(recorded_group(list@) =~= recorded_group(before).push(ix@));
            assert(recorded_group(list@) =~= inner_group(group@).take(k + 1));
            k += 1;
        }
        assert(recorded_group(list@) =~= inner_group(group@));
        let ghost before = recorded@;
        let entry = Cpis(list);
        recorded.push(entry);
        assert(recorded_groups(recorded@) =~= recorded_groups(before).push(
            recorded_group(entry.0@),
        ));
        assert(recorded_groups(recorded@) =~= inner_groups(groups@).take(i + 1));
        i += 1;
    }
    assert(recorded_groups(recorded@) =~= inner_groups(groups@));
    recorded
}

/// Outcome of a transaction, whether it was executed or not.
pub open spec fn flattened(record: ExecutionRecord) -> TransactionResult {
    match record.result {
        Ok(executed) => executed.status,
        Err(error) => Err(error),
    }
}

/// Status of a transaction, whether it was executed or not.
pub fn transaction_status(record: &ExecutionRecord) -> (status: TransactionStatus)
    ensures
        status == (TransactionStatus { result: flattened(*record), slot: record.slot }),
{
    let result = match &record.result {
        Ok(executed) => executed.status,
        Err(error) => Err(*error),
    };
    TransactionStatus { result, slot: record.slot }
}

/// `details` records `executed` with the given balances.
pub open spec fn records(
    details: ExecutionDetails,
    executed: ExecutedTransaction,
    balances: Option<(Vec<u64>, Vec<u64>)>,
) -> bool {
    &&& details.fee == executed.fee
    &&& details.balances.pre@ == match balances {
        Some((pre, _)) => pre@,
        None => Seq::empty(),
    }
    &&& details.balances.post@ == match balances {
        Some((_, post)) => post@,
        None => Seq::empty(),
    }
    &&& match executed.logs {
        Some(logs) => details.logs == logs,
        None => details.logs@.len() == 0,
    }
    &&& details.compute_units == executed.executed_units
    &&& match executed.return_data {
        Some((program, data)) => details.return_data matches Some(returned) && returned.program
            == program && returned.data@ == data@,
        None => details.return_data is None,
    }
    &&& match executed.inner_instructions {
        Some(groups) => details.cpi matches Some(recorded) && recorded_groups(recorded@)
            == inner_groups(groups@),
        None => details.cpi is None,
    }
}

/// Records an execution.
pub fn execution_details(
    executed: &ExecutedTransaction,
    balances: Option<(Vec<u64>, Vec<u64>)>,
) -> (details: ExecutionDetails)
    ensures
        records(details, *executed, balances),
{
    let (pre, post) = match balances {
        Some(both) => both,
        None => (Vec::new(), Vec::new()),
    };
    let logs = match &executed.logs {
        Some(logs) => logs.clone(),
        None => Arc::new(Vec::new()),
    };
    let return_data = match &executed.return_data {
        Some((program, data)) => {
            let copy = data.clone();
            assert(copy@ =~= data@);
            Some(ReturnData { program: *program, data: Arc::new(copy) })
        },
        None => None,
    };
    let cpi = match &executed.inner_instructions {
        Some(groups) => Some(cpis(groups)),
        None => None,
    };
    ExecutionDetails {
        fee: executed.fee,
        balances: Balances { pre, post },
        logs,
        compute_units: executed.executed_units,
        return_data,
        cpi,
    }
}

/// What is recorded of one execution, and what its observers are told.
#[derive(Debug)]
pub struct ExecutionCommit {
    /// First signature of the transaction.
    pub signature: Signature,
    /// Its status.
    pub status: TransactionStatus,
    /// Fixed part of the ledger record.
    pub header: ExecutionHeader,
    /// The rest of the ledger record, if the transaction was executed.
    pub details: Option<ExecutionDetails>,
    /// Log lines.
    pub logs: Arc<Vec<String>>,
}

/// What is recorded of one execution, and what is left of its record: the balances of an
/// executed transaction are moved out of it.
pub open spec fn commits_as(
    signature: Signature,
    before: ExecutionRecord,
    commit: ExecutionCommit,
    after: ExecutionRecord,
) -> bool {
    &&& commit.signature == signature
    &&& commit.status == (TransactionStatus { result: flattened(before), slot: before.slot })
    &&& commit.header == (ExecutionHeader {
        signature,
        result: flattened(before),
        slot: before.slot,
    })
    &&& match before.result {
        Ok(executed) => {
            &&& commit.details matches Some(details) && records(
                details,
                executed,
                before.balances,
            ) && commit.logs == details.logs
            &&& after == (ExecutionRecord { balances: None, ..before })
        },
        Err(_) => {
            &&& commit.details is None
            &&& commit.logs@.len() == 0
            &&& after == before
        },
    }
}

/// Builds what is recorded of one execution. The balances are moved out of the record.
pub fn execution_commit(signature: Signature, record: &mut ExecutionRecord) -> (commit:
    ExecutionCommit)
    ensures
        commits_as(signature, *old(record), commit, *final(record)),
{
    let status = transaction_status(record);
    let header = ExecutionHeader { signature, result: status.result, slot: record.slot };
    let executed = record.result.is_ok();
    let balances = if executed {
        record.balances.take()
    } else {
        None
    };
    let details = match &record.result {
        Ok(execution) => Some(execution_details(execution, balances)),
        Err(_) => None,
    };
    let logs = match &details {
        Some(recorded) => recorded.logs.clone(),
        None => Arc::new(Vec::new()),
    };
    ExecutionCommit { signature, status, header, details, logs }
}

/// What the ledger is told of an execution: it is indexed under the accounts that its
/// transaction names itself.
pub fn execution_event(view: &TransactionView, execution: Execution) -> (event: Event)
    ensures
        event@ == EventView::Execution(execution@, view@.accounts),
{
    let mut accounts: Vec<Pubkey> = Vec::new();
    let mut i: usize = 0;
    while i < view.accounts.len()
        invariant
            i <= view.accounts@.len(),
            accounts@ == view.accounts@.take(i as int),
        decreases view.accounts@.len() - i,
    {
        accounts.push(view.accounts[i]);
        i += 1;
        assert(accounts@ =~= view.accounts@.take(i as int));
    }
    assert(accounts@ =~= view.accounts@);
    Event::Execution { execution, accounts }
}

/// Whether a transaction was executed and succeeded.
pub open spec fn succeeded(record: ExecutionRecord) -> bool {
    record.result matches Ok(executed) && executed.status is Ok
}

/// The changed accounts among the first `n`. The instructions of the running transaction are
/// not kept.
pub open spec fn changes(accounts: Seq<EntryView>, instructions: Pubkey, n: nat) -> Seq<EntryView>
    decreases n,
{
    if n == 0 {
        Seq::empty()
    } else {
        let rest = changes(accounts, instructions, (n - 1) as nat);
        let entry = accounts[n - 1];
        if entry.1.markers.any() && entry.0 != instructions {
            rest.push(entry)
        } else {
            rest
        }
    }
}

} // verus!
