//! Compensating-action rollback: undoing operations that were prepared but not
//! committed.
use vstd::prelude::*;
use crate::names::{entry_point, rollback_entry_point};
use crate::participant::{
    appended_calls, call_for, lemma_append_call, lemma_no_calls, lemma_single_call, new_records, participant_call,
    CallRecord, Participants,
};
use crate::types::{
    copy_strings, find_operation, first_with_id, has_id, ParticipantCall, RollbackInfo, TransactionError,
    TransactionLog, TransactionOperation,
};

verus! {

/// The operations that a full rollback undoes, in the order it undoes them:
/// the rollback-eligible operations, last first.
pub open spec fn rollback_targets(ops: Seq<TransactionOperation>) -> Seq<TransactionOperation>
    decreases ops.len(),
{
    if ops.len() == 0 {
        Seq::empty()
    } else {
        let rest = rollback_targets(ops.drop_last());
        if ops.last().rollback_eligible() {
            seq![ops.last()] + rest
        } else {
            rest
        }
    }
}

/// An operation can be rolled back: prepared, not committed, and with a
/// resolvable participant.
pub open spec fn can_roll_back(op: TransactionOperation) -> bool {
    op.rollback_eligible() && op.contract_address@.len() > 0
}

/// The record of a rollback of `op`, before it is attempted.
pub open spec fn rollback_record(info: RollbackInfo, transaction_id: u64, op: TransactionOperation, successful: bool) -> bool {
    &&& info.transaction_id == transaction_id
    &&& info.operation_id == op.operation_id
    &&& info.contract_address@ == op.contract_address@
    &&& info.rollback_function@ == rollback_entry_point(op.function_name@)
    &&& info.rollback_parameters@ == op.parameters@
    &&& info.rollback_successful == successful
    &&& info.rollback_error is None
}

/// The index of the first operation with id `id`, when there is one.
pub open spec fn first_index(ops: Seq<TransactionOperation>, id: u64) -> int {
    choose|i: int| first_with_id(ops, id, i)
}

/// The operation that each id names: the first with that id.
pub open spec fn named_operations(ops: Seq<TransactionOperation>, ids: Seq<u64>) -> Seq<TransactionOperation> {
    Seq::new(ids.len(), |j: int| ops[first_index(ops, ids[j])])
}

/// How a partial rollback over `ids` went: the first `k` ids each named an
/// operation that could be rolled back, and its rollback call, one per id in
/// the order given, succeeded. Then either all ids were handled, or it
/// stopped at id `k` without a call because no operation has it or because
/// its operation cannot be rolled back, or after the failing rollback call of
/// its operation. No other call is made.
pub open spec fn partial_outcome<F: Fn(ParticipantCall) -> Result<(), String>>(
    invoke: F,
    ops: Seq<TransactionOperation>,
    ids: Seq<u64>,
    old_h: Seq<CallRecord>,
    new_h: Seq<CallRecord>,
    k: int,
    r: Result<(), TransactionError>,
) -> bool {
    &&& 0 <= k <= ids.len()
    &&& forall|j: int|
        0 <= j < k ==> has_id(ops, #[trigger] ids[j]) && can_roll_back(ops[first_index(ops, ids[j])])
            && new_records(old_h, new_h)[j].1 is Ok
    &&& if k == ids.len() {
        &&& r is Ok
        &&& appended_calls(invoke, old_h, new_h, named_operations(ops, ids), "rollback_"@)
    } else if !has_id(ops, ids[k]) {
        &&& r == Err::<(), TransactionError>(TransactionError::OperationNotFound)
        &&& appended_calls(invoke, old_h, new_h, named_operations(ops, ids).subrange(0, k), "rollback_"@)
    } else if !can_roll_back(ops[first_index(ops, ids[k])]) {
        &&& r == Err::<(), TransactionError>(TransactionError::InvalidPhase)
        &&& appended_calls(invoke, old_h, new_h, named_operations(ops, ids).subrange(0, k), "rollback_"@)
    } else {
        &&& r == Err::<(), TransactionError>(TransactionError::RollbackFailed)
        &&& appended_calls(invoke, old_h, new_h, named_operations(ops, ids).subrange(0, k + 1), "rollback_"@)
        &&& new_records(old_h, new_h)[k].1 is Err
    }
}

/// `c` probes the rollback entry point of `name` at `address`, with no
/// parameters.
pub open spec fn probe_of(c: ParticipantCall, address: Seq<char>, name: String) -> bool {
    &&& c.contract_address@ == address
    &&& c.entry_point@ == rollback_entry_point(name@)
    &&& c.parameters@.len() == 0
}

/// `new_h` is `old_h` followed by one probe per name, in order.
pub open spec fn probes_made(old_h: Seq<CallRecord>, new_h: Seq<CallRecord>, address: Seq<char>, names: Seq<String>) -> bool {
    &&& new_h.len() == old_h.len() + names.len()
    &&& new_h.subrange(0, old_h.len() as int) == old_h
    &&& forall|j: int| 0 <= j < names.len() ==> probe_of((#[trigger] new_records(old_h, new_h)[j]).0, address, names[j])
}

/// Counters for rollback monitoring.
#[derive(Clone, Copy, Debug, PartialEq, Eq, Structural)]
pub struct RollbackStatistics {
    pub total_rollbacks: u64,
    pub successful_rollbacks: u64,
    pub failed_rollbacks: u64,
    pub average_rollback_time: u64,
}

/// Undoes prepared work through the participants' rollback entry points.
pub struct RollbackManager {}

impl RollbackManager {
    pub fn new() -> (r: Self) {
        RollbackManager {  }
    }

    /// Calls the rollback entry point of `operation` with the parameters it
    /// was prepared with, exactly once; on success returns the record of the
    /// rollback.
    pub fn rollback_operation<F: Fn(ParticipantCall) -> Result<(), String>>(
        &self,
        operation: &TransactionOperation,
        participants: &mut Participants<F>,
    ) -> (r: Result<RollbackInfo, TransactionError>)
        requires
            old(participants).ready(),
        ensures
            final(participants).invoker() == old(participants).invoker(),
            appended_calls(
                old(participants).invoker(),
                old(participants).history(),
                final(participants).history(),
                seq![*operation],
                "rollback_"@,
            ),
            r is Ok <==> new_records(old(participants).history(), final(participants).history())[0].1 is Ok,
            r is Ok ==> rollback_record(r->Ok_0, 0, *operation, true),
            r is Err ==> r == Err::<RollbackInfo, TransactionError>(TransactionError::RollbackFailed),
    {
        let ghost h0 = participants.history();
        let ghost invoke = participants.invoker();
        let call = participant_call("rollback_", operation);
        let ghost c = call;
        let outcome = participants.call(call);
        proof {
            lemma_no_calls(invoke, h0, "rollback_"@);
            assert(seq![*operation].subrange(0, 0) =~= Seq::<TransactionOperation>::empty());
            lemma_append_call(invoke, h0, h0, seq![*operation], 0, "rollback_"@, (c, outcome));
            assert(seq![*operation].subrange(0, 1) =~= seq![*operation]);
            assert(new_records(h0, participants.history())[0] == (c, outcome));
        }
        match outcome {
            Ok(()) => {
                Ok(
                    RollbackInfo {
                        transaction_id: 0,
                        operation_id: operation.operation_id,
                        contract_address: operation.contract_address.clone(),
                        rollback_function: entry_point("rollback_", &operation.function_name),
                        rollback_parameters: copy_strings(&operation.parameters),
                        rollback_successful: true,
                        rollback_error: None,
                    },
                )
            },
            Err(_e) => Err(TransactionError::RollbackFailed),
        }
    }

    /// Rolls back a whole transaction: calls the rollback entry point of
    /// every operation that was prepared and not committed, and of no other,
    /// once each, last first, each with the parameters it was prepared with.
    /// A failed rollback does not stop the others; the result is `Ok` exactly
    /// when every call succeeded, `RollbackFailed` otherwise. With nothing to
    /// undo no call is made and the result is `Ok`.
    pub fn rollback_transaction<F: Fn(ParticipantCall) -> Result<(), String>>(
        &self,
        log: &TransactionLog,
        participants: &mut Participants<F>,
    ) -> (r: Result<(), TransactionError>)
        requires
            old(participants).ready(),
        ensures
            final(participants).invoker() == old(participants).invoker(),
            appended_calls(
                old(participants).invoker(),
                old(participants).history(),
                final(participants).history(),
                rollback_targets(log.operations@),
                "rollback_"@,
            ),
            r is Ok <==> forall|t: int|
                0 <= t < rollback_targets(log.operations@).len() ==> (#[trigger] new_records(
                    old(participants).history(),
                    final(participants).history(),
                )[t]).1 is Ok,
            r is Err ==> r == Err::<(), TransactionError>(TransactionError::RollbackFailed),
    {
        let ghost ops = log.operations@;
        let ghost targets = rollback_targets(ops);
        let ghost h0 = participants.history();
        let ghost invoke = participants.invoker();
        let mut failed = false;
        let mut i: usize = log.operations.len();
        proof {
            lemma_no_calls(invoke, h0, "rollback_"@);
            assert(targets.subrange(0, 0) =~= Seq::<TransactionOperation>::empty());
        }
        assert(ops.subrange(0, i as int) =~= ops);
        assert(targets =~= targets.subrange(0, 0) + targets);
        while i > 0
            invariant
                ops == log.operations@,
                targets == rollback_targets(ops),
                i <= ops.len(),
                invoke == participants.invoker(),
                invoke == old(participants).invoker(),
                h0 == old(participants).history(),
                participants.ready(),
                rollback_targets(ops.subrange(0, i as int)).len() <= targets.len(),
                targets == targets.subrange(
                    0,
                    targets.len() - rollback_targets(ops.subrange(0, i as int)).len(),
                ) + rollback_targets(ops.subrange(0, i as int)),
                appended_calls(
                    invoke,
                    h0,
                    participants.history(),
                    targets.subrange(0, targets.len() - rollback_targets(ops.subrange(0, i as int)).len()),
                    "rollback_"@,
                ),
                failed <==> exists|t: int|
                    0 <= t < targets.len() - rollback_targets(ops.subrange(0, i as int)).len()
                        && (#[trigger] new_records(h0, participants.history())[t]).1 is Err,
            decreases i,
        {
            let ghost pre = ops.subrange(0, i as int);
            let ghost done = targets.len() - rollback_targets(pre).len();
            let ghost before = participants.history();
            let ghost failed0 = failed;
            assert(pre.drop_last() =~= ops.subrange(0, i - 1));
            let operation = &log.operations[i - 1];
            let eligible = operation.prepared && !operation.committed;
            if eligible {
                assert(targets[done] == ops[i - 1]);
                let outcome = self.rollback_operation(operation, participants);
                proof {
                    lemma_single_call(invoke, before, participants.history(), ops[i - 1], "rollback_"@);
                    let rec = new_records(before, participants.history())[0];
                    lemma_append_call(invoke, h0, before, targets, done, "rollback_"@, rec);
                    assert forall|t: int| 0 <= t < done implies #[trigger] new_records(h0, participants.history())[t]
                        == new_records(h0, before)[t] by {}
                    assert(new_records(h0, participants.history())[done] == rec);
                }
                match outcome {
                    Ok(_info) => {},
                    Err(_e) => {
                        failed = true;
                    },
                }
            }
            i -= 1;
            proof {
                let post = ops.subrange(0, i as int);
                assert(targets =~= targets.subrange(0, targets.len() - rollback_targets(post).len())
                    + rollback_targets(post));
                let h = participants.history();
                let newdone = targets.len() - rollback_targets(post).len();
                if eligible {
                    assert(newdone == done + 1);
                } else {
                    assert(newdone == done);
                    assert(h == before);
                }
                if failed {
                    if failed0 {
                        let t = choose|t: int| 0 <= t < done && (#[trigger] new_records(h0, before)[t]).1 is Err;
                        assert(new_records(h0, h)[t] == new_records(h0, before)[t]);
                    } else {
                        assert(new_records(h0, h)[done].1 is Err);
                    }
                } else {
                    assert forall|t: int| 0 <= t < newdone implies (#[trigger] new_records(h0, h)[t]).1 is Ok by {
                        if t < done {
                            assert(new_records(h0, h)[t] == new_records(h0, before)[t]);
                        }
                    }
                }
            }
        }
        assert(ops.subrange(0, 0) =~= Seq::<TransactionOperation>::empty());
        assert(targets.subrange(0, targets.len() as int) =~= targets);
        if failed {
            Err(TransactionError::RollbackFailed)
        } else {
            Ok(())
        }
    }

    /// True iff the operation was prepared, was not committed, and names a
    /// resolvable participant.
    pub fn can_rollback(&self, operation: &TransactionOperation) -> (r: bool)
        ensures
            r == can_roll_back(*operation),
    {
        operation.prepared && !operation.committed && operation.contract_address.as_str().unicode_len() > 0
    }
}

impl RollbackManager {
    /// Rolls back only the named operations, in the order given, one call
    /// each. Stops before calling at the first id that names no operation
    /// (`OperationNotFound`) or whose operation cannot be rolled back
    /// (`InvalidPhase`), and right after a failing rollback call
    /// (`RollbackFailed`). Without a log the result is `TransactionNotFound`
    /// and no call is made.
    pub fn partial_rollback<F: Fn(ParticipantCall) -> Result<(), String>>(
        &self,
        log: Option<&TransactionLog>,
        operation_ids: Vec<u64>,
        participants: &mut Participants<F>,
    ) -> (r: Result<(), TransactionError>)
        requires
            old(participants).ready(),
        ensures
            final(participants).invoker() == old(participants).invoker(),
            match log {
                None => r == Err::<(), TransactionError>(TransactionError::TransactionNotFound)
                    && final(participants).history() == old(participants).history(),
                Some(l) => exists|k: int|
                    #[trigger] partial_outcome(
                        old(participants).invoker(),
                        l.operations@,
                        operation_ids@,
                        old(participants).history(),
                        final(participants).history(),
                        k,
                        r,
                    ),
            },
    {
        let entry = match log {
            None => {
                return Err(TransactionError::TransactionNotFound);
            },
            Some(l) => l,
        };
        let ghost ops = entry.operations@;
        let ghost ids = operation_ids@;
        let ghost named = named_operations(ops, ids);
        let ghost h0 = participants.history();
        let ghost invoke = participants.invoker();
        proof {
            lemma_no_calls(invoke, h0, "rollback_"@);
            assert(named.subrange(0, 0) =~= Seq::<TransactionOperation>::empty());
        }
        let mut k: usize = 0;
        while k < operation_ids.len()
            invariant
                ops == entry.operations@,
                log == Some(entry),
                ids == operation_ids@,
                named == named_operations(ops, ids),
                k <= ids.len(),
                invoke == participants.invoker(),
                invoke == old(participants).invoker(),
                h0 == old(participants).history(),
                participants.ready(),
                appended_calls(invoke, h0, participants.history(), named.subrange(0, k as int), "rollback_"@),
                forall|j: int|
                    0 <= j < k ==> has_id(ops, #[trigger] ids[j]) && can_roll_back(ops[first_index(ops, ids[j])])
                        && new_records(h0, participants.history())[j].1 is Ok,
            decreases ids.len() - k,
        {
            let operation_id = operation_ids[k];
            match find_operation(&entry.operations, operation_id) {
                None => {
                    assert(partial_outcome(invoke, ops, ids, h0, participants.history(), k as int, Err(TransactionError::OperationNotFound)));
                    return Err(TransactionError::OperationNotFound);
                },
                Some(i) => {
                    proof {
                        assert(first_with_id(ops, ids[k as int], i as int));
                        assert(has_id(ops, ids[k as int]));
                        let f = first_index(ops, ids[k as int]);
                        assert(first_with_id(ops, ids[k as int], f));
                        assert(f == i);
                        assert(named[k as int] == ops[i as int]);
                    }
                    let operation = &entry.operations[i];
                    if !self.can_rollback(operation) {
                        assert(partial_outcome(invoke, ops, ids, h0, participants.history(), k as int, Err(TransactionError::InvalidPhase)));
                        return Err(TransactionError::InvalidPhase);
                    }
                    let ghost before = participants.history();
                    let outcome = self.rollback_operation(operation, participants);
                    proof {
                        lemma_single_call(invoke, before, participants.history(), ops[i as int], "rollback_"@);
                        let rec = new_records(before, participants.history())[0];
                        lemma_append_call(invoke, h0, before, named, k as int, "rollback_"@, rec);
                        assert forall|t: int| 0 <= t < k implies #[trigger] new_records(h0, participants.history())[t]
                            == new_records(h0, before)[t] by {}
                        assert(new_records(h0, participants.history())[k as int] == rec);
                    }
                    match outcome {
                        Ok(_info) => {},
                        Err(_e) => {
                            assert(partial_outcome(invoke, ops, ids, h0, participants.history(), k as int, Err(TransactionError::RollbackFailed)));
                            return Err(TransactionError::RollbackFailed);
                        },
                    }
                },
            }
            k += 1;
        }
        assert(named.subrange(0, k as int) =~= named);
        assert(partial_outcome(invoke, ops, ids, h0, participants.history(), k as int, Ok(())));
        Ok(())
    }

    /// The rollback record each operation of the log would get, not yet
    /// attempted. Without a log the result is `TransactionNotFound`.
    pub fn get_rollback_status(&self, log: Option<&TransactionLog>) -> (r: Result<Vec<RollbackInfo>, TransactionError>)
        ensures
            match log {
                None => r is Err && r->Err_0 == TransactionError::TransactionNotFound,
                Some(l) => r is Ok && r->Ok_0@.len() == l.operations@.len() && forall|i: int|
                    0 <= i < l.operations@.len() ==> rollback_record(
                        #[trigger] r->Ok_0@[i],
                        l.transaction_id,
                        l.operations@[i],
                        false,
                    ),
            },
    {
        let log = match log {
            None => {
                return Err(TransactionError::TransactionNotFound);
            },
            Some(l) => l,
        };
        let mut status: Vec<RollbackInfo> = Vec::new();
        let mut i: usize = 0;
        while i < log.operations.len()
            invariant
                i <= log.operations@.len(),
                status@.len() == i,
                forall|j: int|
                    0 <= j < i ==> rollback_record(#[trigger] status@[j], log.transaction_id, log.operations@[j], false),
            decreases log.operations@.len() - i,
        {
            let operation = &log.operations[i];
            status.push(
                RollbackInfo {
                    transaction_id: log.transaction_id,
                    operation_id: operation.operation_id,
                    contract_address: operation.contract_address.clone(),
                    rollback_function: entry_point("rollback_", &operation.function_name),
                    rollback_parameters: copy_strings(&operation.parameters),
                    rollback_successful: false,
                    rollback_error: None,
                },
            );
            i += 1;
        }
        Ok(status)
    }

    /// Probes the rollback entry point of each function name at
    /// `contract_address`, one call each in the order given, with no
    /// parameters. The probes' outcomes are not interpreted: the result is
    /// always `Ok(true)`.
    pub fn verify_rollback_support<F: Fn(ParticipantCall) -> Result<(), String>>(
        &self,
        contract_address: &String,
        function_names: Vec<String>,
        participants: &mut Participants<F>,
    ) -> (r: Result<bool, TransactionError>)
        requires
            old(participants).ready(),
        ensures
            r == Ok::<bool, TransactionError>(true),
            final(participants).invoker() == old(participants).invoker(),
            probes_made(old(participants).history(), final(participants).history(), contract_address@, function_names@),
    {
        let ghost h0 = participants.history();
        let mut i: usize = 0;
        assert(participants.history().subrange(0, h0.len() as int) =~= h0);
        while i < function_names.len()
            invariant
                i <= function_names@.len(),
                participants.ready(),
                participants.invoker() == old(participants).invoker(),
                h0 == old(participants).history(),
                probes_made(h0, participants.history(), contract_address@, function_names@.subrange(0, i as int)),
            decreases function_names@.len() - i,
        {
            let call = ParticipantCall {
                contract_address: contract_address.clone(),
                entry_point: entry_point("rollback_", &function_names[i]),
                parameters: Vec::new(),
            };
            let ghost c = call;
            let ghost before = participants.history();
            let _outcome = participants.call(call);
            proof {
                let h = participants.history();
                assert(h.subrange(0, h0.len() as int) =~= before.subrange(0, h0.len() as int));
                assert forall|j: int| 0 <= j < i + 1 implies probe_of(
                    (#[trigger] new_records(h0, h)[j]).0,
                    contract_address@,
                    function_names@.subrange(0, i + 1)[j],
                ) by {
                    if j < i {
                        assert(new_records(h0, h)[j] == new_records(h0, before)[j]);
                        assert(function_names@.subrange(0, i + 1)[j] == function_names@.subrange(0, i as int)[j]);
                    } else {
                        assert(new_records(h0, h)[j] == h[h.len() - 1]);
                    }
                }
            }
            i += 1;
        }
        assert(function_names@.subrange(0, i as int) =~= function_names@);
        Ok(true)
    }

    /// Rollback counters; none are kept yet, so all are zero.
    pub fn get_rollback_statistics(&self) -> (r: Result<RollbackStatistics, TransactionError>)
        ensures
            r == Ok::<RollbackStatistics, TransactionError>(
                RollbackStatistics {
                    total_rollbacks: 0,
                    successful_rollbacks: 0,
                    failed_rollbacks: 0,
                    average_rollback_time: 0,
                },
            ),
    {
        Ok(RollbackStatistics { total_rollbacks: 0, successful_rollbacks: 0, failed_rollbacks: 0, average_rollback_time: 0 })
    }
}

/// A log with nothing left to undo (every operation either unprepared or
/// committed), as a completed rollback leaves it, gives a rollback with no
/// targets: a second rollback makes no call and succeeds.
pub proof fn lemma_rollback_idempotent<F: Fn(ParticipantCall) -> Result<(), String>>(
    invoke: F,
    ops: Seq<TransactionOperation>,
    old_h: Seq<CallRecord>,
    new_h: Seq<CallRecord>,
    r: Result<(), TransactionError>,
)
    requires
        forall|i: int| 0 <= i < ops.len() ==> !(#[trigger] ops[i]).prepared || ops[i].committed,
        appended_calls(invoke, old_h, new_h, rollback_targets(ops), "rollback_"@),
        r is Ok <==> forall|t: int|
            0 <= t < rollback_targets(ops).len() ==> (#[trigger] new_records(old_h, new_h)[t]).1 is Ok,
    ensures
        rollback_targets(ops).len() == 0,
        new_h == old_h,
        r is Ok,
{
    lemma_no_targets(ops);
    assert(new_h =~= new_h.subrange(0, old_h.len() as int));
}

proof fn lemma_no_targets(ops: Seq<TransactionOperation>)
    requires
        forall|i: int| 0 <= i < ops.len() ==> !(#[trigger] ops[i]).prepared || ops[i].committed,
    ensures
        rollback_targets(ops).len() == 0,
    decreases ops.len(),
{
    if ops.len() > 0 {
        lemma_no_targets(ops.drop_last());
    }
}

} // verus!
